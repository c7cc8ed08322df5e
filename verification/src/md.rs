//! The boundary to the markdown document tree.  The log parser only reads
//! the document's top-level blocks: a heading's rendered text and, for each
//! list, the rendered text of each item's first content.  One trusted
//! wrapper flattens the tree to that shape; everything after it is verified.

use vstd::prelude::*;

verus! {

/// One top-level block of a markdown document, reduced to what the log
/// parser reads.
pub enum Block {
    /// A heading, as its rendered text.
    Heading(String),
    /// A list: for each item, the rendered text of its first content,
    /// where it has any.
    List(Vec<Option<String>>),
    /// Any other construct; it neither sets nor clears the date in scope.
    Other,
}

/// The mathematical model of a block.
#[verifier::ext_equal]
pub ghost enum BlockV {
    Heading(Seq<char>),
    List(Seq<Option<Seq<char>>>),
    Other,
}

impl View for Block {
    type V = BlockV;

    open spec fn view(&self) -> BlockV {
        match self {
            Block::Heading(t) => BlockV::Heading(t@),
            Block::List(items) => BlockV::List(
                items@.map_values(
                    |o: Option<String>|
                        match o {
                            Some(t) => Some(t@),
                            None => None,
                        },
                ),
            ),
            Block::Other => BlockV::Other,
        }
    }
}

pub open spec fn blocks_view(s: Seq<Block>) -> Seq<BlockV> {
    s.map_values(|b: Block| b@)
}

/// The sequence of top-level blocks that the markdown parser produces for a
/// document; a function of the text alone.
pub uninterp spec fn md_blocks_of(s: Seq<char>) -> Seq<BlockV>;

/// Relies on `markdown::to_mdast`, which cannot fail for plain markdown,
/// and on `mdast::Node::children` and `mdast::Node::to_string`, which hand
/// out a node's children and its rendered text content.  The body only
/// flattens the returned tree into the block shape above.
#[verifier::external_body]
pub(crate) fn md_blocks(input: &str) -> (r: Vec<Block>)
    ensures
        blocks_view(r@) == md_blocks_of(input@),
{
    let mut out = Vec::new();
    if let Ok(root) = markdown::to_mdast(input, &markdown::ParseOptions::default()) {
        for node in root.children().into_iter().flatten() {
            out.push(match node {
                markdown::mdast::Node::Heading(_) => Block::Heading(node.to_string()),
                markdown::mdast::Node::List(l) => Block::List(l.children.iter().map(
                    |i| i.children().and_then(|c| c.first()).map(|n| n.to_string()),
                ).collect()),
                _ => Block::Other,
            });
        }
    }
    out
}

} // verus!
