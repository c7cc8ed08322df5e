//! Argument validation shared by the command-line front ends.  The caller
//! owns the file system; it reports whether the candidate path names an
//! existing file, and the decision is made here.

use vstd::prelude::*;

verus! {

/// The error for a path that names no existing file.
#[derive(Clone, Copy, PartialEq, Eq, Structural, Debug)]
pub struct NoSuchFileError {}

impl NoSuchFileError {
    /// The error's message.
    pub fn text(&self) -> (r: String)
        ensures
            r@ == "no such file"@,
    {
        "no such file".to_owned()
    }
}

/// Accepts a candidate path exactly when the caller found a file there.
pub fn parse_file_path(input: &str, is_file: bool) -> (r: Result<String, NoSuchFileError>)
    ensures
        match r {
            Ok(p) => is_file && p@ == input@,
            Err(_) => !is_file,
        },
{
    if is_file {
        Ok(input.to_owned())
    } else {
        Err(NoSuchFileError {  })
    }
}

} // verus!
