//! The timelog: parsing a markdown document into a sorted collection of
//! entries, and grouping those entries by date or by project.

use vstd::prelude::*;
use vstd::multiset::Multiset;
use crate::date::{Date, date_eq, date_lt};
use crate::entry::{Entry, EntryV, chars_lt, entry_le, entry_spec, lemma_chars_lt_connected,
    lemma_chars_lt_trans, lemma_entry_le_total, str_lt,
    lemma_entry_le_trans, entry_le_exec};
use crate::md::{Block, BlockV, blocks_view, md_blocks, md_blocks_of};
use crate::text::{digits_val, is_digit, is_word};
use crate::text::{char_is_digit, char_is_word, digits_value};

verus! {

/// The views of a sequence of entries.
pub open spec fn entry_views(s: Seq<Entry>) -> Seq<EntryV> {
    s.map_values(|e: Entry| e@)
}

/// Sorted by the entry order, in the all-pairs sense.
pub open spec fn sorted_entries(s: Seq<EntryV>) -> bool {
    forall|i: int, j: int| 0 <= i <= j < s.len() ==> entry_le(#[trigger] s[i], #[trigger] s[j])
}

pub open spec fn entries_wf(s: Seq<EntryV>) -> bool {
    forall|i: int| 0 <= i < s.len() ==> (#[trigger] s[i]).wf()
}

/// An ordered collection of entries, globally sorted by the entry order
/// once parsing completes.
#[derive(Debug, PartialEq)]
pub struct Log(pub Vec<Entry>);

impl View for Log {
    type V = Seq<EntryV>;

    open spec fn view(&self) -> Seq<EntryV> {
        entry_views(self.0@)
    }
}

impl Log {
    /// Every entry satisfies the entry invariant.
    pub open spec fn wf(self) -> bool {
        entries_wf(self@)
    }

    pub open spec fn sorted(self) -> bool {
        sorted_entries(self@)
    }
}

impl Default for Log {
    fn default() -> (r: Log)
        ensures
            r@ == Seq::<EntryV>::empty(),
    {
        let r = Log(Vec::new());
        assert(r@ =~= Seq::<EntryV>::empty());
        r
    }
}

impl Clone for Log {
    fn clone(&self) -> (r: Log)
        ensures
            r@ == self@,
            r.0@ == self.0@,
    {
        let mut out: Vec<Entry> = Vec::new();
        let mut i: usize = 0;
        while i < self.0.len()
            invariant
                i <= self.0@.len(),
                out@ == self.0@.take(i as int),
            decreases self.0@.len() - i,
        {
            out.push(self.0[i].clone());
            assert(out@ =~= self.0@.take(i + 1));
            i = i + 1;
        }
        assert(out@ =~= self.0@);
        Log(out)
    }
}

/// `YYYY-MM-DD` sits at position `i` of the text, at word boundaries.
pub open spec fn date_pattern_at(s: Seq<char>, i: int) -> bool {
    &&& 0 <= i
    &&& i + 10 <= s.len()
    &&& is_digit(s[i])
    &&& is_digit(s[i + 1])
    &&& is_digit(s[i + 2])
    &&& is_digit(s[i + 3])
    &&& s[i + 4] == '-'
    &&& is_digit(s[i + 5])
    &&& is_digit(s[i + 6])
    &&& s[i + 7] == '-'
    &&& is_digit(s[i + 8])
    &&& is_digit(s[i + 9])
    &&& (i == 0 || !is_word(s[i - 1]))
    &&& (i + 10 == s.len() || !is_word(s[i + 10]))
}

/// The first position with a date pattern at or after `i`; the length if
/// there is none.
pub open spec fn first_date_pos(s: Seq<char>, i: int) -> int
    decreases s.len() - i,
{
    if 0 <= i && i + 10 <= s.len() {
        if date_pattern_at(s, i) {
            i
        } else {
            first_date_pos(s, i + 1)
        }
    } else {
        s.len() as int
    }
}

/// The date a heading places in scope: the first `YYYY-MM-DD` of its text,
/// provided it names a real calendar day; otherwise nothing.
pub open spec fn heading_date(s: Seq<char>) -> Option<Date> {
    let i = first_date_pos(s, 0);
    if i + 10 <= s.len() {
        let d = Date {
            year: digits_val(s, i, i + 4) as u16,
            month: digits_val(s, i + 5, i + 7) as u8,
            day: digits_val(s, i + 8, i + 10) as u8,
        };
        if d.valid() {
            Some(d)
        } else {
            None
        }
    } else {
        None
    }
}

fn date_pattern_at_exec(s: &str, n: usize, i: usize) -> (r: bool)
    requires
        n == s@.len(),
        i + 10 <= n,
    ensures
        r == date_pattern_at(s@, i as int),
{
    char_is_digit(s.get_char(i)) && char_is_digit(s.get_char(i + 1)) && char_is_digit(
        s.get_char(i + 2),
    ) && char_is_digit(s.get_char(i + 3)) && s.get_char(i + 4) == '-' && char_is_digit(
        s.get_char(i + 5),
    ) && char_is_digit(s.get_char(i + 6)) && s.get_char(i + 7) == '-' && char_is_digit(
        s.get_char(i + 8),
    ) && char_is_digit(s.get_char(i + 9)) && (i == 0 || !char_is_word(s.get_char(i - 1))) && (i
        + 10 == n || !char_is_word(s.get_char(i + 10)))
}

/// The entries one list contributes: its items are tried in order under the
/// date in scope, and items that are not entry lines are skipped.
pub open spec fn items_entries(items: Seq<Option<Seq<char>>>, d: Date) -> Seq<EntryV>
    decreases items.len(),
{
    if items.len() == 0 {
        Seq::empty()
    } else {
        let rest = items_entries(items.drop_first(), d);
        match items[0] {
            None => rest,
            Some(t) => match entry_spec(t, d) {
                None => rest,
                Some(e) => seq![e] + rest,
            },
        }
    }
}

/// The entries of a block sequence, read in document order.  A heading
/// always replaces the date in scope (possibly with none); a list yields
/// entries only while a date is in scope; anything else changes nothing.
pub open spec fn blocks_entries(blocks: Seq<BlockV>, date: Option<Date>) -> Seq<EntryV>
    decreases blocks.len(),
{
    if blocks.len() == 0 {
        Seq::empty()
    } else {
        match blocks[0] {
            BlockV::Heading(t) => blocks_entries(blocks.drop_first(), heading_date(t)),
            BlockV::List(items) => (match date {
                Some(d) => items_entries(items, d),
                None => Seq::empty(),
            }) + blocks_entries(blocks.drop_first(), date),
            BlockV::Other => blocks_entries(blocks.drop_first(), date),
        }
    }
}

/// Inserting an element between its lower and upper neighbours keeps a
/// sequence sorted.
#[verifier::rlimit(60)]
proof fn lemma_sorted_insert(ov: Seq<EntryV>, p: int, x: EntryV)
    requires
        sorted_entries(ov),
        0 <= p <= ov.len(),
        forall|k: int| p <= k < ov.len() ==> entry_le(x, #[trigger] ov[k]),
        p > 0 ==> entry_le(ov[p - 1], x),
    ensures
        sorted_entries(ov.insert(p, x)),
{
    ov.insert_ensures(p, x);
    let nv = ov.insert(p, x);
    assert forall|i: int, j: int| 0 <= i <= j < nv.len() implies entry_le(nv[i], nv[j]) by {
        if i < p && j == p {
            if i < p - 1 {
                lemma_entry_le_trans(ov[i], ov[p - 1], x);
            }
        } else if i < p && j > p {
            if i < p - 1 {
                lemma_entry_le_trans(ov[i], ov[p - 1], x);
            }
            lemma_entry_le_trans(ov[i], x, ov[j - 1]);
        }
    }
}

/// Places one entry at its sorted position.
fn insert_sorted(out: &mut Vec<Entry>, e: Entry)
    requires
        sorted_entries(entry_views(old(out)@)),
    ensures
        sorted_entries(entry_views(final(out)@)),
        entry_views(final(out)@).to_multiset() == entry_views(old(out)@).to_multiset().insert(
            e@,
        ),
        entries_wf(entry_views(old(out)@)) && e@.wf() ==> entries_wf(entry_views(final(out)@)),
{
    let ghost ov = entry_views(old(out)@);
    let mut pos: usize = out.len();
    while pos > 0 && !entry_le_exec(&out[pos - 1], &e)
        invariant
            *out == *old(out),
            ov == entry_views(old(out)@),
            pos <= out@.len(),
            forall|k: int| pos <= k < ov.len() ==> entry_le(e@, #[trigger] ov[k]),
        decreases pos,
    {
        proof {
            assert(ov.len() == old(out)@.len());
            assert(ov[pos - 1] == old(out)@[pos - 1]@);
            lemma_entry_le_total(ov[pos - 1], e@);
        }
        pos = pos - 1;
    }
    let ghost p = pos as int;
    proof {
        ov.insert_ensures(p, e@);
        old(out)@.insert_ensures(p, e);
        if pos > 0 {
            assert(ov[p - 1] == out@[p - 1]@);
        }
        lemma_sorted_insert(ov, p, e@);
        vstd::seq_lib::to_multiset_insert(ov, p, e@);
    }
    out.insert(pos, e);
    proof {
        assert(entry_views(out@) =~= ov.insert(p, e@));
        assert forall|k: int| 0 <= k < ov.insert(p, e@).len() implies (entries_wf(ov) && e@.wf()
            ==> (#[trigger] ov.insert(p, e@)[k]).wf()) by {
            if k < p {
                assert(ov.insert(p, e@)[k] == ov[k]);
            } else if k > p {
                assert(ov.insert(p, e@)[k] == ov[k - 1]);
            }
        }
    }
}

/// Sorts the entries by the entry order.  Entries that compare equal have
/// no defined relative order.
fn sort_entries(v: &mut Vec<Entry>)
    ensures
        sorted_entries(entry_views(final(v)@)),
        entry_views(final(v)@).to_multiset() == entry_views(old(v)@).to_multiset(),
        entries_wf(entry_views(old(v)@)) ==> entries_wf(entry_views(final(v)@)),
{
    broadcast use vstd::seq_lib::group_to_multiset_ensures;

    let mut out: Vec<Entry> = Vec::new();
    assert(entry_views(out@) =~= Seq::<EntryV>::empty());
    assert(entry_views(out@).to_multiset().add(entry_views(v@).to_multiset()) =~= entry_views(
        v@,
    ).to_multiset());
    while v.len() > 0
        invariant
            sorted_entries(entry_views(out@)),
            entry_views(out@).to_multiset().add(entry_views(v@).to_multiset()) == entry_views(
                old(v)@,
            ).to_multiset(),
            entries_wf(entry_views(old(v)@)) ==> entries_wf(entry_views(v@)) && entries_wf(
                entry_views(out@),
            ),
        decreases v@.len(),
    {
        let ghost vv = entry_views(v@);
        let e = match v.pop() {
            Some(e) => e,
            None => {
                proof {
                    assert(false);
                }
                return ;
            },
        };
        proof {
            vv.to_multiset_ensures();
            assert(e@ == vv[vv.len() - 1]);
            assert(vv.contains(e@));
            assert(entry_views(v@) =~= vv.drop_last());
            assert(vv.drop_last() =~= vv.remove(vv.len() - 1));
            vstd::seq_lib::to_multiset_remove(vv, vv.len() - 1);
        }
        let ghost ov = entry_views(out@);
        insert_sorted(&mut out, e);
        proof {
            assert(entry_views(out@).to_multiset().add(entry_views(v@).to_multiset())
                =~= entry_views(old(v)@).to_multiset()) by {
                broadcast use vstd::multiset::group_multiset_axioms;

                assert(entry_views(out@).to_multiset() == ov.to_multiset().insert(e@));
                assert(entry_views(v@).to_multiset() == vv.to_multiset().remove(e@));
                assert(vv.to_multiset().count(e@) > 0);
            }
        }
    }
    proof {
        assert(entry_views(v@) =~= Seq::<EntryV>::empty());
        assert(entry_views(v@).to_multiset() =~= Multiset::<EntryV>::empty());
        assert(entry_views(out@).to_multiset().add(Multiset::<EntryV>::empty())
            =~= entry_views(out@).to_multiset()) by {
            broadcast use vstd::multiset::group_multiset_axioms;

        }
    }
    *v = out;
}

/// Scans a heading's text for its date.
pub fn parse_heading(s: &str) -> (r: Option<Date>)
    ensures
        ({
            let t = heading_date(s@);
            match r {
                None => t is None,
                Some(d) => t == Some(d) && d.valid(),
            }
        }),
{
    let n = s.unicode_len();
    if n < 10 {
        return None;
    }
    let mut i: usize = 0;
    while i <= n - 10
        invariant
            n == s@.len(),
            10 <= n,
            i <= n - 10 + 1,
            first_date_pos(s@, 0) == first_date_pos(s@, i as int),
        decreases n - i,
    {
        if date_pattern_at_exec(s, n, i) {
            let y = digits_value(s, n, i, i + 4);
            let mo = digits_value(s, n, i + 5, i + 7);
            let da = digits_value(s, n, i + 8, i + 10);
            proof {
                crate::text::lemma_digits_val_bound(s@, i as int, i + 4);
                crate::text::lemma_digits_val_bound(s@, i + 5, i + 7);
                crate::text::lemma_digits_val_bound(s@, i + 8, i + 10);
            }
            return Date::new(y as u16, mo as u8, da as u8);
        }
        i = i + 1;
    }
    None
}

/// Insertion into a sorted list of distinct dates.
pub open spec fn insert_date(ds: Seq<Date>, d: Date) -> Seq<Date>
    decreases ds.len(),
{
    if ds.len() == 0 {
        seq![d]
    } else if ds[0] == d {
        ds
    } else if d.lt(ds[0]) {
        seq![d] + ds
    } else {
        seq![ds[0]] + insert_date(ds.drop_first(), d)
    }
}

/// Strictly ascending dates.
pub open spec fn sorted_dates(ds: Seq<Date>) -> bool {
    forall|i: int, j: int| 0 <= i < j < ds.len() ==> (#[trigger] ds[i]).lt(#[trigger] ds[j])
}

/// The distinct dates on which entries fall, in ascending order.
pub open spec fn dates_of(s: Seq<EntryV>) -> Seq<Date>
    decreases s.len(),
{
    if s.len() == 0 {
        Seq::empty()
    } else {
        insert_date(dates_of(s.drop_last()), s.last().from.date)
    }
}

/// The sub-sequence of entries on one date, in their original order.
pub open spec fn entries_on(s: Seq<EntryV>, d: Date) -> Seq<EntryV> {
    s.filter(|e: EntryV| e.from.date == d)
}

/// Grouping by date: the ascending distinct dates, each with exactly the
/// entries that fall on it.
pub open spec fn by_date_spec(s: Seq<EntryV>) -> Seq<(Date, Seq<EntryV>)> {
    dates_of(s).map_values(|d: Date| (d, entries_on(s, d)))
}

pub proof fn lemma_insert_date_membership(ds: Seq<Date>, d: Date, x: Date)
    ensures
        insert_date(ds, d).contains(x) <==> (ds.contains(x) || x == d),
    decreases ds.len(),
{
    let r = insert_date(ds, d);
    if ds.len() == 0 {
        assert(r =~= seq![d]);
        if r.contains(x) {
            let i = choose|i: int| 0 <= i < r.len() && r[i] == x;
        }
        if x == d {
            assert(r[0] == x);
        }
    } else if ds[0] == d {
        if x == d {
            assert(ds[0] == x);
        }
    } else if d.lt(ds[0]) {
        assert(r =~= seq![d] + ds);
        if r.contains(x) {
            let i = choose|i: int| 0 <= i < r.len() && r[i] == x;
            if i > 0 {
                assert(ds[i - 1] == x);
            }
        }
        if x == d {
            assert(r[0] == x);
        }
        if ds.contains(x) {
            let i = choose|i: int| 0 <= i < ds.len() && ds[i] == x;
            assert(r[i + 1] == x);
        }
    } else {
        lemma_insert_date_membership(ds.drop_first(), d, x);
        let sub = insert_date(ds.drop_first(), d);
        assert(r =~= seq![ds[0]] + sub);
        if r.contains(x) {
            let i = choose|i: int| 0 <= i < r.len() && r[i] == x;
            if i > 0 {
                assert(sub[i - 1] == x);
                assert(sub.contains(x));
                if ds.drop_first().contains(x) {
                    let j = choose|j: int| 0 <= j < ds.drop_first().len() && ds.drop_first()[j]
                        == x;
                    assert(ds[j + 1] == x);
                }
            } else {
                assert(ds[0] == x);
            }
        }
        if x == d {
            assert(sub.contains(x));
            let i = choose|i: int| 0 <= i < sub.len() && sub[i] == x;
            assert(r[i + 1] == x);
        }
        if ds.contains(x) {
            let i = choose|i: int| 0 <= i < ds.len() && ds[i] == x;
            if i == 0 {
                assert(r[0] == x);
            } else {
                assert(ds.drop_first()[i - 1] == x);
                assert(ds.drop_first().contains(x));
                assert(sub.contains(x));
                let j = choose|j: int| 0 <= j < sub.len() && sub[j] == x;
                assert(r[j + 1] == x);
            }
        }
    }
}

/// All dates in a key list are real calendar days; needed because only
/// valid dates are totally ordered by the date key.
pub open spec fn valid_dates(ds: Seq<Date>) -> bool {
    forall|i: int| 0 <= i < ds.len() ==> (#[trigger] ds[i]).valid()
}

pub proof fn lemma_insert_date_sorted(ds: Seq<Date>, d: Date)
    requires
        sorted_dates(ds),
        valid_dates(ds),
        d.valid(),
    ensures
        sorted_dates(insert_date(ds, d)),
        valid_dates(insert_date(ds, d)),
        insert_date(ds, d).len() == if ds.contains(d) {
            ds.len() as int
        } else {
            ds.len() as int + 1
        },
    decreases ds.len(),
{
    let r = insert_date(ds, d);
    if ds.len() == 0 {
        assert(r =~= seq![d]);
        if ds.contains(d) {
            let i = choose|i: int| 0 <= i < ds.len() && ds[i] == d;
        }
    } else if ds[0] == d {
        assert(ds.contains(d)) by {
            assert(ds[0] == d);
        }
    } else if d.lt(ds[0]) {
        assert(r =~= seq![d] + ds);
        assert forall|i: int, j: int| 0 <= i < j < r.len() implies (#[trigger] r[i]).lt(
            #[trigger] r[j],
        ) by {
            if i == 0 {
                if j > 1 {
                    assert(ds[0].lt(ds[j - 1]));
                }
            }
        }
        if ds.contains(d) {
            let i = choose|i: int| 0 <= i < ds.len() && ds[i] == d;
            if i > 0 {
                assert(ds[0].lt(ds[i]));
            }
            assert(false);
        }
    } else {
        // valid dates are totally ordered by their key
        assert(ds[0].lt(d)) by {
            if ds[0].key() == d.key() {
                crate::date::lemma_key_injective(ds[0], d);
            }
        }
        let sub = ds.drop_first();
        assert(sorted_dates(sub)) by {
            assert forall|i: int, j: int| 0 <= i < j < sub.len() implies (#[trigger] sub[i]).lt(
                #[trigger] sub[j],
            ) by {
                assert(sub[i] == ds[i + 1]);
                assert(sub[j] == ds[j + 1]);
            }
        }
        lemma_insert_date_sorted(sub, d);
        let isub = insert_date(sub, d);
        assert(r =~= seq![ds[0]] + isub);
        assert forall|i: int, j: int| 0 <= i < j < r.len() implies (#[trigger] r[i]).lt(
            #[trigger] r[j],
        ) by {
            if i == 0 {
                // everything in the inserted tail is above ds[0]
                lemma_insert_date_membership(sub, d, isub[j - 1]);
                if sub.contains(isub[j - 1]) {
                    let k = choose|k: int| 0 <= k < sub.len() && sub[k] == isub[j - 1];
                    assert(ds[0].lt(ds[k + 1]));
                }
            }
        }
        lemma_insert_date_membership(sub, d, d);
        if ds.contains(d) {
            let i = choose|i: int| 0 <= i < ds.len() && ds[i] == d;
            assert(i > 0);
            assert(sub[i - 1] == d);
            assert(sub.contains(d));
        }
        if sub.contains(d) {
            let i = choose|i: int| 0 <= i < sub.len() && sub[i] == d;
            assert(ds[i + 1] == d);
            assert(ds.contains(d));
        }
    }
}

/// The date list of a well-formed entry sequence is ascending, names real
/// calendar days, and holds exactly the dates on which entries fall.
pub proof fn lemma_dates_of(s: Seq<EntryV>)
    requires
        entries_wf(s),
    ensures
        sorted_dates(dates_of(s)),
        valid_dates(dates_of(s)),
        forall|x: Date|
            dates_of(s).contains(x) <==> exists|i: int|
                0 <= i < s.len() && (#[trigger] s[i]).from.date == x,
    decreases s.len(),
{
    if s.len() == 0 {
        assert forall|x: Date| !dates_of(s).contains(x) by {
            if dates_of(s).contains(x) {
                let i = choose|i: int| 0 <= i < dates_of(s).len() && dates_of(s)[i] == x;
            }
        }
    } else {
        let sub = s.drop_last();
        let d = s.last().from.date;
        assert(entries_wf(sub)) by {
            assert forall|i: int| 0 <= i < sub.len() implies (#[trigger] sub[i]).wf() by {
                assert(sub[i] == s[i]);
            }
        }
        lemma_dates_of(sub);
        assert(s[s.len() - 1].wf());
        lemma_insert_date_sorted(dates_of(sub), d);
        assert forall|x: Date|
            dates_of(s).contains(x) <==> exists|i: int|
                0 <= i < s.len() && (#[trigger] s[i]).from.date == x by {
            lemma_insert_date_membership(dates_of(sub), d, x);
            if dates_of(s).contains(x) {
                if dates_of(sub).contains(x) {
                    let i = choose|i: int| 0 <= i < sub.len() && (#[trigger] sub[i]).from.date
                        == x;
                    assert(s[i].from.date == x);
                } else {
                    assert(s[s.len() - 1].from.date == x);
                }
            }
            if exists|i: int| 0 <= i < s.len() && (#[trigger] s[i]).from.date == x {
                let i = choose|i: int| 0 <= i < s.len() && (#[trigger] s[i]).from.date == x;
                if i < s.len() - 1 {
                    assert(sub[i].from.date == x);
                    assert(dates_of(sub).contains(x));
                }
            }
        }
    }
}

/// Filtering one more element extends the kept sub-sequence exactly when
/// the element passes.
pub proof fn lemma_filter_push<A>(s: Seq<A>, p: spec_fn(A) -> bool, x: A)
    ensures
        s.push(x).filter(p) == if p(x) {
            s.filter(p).push(x)
        } else {
            s.filter(p)
        },
{
    reveal(Seq::filter);
    assert(s.push(x).drop_last() =~= s);
    assert(s.push(x).last() == x);
}

/// A date that is not among the entries' dates keeps no entries.
pub proof fn lemma_entries_on_absent(s: Seq<EntryV>, d: Date)
    requires
        entries_wf(s),
        !dates_of(s).contains(d),
    ensures
        entries_on(s, d) == Seq::<EntryV>::empty(),
{
    broadcast use vstd::seq_lib::group_filter_ensures;

    lemma_dates_of(s);
    let f = entries_on(s, d);
    if f.len() > 0 {
        assert(f[0].from.date == d);
        assert(f.contains(f[0]));
        s.lemma_filter_contains_rev(|e: EntryV| e.from.date == d, f[0]);
        let i = choose|i: int| 0 <= i < s.len() && s[i] == f[0];
        assert(s[i].from.date == d);
        assert(false);
    }
    assert(f =~= Seq::<EntryV>::empty());
}

/// How insertion relates to the first position whose key is not below the
/// new date: at an equal key nothing changes, otherwise the date goes in
/// exactly there.
pub proof fn lemma_insert_date_at(ds: Seq<Date>, d: Date, idx: int)
    requires
        sorted_dates(ds),
        valid_dates(ds),
        d.valid(),
        0 <= idx <= ds.len(),
        forall|k: int| 0 <= k < idx ==> (#[trigger] ds[k]).lt(d),
    ensures
        idx < ds.len() && ds[idx] == d ==> insert_date(ds, d) == ds,
        (idx == ds.len() || d.lt(ds[idx])) ==> insert_date(ds, d) == ds.insert(idx, d),
    decreases ds.len(),
{
    let r = insert_date(ds, d);
    if ds.len() == 0 {
        assert(r =~= ds.insert(0, d));
    } else if idx == 0 {
        if ds[0] == d {
        } else if d.lt(ds[0]) {
            assert(seq![d] + ds =~= ds.insert(0, d));
        }
    } else {
        assert(ds[0].lt(d));
        assert(ds[0] != d) by {
            if ds[0] == d {
                assert(ds[0].key() < d.key());
            }
        }
        assert(!d.lt(ds[0]));
        let sub = ds.drop_first();
        assert(sorted_dates(sub) && valid_dates(sub)) by {
            assert forall|i: int, j: int| 0 <= i < j < sub.len() implies (#[trigger] sub[i]).lt(
                #[trigger] sub[j],
            ) by {
                assert(sub[i] == ds[i + 1]);
                assert(sub[j] == ds[j + 1]);
            }
            assert forall|i: int| 0 <= i < sub.len() implies (#[trigger] sub[i]).valid() by {
                assert(sub[i] == ds[i + 1]);
            }
        }
        assert forall|k: int| 0 <= k < idx - 1 implies (#[trigger] sub[k]).lt(d) by {
            assert(sub[k] == ds[k + 1]);
        }
        lemma_insert_date_at(sub, d, idx - 1);
        if idx < ds.len() && ds[idx] == d {
            assert(sub[idx - 1] == d);
            assert(r =~= ds);
        } else if idx == ds.len() || d.lt(ds[idx]) {
            if idx < ds.len() {
                assert(sub[idx - 1] == ds[idx]);
            }
            assert(insert_date(sub, d) == sub.insert(idx - 1, d));
            assert(r =~= ds.insert(idx, d));
        }
    }
}

/// Total minutes across a sequence of entries, as a mathematical sum.
pub open spec fn sum_minutes(s: Seq<EntryV>) -> int
    decreases s.len(),
{
    if s.len() == 0 {
        0
    } else {
        sum_minutes(s.drop_last()) + s.last().dur()
    }
}

/// The sum as a 64-bit count: exact wherever it fits, the largest count
/// otherwise.
pub open spec fn clamped_minutes(s: Seq<EntryV>) -> int {
    if sum_minutes(s) <= u64::MAX {
        sum_minutes(s)
    } else {
        u64::MAX as int
    }
}

/// Well-formed entries have positive durations, so sums never go below zero.
pub proof fn lemma_sum_minutes_nonneg(s: Seq<EntryV>)
    requires
        entries_wf(s),
    ensures
        sum_minutes(s) >= 0,
    decreases s.len(),
{
    if s.len() > 0 {
        let sub = s.drop_last();
        assert(entries_wf(sub)) by {
            assert forall|i: int| 0 <= i < sub.len() implies (#[trigger] sub[i]).wf() by {
                assert(sub[i] == s[i]);
            }
        }
        lemma_sum_minutes_nonneg(sub);
        assert(s[s.len() - 1].wf());
    }
}

/// The model of a group list: each date with its sub-log's entries.
pub open spec fn groups_view(g: Seq<(Date, Log)>) -> Seq<(Date, Seq<EntryV>)> {
    g.map_values(|p: (Date, Log)| (p.0, p.1@))
}

/// The entries that do not fall on a date, in their original order.
pub open spec fn entries_not_on(s: Seq<EntryV>, d: Date) -> Seq<EntryV> {
    s.filter(|e: EntryV| e.from.date != d)
}

/// All groups flattened back to one entry sequence.
pub open spec fn concat_groups(g: Seq<(Date, Seq<EntryV>)>) -> Seq<EntryV>
    decreases g.len(),
{
    if g.len() == 0 {
        Seq::empty()
    } else {
        g[0].1 + concat_groups(g.drop_first())
    }
}

/// The groups' durations, summed group by group.
pub open spec fn sum_groups(g: Seq<(Date, Seq<EntryV>)>) -> int
    decreases g.len(),
{
    if g.len() == 0 {
        0
    } else {
        sum_minutes(g[0].1) + sum_groups(g.drop_first())
    }
}

proof fn lemma_entries_not_on_push(s: Seq<EntryV>, x: EntryV, d: Date)
    ensures
        entries_not_on(s.push(x), d) == if x.from.date != d {
            entries_not_on(s, d).push(x)
        } else {
            entries_not_on(s, d)
        },
{
    reveal(Seq::filter);
    assert(s.push(x).drop_last() =~= s);
    assert(s.push(x).last() == x);
}

proof fn lemma_sum_minutes_push(s: Seq<EntryV>, x: EntryV)
    ensures
        sum_minutes(s.push(x)) == sum_minutes(s) + x.dur(),
{
    assert(s.push(x).drop_last() =~= s);
    assert(s.push(x).last() == x);
}

/// One date splits a sequence of entries in two, without loss: the entries
/// on it and the entries off it together make up the original, in count and
/// in total duration.
proof fn lemma_split_date(s: Seq<EntryV>, d: Date)
    ensures
        s.to_multiset() == entries_on(s, d).to_multiset().add(entries_not_on(s, d).to_multiset()),
        sum_minutes(s) == sum_minutes(entries_on(s, d)) + sum_minutes(entries_not_on(s, d)),
    decreases s.len(),
{
    broadcast use vstd::seq_lib::group_to_multiset_ensures;
    broadcast use vstd::multiset::group_multiset_axioms;

    reveal(Seq::filter);
    if s.len() == 0 {
        assert(entries_on(s, d) =~= Seq::<EntryV>::empty());
        assert(entries_not_on(s, d) =~= Seq::<EntryV>::empty());
        assert(s.to_multiset() =~= entries_on(s, d).to_multiset().add(
            entries_not_on(s, d).to_multiset(),
        ));
    } else {
        let t = s.drop_last();
        let x = s.last();
        lemma_split_date(t, d);
        assert(s =~= t.push(x));
        lemma_entries_on_push(t, x, d);
        lemma_entries_not_on_push(t, x, d);
        lemma_sum_minutes_push(t, x);
        if x.from.date == d {
            lemma_sum_minutes_push(entries_on(t, d), x);
            assert(s.to_multiset() =~= entries_on(s, d).to_multiset().add(
                entries_not_on(s, d).to_multiset(),
            ));
        } else {
            lemma_sum_minutes_push(entries_not_on(t, d), x);
            assert(s.to_multiset() =~= entries_on(s, d).to_multiset().add(
                entries_not_on(s, d).to_multiset(),
            ));
        }
    }
}

/// Filtering by a different date commutes with removing one date's entries.
proof fn lemma_entries_on_not_on(s: Seq<EntryV>, d0: Date, dk: Date)
    requires
        dk != d0,
    ensures
        entries_on(entries_not_on(s, d0), dk) == entries_on(s, dk),
    decreases s.len(),
{
    if s.len() == 0 {
        assert(entries_not_on(s, d0) =~= Seq::<EntryV>::empty()) by {
            reveal(Seq::filter);
        }
    } else {
        let t = s.drop_last();
        let x = s.last();
        lemma_entries_on_not_on(t, d0, dk);
        assert(s =~= t.push(x));
        lemma_entries_on_push(t, x, dk);
        lemma_entries_not_on_push(t, x, d0);
        if x.from.date != d0 {
            lemma_entries_on_push(entries_not_on(t, d0), x, dk);
        }
    }
}

/// A date occurs as a key of the group list.
pub open spec fn key_present(g: Seq<(Date, Seq<EntryV>)>, x: Date) -> bool {
    exists|i: int| 0 <= i < g.len() && (#[trigger] g[i]).0 == x
}

/// Some entry falls on the date.
pub open spec fn date_present(s: Seq<EntryV>, x: Date) -> bool {
    exists|k: int| 0 <= k < s.len() && (#[trigger] s[k]).from.date == x
}

/// The generic partition argument: a group list with distinct keys, whose
/// values are exactly the entries on each key, and whose keys cover exactly
/// the dates that occur, flattens back to the original entries.
proof fn lemma_groups_partition(g: Seq<(Date, Seq<EntryV>)>, s: Seq<EntryV>)
    requires
        forall|i: int, j: int| 0 <= i < j < g.len() ==> (#[trigger] g[i]).0 != (#[trigger] g[j]).0,
        forall|i: int| 0 <= i < g.len() ==> (#[trigger] g[i]).1 == entries_on(s, g[i].0),
        forall|x: Date| #![trigger key_present(g, x)] #![trigger date_present(s, x)]
            key_present(g, x) <==> date_present(s, x),
    ensures
        concat_groups(g).to_multiset() == s.to_multiset(),
        sum_groups(g) == sum_minutes(s),
    decreases g.len(),
{
    broadcast use vstd::seq_lib::group_to_multiset_ensures;
    broadcast use vstd::multiset::group_multiset_axioms;
    broadcast use vstd::seq_lib::group_filter_ensures;

    if g.len() == 0 {
        if s.len() > 0 {
            assert(date_present(s, s[0].from.date));
            assert(key_present(g, s[0].from.date));
            assert(false);
        }
        assert(s =~= Seq::<EntryV>::empty());
        assert(concat_groups(g).to_multiset() =~= s.to_multiset());
    } else {
        let d0 = g[0].0;
        let rest = g.drop_first();
        let s_ne = entries_not_on(s, d0);
        lemma_split_date(s, d0);
        assert forall|i: int, j: int| 0 <= i < j < rest.len() implies (#[trigger] rest[i]).0
            != (#[trigger] rest[j]).0 by {
            assert(rest[i] == g[i + 1]);
            assert(rest[j] == g[j + 1]);
        }
        assert forall|i: int| 0 <= i < rest.len() implies (#[trigger] rest[i]).1 == entries_on(
            s_ne,
            rest[i].0,
        ) by {
            assert(rest[i] == g[i + 1]);
            assert(g[i + 1].0 != g[0].0);
            lemma_entries_on_not_on(s, d0, rest[i].0);
        }
        assert forall|x: Date| #![trigger key_present(rest, x)] #![trigger date_present(s_ne, x)]
            key_present(rest, x) <==> date_present(s_ne, x) by {
            if key_present(rest, x) {
                let i = choose|i: int| 0 <= i < rest.len() && (#[trigger] rest[i]).0 == x;
                assert(rest[i] == g[i + 1]);
                assert(key_present(g, x)) by {
                    assert(g[i + 1].0 == x);
                }
                assert(x != d0);
                assert(date_present(s, x));
                let k = choose|k: int| 0 <= k < s.len() && (#[trigger] s[k]).from.date == x;
                s.lemma_filter_contains(|e: EntryV| e.from.date != d0, k);
                assert(s_ne.contains(s[k]));
                let m = choose|m: int| 0 <= m < s_ne.len() && s_ne[m] == s[k];
                assert(s_ne[m].from.date == x);
            }
            if date_present(s_ne, x) {
                let k = choose|k: int| 0 <= k < s_ne.len() && (#[trigger] s_ne[k]).from.date == x;
                assert(s_ne[k].from.date != d0);
                assert(s_ne.contains(s_ne[k]));
                s.lemma_filter_contains_rev(|e: EntryV| e.from.date != d0, s_ne[k]);
                let m = choose|m: int| 0 <= m < s.len() && s[m] == s_ne[k];
                assert(date_present(s, x)) by {
                    assert(s[m].from.date == x);
                }
                assert(key_present(g, x));
                let i = choose|i: int| 0 <= i < g.len() && (#[trigger] g[i]).0 == x;
                assert(i != 0);
                assert(rest[i - 1] == g[i]);
                assert(key_present(rest, x)) by {
                    assert(rest[i - 1].0 == x);
                }
            }
        }
        lemma_groups_partition(rest, s_ne);
        vstd::seq_lib::lemma_multiset_commutative(g[0].1, concat_groups(rest));
        assert(concat_groups(g).to_multiset() =~= s.to_multiset());
    }
}

/// The entries on one date are all well-formed when the log is.
pub proof fn lemma_entries_on_wf(s: Seq<EntryV>, d: Date)
    requires
        entries_wf(s),
    ensures
        entries_wf(entries_on(s, d)),
{
    let f = entries_on(s, d);
    assert forall|i: int| 0 <= i < f.len() implies (#[trigger] f[i]).wf() by {
        assert(f.contains(f[i]));
        s.lemma_filter_contains_rev(|e: EntryV| e.from.date == d, f[i]);
        let k = choose|k: int| 0 <= k < s.len() && s[k] == f[i];
        assert(s[k].wf());
    }
}

/// The entries under one project are all well-formed when the log is.
pub proof fn lemma_entries_of_project_wf(s: Seq<EntryV>, p: Seq<char>)
    requires
        entries_wf(s),
    ensures
        entries_wf(entries_of_project(s, p)),
{
    let f = entries_of_project(s, p);
    assert forall|i: int| 0 <= i < f.len() implies (#[trigger] f[i]).wf() by {
        assert(f.contains(f[i]));
        s.lemma_filter_contains_rev(|e: EntryV| e.project == p, f[i]);
        let k = choose|k: int| 0 <= k < s.len() && s[k] == f[i];
        assert(s[k].wf());
    }
}

/// Law: grouping by date neither loses nor duplicates entries — flattening
/// the groups reproduces the original log's entries exactly — and the
/// groups' summed durations equal the whole log's total.
pub proof fn lemma_by_date_partitions(s: Seq<EntryV>)
    requires
        entries_wf(s),
    ensures
        concat_groups(by_date_spec(s)).to_multiset() == s.to_multiset(),
        sum_groups(by_date_spec(s)) == sum_minutes(s),
{
    lemma_dates_of(s);
    let ds = dates_of(s);
    let g = by_date_spec(s);
    assert(g.len() == ds.len());
    assert forall|i: int| 0 <= i < g.len() implies (#[trigger] g[i]) == (
        ds[i],
        entries_on(s, ds[i]),
    ) by {}
    assert forall|i: int, j: int| 0 <= i < j < g.len() implies (#[trigger] g[i]).0
        != (#[trigger] g[j]).0 by {
        assert(ds[i].lt(ds[j]));
    }
    assert forall|x: Date| #![trigger key_present(g, x)] #![trigger date_present(s, x)]
        key_present(g, x) <==> date_present(s, x) by {
        if key_present(g, x) {
            let i = choose|i: int| 0 <= i < g.len() && (#[trigger] g[i]).0 == x;
            assert(ds[i] == x);
            assert(ds.contains(x));
        }
        if date_present(s, x) {
            assert(ds.contains(x));
            let i = choose|i: int| 0 <= i < ds.len() && ds[i] == x;
            assert(key_present(g, x)) by {
                assert(g[i].0 == x);
            }
        }
    }
    lemma_groups_partition(g, s);
}

/// The entries not under a project name, in their original order.
pub open spec fn entries_not_of_project(s: Seq<EntryV>, p: Seq<char>) -> Seq<EntryV> {
    s.filter(|e: EntryV| e.project != p)
}

/// All project groups flattened back to one entry sequence.
pub open spec fn concat_project_groups(g: Seq<(Seq<char>, Seq<EntryV>)>) -> Seq<EntryV>
    decreases g.len(),
{
    if g.len() == 0 {
        Seq::empty()
    } else {
        g[0].1 + concat_project_groups(g.drop_first())
    }
}

/// The project groups' durations, summed group by group.
pub open spec fn sum_project_groups(g: Seq<(Seq<char>, Seq<EntryV>)>) -> int
    decreases g.len(),
{
    if g.len() == 0 {
        0
    } else {
        sum_minutes(g[0].1) + sum_project_groups(g.drop_first())
    }
}

proof fn lemma_entries_not_of_project_push(s: Seq<EntryV>, x: EntryV, p: Seq<char>)
    ensures
        entries_not_of_project(s.push(x), p) == if x.project != p {
            entries_not_of_project(s, p).push(x)
        } else {
            entries_not_of_project(s, p)
        },
{
    reveal(Seq::filter);
    assert(s.push(x).drop_last() =~= s);
    assert(s.push(x).last() == x);
}

/// One name splits a sequence of entries in two, without loss.
proof fn lemma_split_project(s: Seq<EntryV>, p: Seq<char>)
    ensures
        s.to_multiset() == entries_of_project(s, p).to_multiset().add(
            entries_not_of_project(s, p).to_multiset(),
        ),
        sum_minutes(s) == sum_minutes(entries_of_project(s, p)) + sum_minutes(
            entries_not_of_project(s, p),
        ),
    decreases s.len(),
{
    broadcast use vstd::seq_lib::group_to_multiset_ensures;
    broadcast use vstd::multiset::group_multiset_axioms;

    reveal(Seq::filter);
    if s.len() == 0 {
        assert(entries_of_project(s, p) =~= Seq::<EntryV>::empty());
        assert(entries_not_of_project(s, p) =~= Seq::<EntryV>::empty());
        assert(s.to_multiset() =~= entries_of_project(s, p).to_multiset().add(
            entries_not_of_project(s, p).to_multiset(),
        ));
    } else {
        let t = s.drop_last();
        let x = s.last();
        lemma_split_project(t, p);
        assert(s =~= t.push(x));
        lemma_entries_of_project_push(t, x, p);
        lemma_entries_not_of_project_push(t, x, p);
        lemma_sum_minutes_push(t, x);
        if x.project == p {
            lemma_sum_minutes_push(entries_of_project(t, p), x);
            assert(s.to_multiset() =~= entries_of_project(s, p).to_multiset().add(
                entries_not_of_project(s, p).to_multiset(),
            ));
        } else {
            lemma_sum_minutes_push(entries_not_of_project(t, p), x);
            assert(s.to_multiset() =~= entries_of_project(s, p).to_multiset().add(
                entries_not_of_project(s, p).to_multiset(),
            ));
        }
    }
}

/// Filtering by a different name commutes with removing one name's entries.
proof fn lemma_entries_of_project_not_of(s: Seq<EntryV>, p0: Seq<char>, pk: Seq<char>)
    requires
        pk != p0,
    ensures
        entries_of_project(entries_not_of_project(s, p0), pk) == entries_of_project(s, pk),
    decreases s.len(),
{
    if s.len() == 0 {
        assert(entries_not_of_project(s, p0) =~= Seq::<EntryV>::empty()) by {
            reveal(Seq::filter);
        }
    } else {
        let t = s.drop_last();
        let x = s.last();
        lemma_entries_of_project_not_of(t, p0, pk);
        assert(s =~= t.push(x));
        lemma_entries_of_project_push(t, x, pk);
        lemma_entries_not_of_project_push(t, x, p0);
        if x.project != p0 {
            lemma_entries_of_project_push(entries_not_of_project(t, p0), x, pk);
        }
    }
}

/// A name occurs as a key of the project group list.
pub open spec fn name_present(g: Seq<(Seq<char>, Seq<EntryV>)>, x: Seq<char>) -> bool {
    exists|i: int| 0 <= i < g.len() && (#[trigger] g[i]).0 == x
}

/// Some entry carries the name.
pub open spec fn project_present(s: Seq<EntryV>, x: Seq<char>) -> bool {
    exists|k: int| 0 <= k < s.len() && (#[trigger] s[k]).project == x
}

/// The generic partition argument for project groups.
proof fn lemma_project_groups_partition(g: Seq<(Seq<char>, Seq<EntryV>)>, s: Seq<EntryV>)
    requires
        forall|i: int, j: int| 0 <= i < j < g.len() ==> (#[trigger] g[i]).0
            != (#[trigger] g[j]).0,
        forall|i: int| 0 <= i < g.len() ==> (#[trigger] g[i]).1 == entries_of_project(s, g[i].0),
        forall|x: Seq<char>| #![trigger name_present(g, x)] #![trigger project_present(s, x)]
            name_present(g, x) <==> project_present(s, x),
    ensures
        concat_project_groups(g).to_multiset() == s.to_multiset(),
        sum_project_groups(g) == sum_minutes(s),
    decreases g.len(),
{
    broadcast use vstd::seq_lib::group_to_multiset_ensures;
    broadcast use vstd::multiset::group_multiset_axioms;
    broadcast use vstd::seq_lib::group_filter_ensures;

    if g.len() == 0 {
        if s.len() > 0 {
            assert(project_present(s, s[0].project));
            assert(name_present(g, s[0].project));
            assert(false);
        }
        assert(s =~= Seq::<EntryV>::empty());
        assert(concat_project_groups(g).to_multiset() =~= s.to_multiset());
    } else {
        let p0 = g[0].0;
        let rest = g.drop_first();
        let s_ne = entries_not_of_project(s, p0);
        lemma_split_project(s, p0);
        assert forall|i: int, j: int| 0 <= i < j < rest.len() implies (#[trigger] rest[i]).0
            != (#[trigger] rest[j]).0 by {
            assert(rest[i] == g[i + 1]);
            assert(rest[j] == g[j + 1]);
        }
        assert forall|i: int| 0 <= i < rest.len() implies (#[trigger] rest[i]).1
            == entries_of_project(s_ne, rest[i].0) by {
            assert(rest[i] == g[i + 1]);
            assert(g[i + 1].0 != g[0].0);
            lemma_entries_of_project_not_of(s, p0, rest[i].0);
        }
        assert forall|x: Seq<char>|
            #![trigger name_present(rest, x)]
            #![trigger project_present(s_ne, x)]
            name_present(rest, x) <==> project_present(s_ne, x) by {
            if name_present(rest, x) {
                let i = choose|i: int| 0 <= i < rest.len() && (#[trigger] rest[i]).0 == x;
                assert(rest[i] == g[i + 1]);
                assert(name_present(g, x)) by {
                    assert(g[i + 1].0 == x);
                }
                assert(x != p0);
                assert(project_present(s, x));
                let k = choose|k: int| 0 <= k < s.len() && (#[trigger] s[k]).project == x;
                s.lemma_filter_contains(|e: EntryV| e.project != p0, k);
                assert(s_ne.contains(s[k]));
                let m = choose|m: int| 0 <= m < s_ne.len() && s_ne[m] == s[k];
                assert(s_ne[m].project == x);
            }
            if project_present(s_ne, x) {
                let k = choose|k: int| 0 <= k < s_ne.len() && (#[trigger] s_ne[k]).project == x;
                assert(s_ne[k].project != p0);
                assert(s_ne.contains(s_ne[k]));
                s.lemma_filter_contains_rev(|e: EntryV| e.project != p0, s_ne[k]);
                let m = choose|m: int| 0 <= m < s.len() && s[m] == s_ne[k];
                assert(project_present(s, x)) by {
                    assert(s[m].project == x);
                }
                assert(name_present(g, x));
                let i = choose|i: int| 0 <= i < g.len() && (#[trigger] g[i]).0 == x;
                assert(i != 0);
                assert(rest[i - 1] == g[i]);
                assert(name_present(rest, x)) by {
                    assert(rest[i - 1].0 == x);
                }
            }
        }
        lemma_project_groups_partition(rest, s_ne);
        vstd::seq_lib::lemma_multiset_commutative(g[0].1, concat_project_groups(rest));
        assert(concat_project_groups(g).to_multiset() =~= s.to_multiset());
    }
}

/// Law: grouping by project neither loses nor duplicates entries, and the
/// groups' summed durations equal the whole log's total.
pub proof fn lemma_by_project_partitions(s: Seq<EntryV>)
    ensures
        concat_project_groups(by_project_spec(s)).to_multiset() == s.to_multiset(),
        sum_project_groups(by_project_spec(s)) == sum_minutes(s),
{
    lemma_projects_of(s);
    let ps = projects_of(s);
    let g = by_project_spec(s);
    assert(g.len() == ps.len());
    assert forall|i: int| 0 <= i < g.len() implies (#[trigger] g[i]) == (
        ps[i],
        entries_of_project(s, ps[i]),
    ) by {}
    assert forall|i: int, j: int| 0 <= i < j < g.len() implies (#[trigger] g[i]).0
        != (#[trigger] g[j]).0 by {
        assert(chars_lt(ps[i], ps[j]));
        lemma_chars_lt_connected(ps[i], ps[j]);
    }
    assert forall|x: Seq<char>| #![trigger name_present(g, x)] #![trigger project_present(s, x)]
        name_present(g, x) <==> project_present(s, x) by {
        if name_present(g, x) {
            let i = choose|i: int| 0 <= i < g.len() && (#[trigger] g[i]).0 == x;
            assert(ps[i] == x);
            assert(ps.contains(x));
        }
        if project_present(s, x) {
            assert(ps.contains(x));
            let i = choose|i: int| 0 <= i < ps.len() && ps[i] == x;
            assert(name_present(g, x)) by {
                assert(g[i].0 == x);
            }
        }
    }
    lemma_project_groups_partition(g, s);
}

/// Insertion into a lexicographically sorted list of distinct project names.
pub open spec fn insert_proj(ps: Seq<Seq<char>>, p: Seq<char>) -> Seq<Seq<char>>
    decreases ps.len(),
{
    if ps.len() == 0 {
        seq![p]
    } else if ps[0] == p {
        ps
    } else if chars_lt(p, ps[0]) {
        seq![p] + ps
    } else {
        seq![ps[0]] + insert_proj(ps.drop_first(), p)
    }
}

/// Strictly ascending project names.
pub open spec fn sorted_projects(ps: Seq<Seq<char>>) -> bool {
    forall|i: int, j: int| 0 <= i < j < ps.len() ==> chars_lt(#[trigger] ps[i], #[trigger] ps[j])
}

/// The distinct project names of a sequence of entries, in ascending order.
pub open spec fn projects_of(s: Seq<EntryV>) -> Seq<Seq<char>>
    decreases s.len(),
{
    if s.len() == 0 {
        Seq::empty()
    } else {
        insert_proj(projects_of(s.drop_last()), s.last().project)
    }
}

/// The sub-sequence of entries under one project, in their original order.
pub open spec fn entries_of_project(s: Seq<EntryV>, p: Seq<char>) -> Seq<EntryV> {
    s.filter(|e: EntryV| e.project == p)
}

/// Grouping by project: the ascending distinct names, each with exactly the
/// entries under it.
pub open spec fn by_project_spec(s: Seq<EntryV>) -> Seq<(Seq<char>, Seq<EntryV>)> {
    projects_of(s).map_values(|p: Seq<char>| (p, entries_of_project(s, p)))
}

/// The model of a project group list.
pub open spec fn project_groups_view(g: Seq<(String, Log)>) -> Seq<(Seq<char>, Seq<EntryV>)> {
    g.map_values(|p: (String, Log)| (p.0@, p.1@))
}

pub proof fn lemma_insert_proj_membership(ps: Seq<Seq<char>>, p: Seq<char>, x: Seq<char>)
    ensures
        insert_proj(ps, p).contains(x) <==> (ps.contains(x) || x == p),
    decreases ps.len(),
{
    let r = insert_proj(ps, p);
    if ps.len() == 0 {
        assert(r =~= seq![p]);
        if r.contains(x) {
            let i = choose|i: int| 0 <= i < r.len() && r[i] == x;
        }
        if x == p {
            assert(r[0] == x);
        }
    } else if ps[0] == p {
        if x == p {
            assert(ps[0] == x);
        }
    } else if chars_lt(p, ps[0]) {
        assert(r =~= seq![p] + ps);
        if r.contains(x) {
            let i = choose|i: int| 0 <= i < r.len() && r[i] == x;
            if i > 0 {
                assert(ps[i - 1] == x);
            }
        }
        if x == p {
            assert(r[0] == x);
        }
        if ps.contains(x) {
            let i = choose|i: int| 0 <= i < ps.len() && ps[i] == x;
            assert(r[i + 1] == x);
        }
    } else {
        lemma_insert_proj_membership(ps.drop_first(), p, x);
        let sub = insert_proj(ps.drop_first(), p);
        assert(r =~= seq![ps[0]] + sub);
        if r.contains(x) {
            let i = choose|i: int| 0 <= i < r.len() && r[i] == x;
            if i > 0 {
                assert(sub[i - 1] == x);
                assert(sub.contains(x));
                if ps.drop_first().contains(x) {
                    let j = choose|j: int| 0 <= j < ps.drop_first().len() && ps.drop_first()[j]
                        == x;
                    assert(ps[j + 1] == x);
                }
            } else {
                assert(ps[0] == x);
            }
        }
        if x == p {
            assert(sub.contains(x));
            let i = choose|i: int| 0 <= i < sub.len() && sub[i] == x;
            assert(r[i + 1] == x);
        }
        if ps.contains(x) {
            let i = choose|i: int| 0 <= i < ps.len() && ps[i] == x;
            if i == 0 {
                assert(r[0] == x);
            } else {
                assert(ps.drop_first()[i - 1] == x);
                assert(ps.drop_first().contains(x));
                assert(sub.contains(x));
                let j = choose|j: int| 0 <= j < sub.len() && sub[j] == x;
                assert(r[j + 1] == x);
            }
        }
    }
}

pub proof fn lemma_insert_proj_sorted(ps: Seq<Seq<char>>, p: Seq<char>)
    requires
        sorted_projects(ps),
    ensures
        sorted_projects(insert_proj(ps, p)),
        insert_proj(ps, p).len() == if ps.contains(p) {
            ps.len() as int
        } else {
            ps.len() as int + 1
        },
    decreases ps.len(),
{
    let r = insert_proj(ps, p);
    if ps.len() == 0 {
        assert(r =~= seq![p]);
        if ps.contains(p) {
            let i = choose|i: int| 0 <= i < ps.len() && ps[i] == p;
        }
    } else if ps[0] == p {
        assert(ps.contains(p)) by {
            assert(ps[0] == p);
        }
    } else if chars_lt(p, ps[0]) {
        assert(r =~= seq![p] + ps);
        assert forall|i: int, j: int| 0 <= i < j < r.len() implies chars_lt(
            #[trigger] r[i],
            #[trigger] r[j],
        ) by {
            if i == 0 {
                if j > 1 {
                    assert(chars_lt(ps[0], ps[j - 1]));
                    lemma_chars_lt_trans(p, ps[0], ps[j - 1]);
                }
            }
        }
        if ps.contains(p) {
            let i = choose|i: int| 0 <= i < ps.len() && ps[i] == p;
            if i > 0 {
                assert(chars_lt(ps[0], ps[i]));
                lemma_chars_lt_connected(ps[0], p);
            } else {
                lemma_chars_lt_connected(p, ps[0]);
            }
            assert(false);
        }
    } else {
        lemma_chars_lt_connected(p, ps[0]);
        assert(chars_lt(ps[0], p));
        let sub = ps.drop_first();
        assert(sorted_projects(sub)) by {
            assert forall|i: int, j: int| 0 <= i < j < sub.len() implies chars_lt(
                #[trigger] sub[i],
                #[trigger] sub[j],
            ) by {
                assert(sub[i] == ps[i + 1]);
                assert(sub[j] == ps[j + 1]);
            }
        }
        lemma_insert_proj_sorted(sub, p);
        let isub = insert_proj(sub, p);
        assert(r =~= seq![ps[0]] + isub);
        assert forall|i: int, j: int| 0 <= i < j < r.len() implies chars_lt(
            #[trigger] r[i],
            #[trigger] r[j],
        ) by {
            if i == 0 {
                lemma_insert_proj_membership(sub, p, isub[j - 1]);
                if sub.contains(isub[j - 1]) {
                    let k = choose|k: int| 0 <= k < sub.len() && sub[k] == isub[j - 1];
                    assert(chars_lt(ps[0], ps[k + 1]));
                }
            }
        }
        lemma_insert_proj_membership(sub, p, p);
        if ps.contains(p) {
            let i = choose|i: int| 0 <= i < ps.len() && ps[i] == p;
            assert(i > 0);
            assert(sub[i - 1] == p);
            assert(sub.contains(p));
        }
        if sub.contains(p) {
            let i = choose|i: int| 0 <= i < sub.len() && sub[i] == p;
            assert(ps[i + 1] == p);
            assert(ps.contains(p));
        }
    }
}

/// The project list is ascending and holds exactly the names that occur.
pub proof fn lemma_projects_of(s: Seq<EntryV>)
    ensures
        sorted_projects(projects_of(s)),
        forall|x: Seq<char>|
            projects_of(s).contains(x) <==> exists|i: int|
                0 <= i < s.len() && (#[trigger] s[i]).project == x,
    decreases s.len(),
{
    if s.len() == 0 {
        assert forall|x: Seq<char>| !projects_of(s).contains(x) by {
            if projects_of(s).contains(x) {
                let i = choose|i: int| 0 <= i < projects_of(s).len() && projects_of(s)[i] == x;
            }
        }
    } else {
        let sub = s.drop_last();
        let p = s.last().project;
        lemma_projects_of(sub);
        lemma_insert_proj_sorted(projects_of(sub), p);
        assert forall|x: Seq<char>|
            projects_of(s).contains(x) <==> exists|i: int|
                0 <= i < s.len() && (#[trigger] s[i]).project == x by {
            lemma_insert_proj_membership(projects_of(sub), p, x);
            if projects_of(s).contains(x) {
                if projects_of(sub).contains(x) {
                    let i = choose|i: int| 0 <= i < sub.len() && (#[trigger] sub[i]).project == x;
                    assert(s[i].project == x);
                } else {
                    assert(s[s.len() - 1].project == x);
                }
            }
            if exists|i: int| 0 <= i < s.len() && (#[trigger] s[i]).project == x {
                let i = choose|i: int| 0 <= i < s.len() && (#[trigger] s[i]).project == x;
                if i < s.len() - 1 {
                    assert(sub[i].project == x);
                    assert(projects_of(sub).contains(x));
                }
            }
        }
    }
}

/// Filtering by project keeps one more element exactly when it carries that
/// name.
pub proof fn lemma_entries_of_project_push(s: Seq<EntryV>, x: EntryV, p: Seq<char>)
    ensures
        entries_of_project(s.push(x), p) == if x.project == p {
            entries_of_project(s, p).push(x)
        } else {
            entries_of_project(s, p)
        },
{
    reveal(Seq::filter);
    assert(s.push(x).drop_last() =~= s);
    assert(s.push(x).last() == x);
}

/// A name that no entry carries keeps no entries.
pub proof fn lemma_entries_of_project_absent(s: Seq<EntryV>, p: Seq<char>)
    requires
        !projects_of(s).contains(p),
    ensures
        entries_of_project(s, p) == Seq::<EntryV>::empty(),
{
    broadcast use vstd::seq_lib::group_filter_ensures;

    lemma_projects_of(s);
    let f = entries_of_project(s, p);
    if f.len() > 0 {
        assert(f[0].project == p);
        assert(f.contains(f[0]));
        s.lemma_filter_contains_rev(|e: EntryV| e.project == p, f[0]);
        let i = choose|i: int| 0 <= i < s.len() && s[i] == f[0];
        assert(s[i].project == p);
        assert(false);
    }
    assert(f =~= Seq::<EntryV>::empty());
}

/// How insertion relates to the first position whose name is not below the
/// new one: at an equal name nothing changes, otherwise the name goes in
/// exactly there.
pub proof fn lemma_insert_proj_at(ps: Seq<Seq<char>>, p: Seq<char>, idx: int)
    requires
        sorted_projects(ps),
        0 <= idx <= ps.len(),
        forall|k: int| 0 <= k < idx ==> chars_lt(#[trigger] ps[k], p),
    ensures
        idx < ps.len() && ps[idx] == p ==> insert_proj(ps, p) == ps,
        (idx == ps.len() || chars_lt(p, ps[idx])) ==> insert_proj(ps, p) == ps.insert(idx, p),
    decreases ps.len(),
{
    let r = insert_proj(ps, p);
    if ps.len() == 0 {
        assert(r =~= ps.insert(0, p));
    } else if idx == 0 {
        if ps[0] == p {
            // the order is irreflexive, so the second case cannot arise
            lemma_chars_lt_connected(p, ps[0]);
        } else if chars_lt(p, ps[0]) {
            assert(seq![p] + ps =~= ps.insert(0, p));
        }
    } else {
        assert(chars_lt(ps[0], p));
        lemma_chars_lt_connected(ps[0], p);
        assert(ps[0] != p);
        assert(!chars_lt(p, ps[0]));
        let sub = ps.drop_first();
        assert(sorted_projects(sub)) by {
            assert forall|i: int, j: int| 0 <= i < j < sub.len() implies chars_lt(
                #[trigger] sub[i],
                #[trigger] sub[j],
            ) by {
                assert(sub[i] == ps[i + 1]);
                assert(sub[j] == ps[j + 1]);
            }
        }
        assert forall|k: int| 0 <= k < idx - 1 implies chars_lt(#[trigger] sub[k], p) by {
            assert(sub[k] == ps[k + 1]);
        }
        lemma_insert_proj_at(sub, p, idx - 1);
        if idx < ps.len() && ps[idx] == p {
            assert(sub[idx - 1] == p);
            assert(r =~= ps);
            lemma_chars_lt_connected(p, ps[idx]);
        } else if idx == ps.len() || chars_lt(p, ps[idx]) {
            if idx < ps.len() {
                assert(sub[idx - 1] == ps[idx]);
            }
            assert(insert_proj(sub, p) == sub.insert(idx - 1, p));
            assert(r =~= ps.insert(idx, p));
        }
    }
}

/// Filtering by date keeps one more element exactly when it falls on that
/// date.
pub proof fn lemma_entries_on_push(s: Seq<EntryV>, x: EntryV, d: Date)
    ensures
        entries_on(s.push(x), d) == if x.from.date == d {
            entries_on(s, d).push(x)
        } else {
            entries_on(s, d)
        },
{
    reveal(Seq::filter);
    assert(s.push(x).drop_last() =~= s);
    assert(s.push(x).last() == x);
}

impl Log {
    /// Groups the entries by the calendar date of their start, the dates
    /// ascending, each date holding exactly its entries in their original
    /// order.
    pub fn by_date(&self) -> (r: Vec<(Date, Log)>)
        requires
            self.wf(),
        ensures
            groups_view(r@) == by_date_spec(self@),
    {
        let ghost sv = self@;
        let mut groups: Vec<(Date, Log)> = Vec::new();
        proof {
            assert(sv.take(0) =~= Seq::<EntryV>::empty());
            assert(dates_of(sv.take(0)) =~= Seq::<Date>::empty());
            assert(groups_view(groups@) =~= by_date_spec(sv.take(0)));
        }
        let mut i: usize = 0;
        while i < self.0.len()
            invariant
                sv == self@,
                self.wf(),
                i <= self.0@.len(),
                groups_view(groups@) == by_date_spec(sv.take(i as int)),
            decreases self.0@.len() - i,
        {
            let ghost pre = sv.take(i as int);
            let ghost ds = dates_of(pre);
            proof {
                assert(entries_wf(pre)) by {
                    assert forall|k: int| 0 <= k < pre.len() implies (#[trigger] pre[k]).wf() by {
                        assert(pre[k] == sv[k]);
                    }
                }
                lemma_dates_of(pre);
                assert(sv[i as int] == self.0@[i as int]@);
                assert(sv[i as int].wf());
                assert(sv.take(i + 1) =~= pre.push(sv[i as int]));
            }
            let e = &self.0[i];
            let d = e.from.date;
            let mut idx: usize = 0;
            while idx < groups.len() && date_lt(&groups[idx].0, &d)
                invariant
                    idx <= groups@.len(),
                    groups_view(groups@) == by_date_spec(pre),
                    ds == dates_of(pre),
                    forall|k: int| 0 <= k < idx ==> (#[trigger] ds[k]).lt(d),
                decreases groups@.len() - idx,
            {
                proof {
                    assert(groups_view(groups@).len() == groups@.len());
                    assert(by_date_spec(pre).len() == ds.len());
                    assert(groups_view(groups@)[idx as int] == (
                        groups@[idx as int].0,
                        groups@[idx as int].1@,
                    ));
                    assert(by_date_spec(pre)[idx as int] == (
                        ds[idx as int],
                        entries_on(pre, ds[idx as int]),
                    ));
                    assert(groups@[idx as int].0 == ds[idx as int]);
                }
                idx = idx + 1;
            }
            proof {
                assert(groups_view(groups@).len() == groups@.len());
                assert(by_date_spec(pre).len() == ds.len());
                assert(groups@.len() == ds.len());
                if idx < groups.len() {
                    assert(groups_view(groups@)[idx as int] == (
                        groups@[idx as int].0,
                        groups@[idx as int].1@,
                    ));
                    assert(by_date_spec(pre)[idx as int] == (
                        ds[idx as int],
                        entries_on(pre, ds[idx as int]),
                    ));
                    assert(groups@[idx as int].0 == ds[idx as int]);
                }
            }
            let present = idx < groups.len() && date_eq(&groups[idx].0, &d);
            proof {
                lemma_insert_date_at(ds, d, idx as int);
                if !present {
                    if idx < groups.len() {
                        assert(!d.lt(ds[idx as int]) ==> false) by {
                            if ds[idx as int].key() == d.key() {
                                crate::date::lemma_key_injective(ds[idx as int], d);
                            }
                        }
                    }
                    assert(insert_date(ds, d) == ds.insert(idx as int, d));
                    assert(!ds.contains(d)) by {
                        if ds.contains(d) {
                            let j = choose|j: int| 0 <= j < ds.len() && ds[j] == d;
                            if j < idx {
                                assert(ds[j].lt(d));
                            } else if j > idx {
                                assert(ds[idx as int].lt(ds[j]));
                            }
                        }
                    }
                    lemma_entries_on_absent(pre, d);
                } else {
                    assert(insert_date(ds, d) == ds);
                }
            }
            let ghost g0 = groups@;
            if present {
                let pair = groups.remove(idx);
                let dd = pair.0;
                let mut lg = pair.1;
                let ghost oldlog = lg@;
                lg.0.push(e.clone());
                proof {
                    assert(lg@ =~= oldlog.push(sv[i as int]));
                }
                groups.insert(idx, (dd, lg));
                proof {
                    let nv = groups_view(groups@);
                    let want = by_date_spec(sv.take(i + 1));
                    assert(sv.take(i + 1).drop_last() =~= pre);
                    assert(sv.take(i + 1).last() == sv[i as int]);
                    assert(dates_of(sv.take(i + 1)) == insert_date(ds, d));
                    assert(dates_of(sv.take(i + 1)) == ds);
                    let rem = g0.remove(idx as int);
                    g0.remove_ensures(idx as int);
                    rem.insert_ensures(idx as int, groups@[idx as int]);
                    assert(groups@ == rem.insert(idx as int, groups@[idx as int]));
                    assert forall|k: int| 0 <= k < ds.len() implies nv[k] == want[k] by {
                        assert(want[k] == (ds[k], entries_on(sv.take(i + 1), ds[k])));
                        assert(nv[k] == (groups@[k].0, groups@[k].1@));
                        lemma_entries_on_push(pre, sv[i as int], ds[k]);
                        if k < idx {
                            assert(groups@[k] == g0[k]);
                            assert(groups_view(g0)[k] == (g0[k].0, g0[k].1@));
                            assert(by_date_spec(pre)[k] == (ds[k], entries_on(pre, ds[k])));
                            assert(ds[k].lt(d));
                            assert(ds[k] != d) by {
                                if ds[k] == d {
                                    assert(ds[k].key() < d.key());
                                }
                            }
                        } else if k > idx {
                            assert(groups@[k] == rem[k - 1]);
                            assert(rem[k - 1] == g0[k]);
                            assert(groups_view(g0)[k] == (g0[k].0, g0[k].1@));
                            assert(by_date_spec(pre)[k] == (ds[k], entries_on(pre, ds[k])));
                            assert(ds[idx as int].lt(ds[k]));
                            assert(ds[k] != d) by {
                                if ds[k] == d {
                                    assert(d.lt(ds[k]));
                                }
                            }
                        } else {
                            assert(groups@[k] == (dd, lg));
                            assert(pair == g0[idx as int]);
                            assert(groups_view(g0)[k] == (g0[k].0, g0[k].1@));
                            assert(by_date_spec(pre)[k] == (ds[k], entries_on(pre, ds[k])));
                            assert(dd == ds[k]);
                            assert(oldlog == entries_on(pre, ds[k]));
                            assert(dd == d);
                        }
                    }
                    assert(nv =~= want);
                }
            } else {
                let nl = Log(vec![e.clone()]);
                proof {
                    assert(nl@ =~= Seq::<EntryV>::empty().push(sv[i as int]));
                    assert(nl@ =~= entries_on(pre, d).push(sv[i as int]));
                }
                groups.insert(idx, (d, nl));
                proof {
                    let nv = groups_view(groups@);
                    let want = by_date_spec(sv.take(i + 1));
                    let ds2 = ds.insert(idx as int, d);
                    assert(sv.take(i + 1).drop_last() =~= pre);
                    assert(sv.take(i + 1).last() == sv[i as int]);
                    assert(dates_of(sv.take(i + 1)) == insert_date(ds, d));
                    assert(dates_of(sv.take(i + 1)) == ds2);
                    ds.insert_ensures(idx as int, d);
                    g0.insert_ensures(idx as int, groups@[idx as int]);
                    assert(groups@ == g0.insert(idx as int, groups@[idx as int]));
                    assert forall|k: int| 0 <= k < ds2.len() implies nv[k] == want[k] by {
                        assert(want[k] == (ds2[k], entries_on(sv.take(i + 1), ds2[k])));
                        assert(nv[k] == (groups@[k].0, groups@[k].1@));
                        lemma_entries_on_push(pre, sv[i as int], ds2[k]);
                        if k < idx {
                            assert(groups@[k] == g0[k]);
                            assert(groups_view(g0)[k] == (g0[k].0, g0[k].1@));
                            assert(by_date_spec(pre)[k] == (ds[k], entries_on(pre, ds[k])));
                            assert(ds2[k] == ds[k]);
                            assert(ds[k].lt(d));
                            assert(ds[k] != d) by {
                                if ds[k] == d {
                                    assert(ds[k].key() < d.key());
                                }
                            }
                        } else if k > idx {
                            assert(groups@[k] == g0[k - 1]);
                            assert(groups_view(g0)[k - 1] == (g0[k - 1].0, g0[k - 1].1@));
                            assert(by_date_spec(pre)[k - 1] == (ds[k - 1], entries_on(
                                pre,
                                ds[k - 1],
                            )));
                            assert(ds2[k] == ds[k - 1]);
                            assert(d.lt(ds[k - 1])) by {
                                if k - 1 == idx {
                                } else {
                                    assert(ds[idx as int].lt(ds[k - 1]));
                                }
                            }
                            assert(ds[k - 1] != d) by {
                                if ds[k - 1] == d {
                                    assert(d.lt(ds[k - 1]));
                                }
                            }
                        } else {
                            assert(ds2[k] == d);
                            assert(groups@[k].0 == d);
                            assert(groups@[k].1@ == entries_on(pre, d).push(sv[i as int]));
                        }
                    }
                    assert(nv =~= want);
                }
            }
            i = i + 1;
        }
        proof {
            assert(sv.take(sv.len() as int) =~= sv);
        }
        groups
    }

    /// Groups the entries by project name, the names in ascending
    /// lexicographic order, each name holding exactly its entries in their
    /// original order.
    #[verifier::rlimit(60)]
    pub fn by_project(&self) -> (r: Vec<(String, Log)>)
        ensures
            project_groups_view(r@) == by_project_spec(self@),
    {
        let ghost sv = self@;
        let mut groups: Vec<(String, Log)> = Vec::new();
        proof {
            assert(sv.take(0) =~= Seq::<EntryV>::empty());
            assert(projects_of(sv.take(0)) =~= Seq::<Seq<char>>::empty());
            assert(project_groups_view(groups@) =~= by_project_spec(sv.take(0)));
        }
        let mut i: usize = 0;
        while i < self.0.len()
            invariant
                sv == self@,
                i <= self.0@.len(),
                project_groups_view(groups@) == by_project_spec(sv.take(i as int)),
            decreases self.0@.len() - i,
        {
            let ghost pre = sv.take(i as int);
            let ghost ps = projects_of(pre);
            proof {
                lemma_projects_of(pre);
                assert(sv[i as int] == self.0@[i as int]@);
                assert(sv.take(i + 1) =~= pre.push(sv[i as int]));
            }
            let e = &self.0[i];
            let ghost p = sv[i as int].project;
            proof {
                assert(project_groups_view(groups@).len() == groups@.len());
                assert(by_project_spec(pre).len() == ps.len());
            }
            let mut idx: usize = 0;
            while idx < groups.len() && str_lt(groups[idx].0.as_str(), e.project.as_str())
                invariant
                    idx <= groups@.len(),
                    groups@.len() == ps.len(),
                    project_groups_view(groups@) == by_project_spec(pre),
                    ps == projects_of(pre),
                    p == self.0@[i as int]@.project,
                    i < self.0@.len(),
                    *e == self.0@[i as int],
                    forall|k: int| 0 <= k < idx ==> chars_lt(#[trigger] ps[k], p),
                decreases groups@.len() - idx,
            {
                proof {
                    assert(project_groups_view(groups@)[idx as int] == (
                        groups@[idx as int].0@,
                        groups@[idx as int].1@,
                    ));
                    assert(by_project_spec(pre)[idx as int] == (
                        ps[idx as int],
                        entries_of_project(pre, ps[idx as int]),
                    ));
                    assert(groups@[idx as int].0@ == ps[idx as int]);
                    assert(e.project@ == p);
                    assert(chars_lt(ps[idx as int], p));
                }
                idx = idx + 1;
            }
            proof {
                assert(project_groups_view(groups@).len() == groups@.len());
                assert(by_project_spec(pre).len() == ps.len());
                assert(groups@.len() == ps.len());
                if idx < groups.len() {
                    assert(project_groups_view(groups@)[idx as int] == (
                        groups@[idx as int].0@,
                        groups@[idx as int].1@,
                    ));
                    assert(by_project_spec(pre)[idx as int] == (
                        ps[idx as int],
                        entries_of_project(pre, ps[idx as int]),
                    ));
                    assert(groups@[idx as int].0@ == ps[idx as int]);
                }
            }
            let present = idx < groups.len() && crate::entry::str_eq(
                groups[idx].0.as_str(),
                e.project.as_str(),
            );
            proof {
                lemma_insert_proj_at(ps, p, idx as int);
                if !present {
                    if idx < groups.len() {
                        lemma_chars_lt_connected(ps[idx as int], p);
                        assert(chars_lt(p, ps[idx as int]));
                    }
                    assert(insert_proj(ps, p) == ps.insert(idx as int, p));
                    assert(!ps.contains(p)) by {
                        if ps.contains(p) {
                            let j = choose|j: int| 0 <= j < ps.len() && ps[j] == p;
                            if j < idx {
                                lemma_chars_lt_connected(ps[j], p);
                            } else if j > idx {
                                lemma_chars_lt_connected(p, ps[j]);
                            }
                        }
                    }
                    lemma_entries_of_project_absent(pre, p);
                } else {
                    assert(insert_proj(ps, p) == ps);
                }
            }
            let ghost g0 = groups@;
            if present {
                let pair = groups.remove(idx);
                let key = pair.0;
                let mut lg = pair.1;
                let ghost oldlog = lg@;
                lg.0.push(e.clone());
                proof {
                    assert(lg@ =~= oldlog.push(sv[i as int]));
                }
                groups.insert(idx, (key, lg));
                proof {
                    let nv = project_groups_view(groups@);
                    let want = by_project_spec(sv.take(i + 1));
                    assert(sv.take(i + 1).drop_last() =~= pre);
                    assert(sv.take(i + 1).last() == sv[i as int]);
                    assert(projects_of(sv.take(i + 1)) == insert_proj(ps, p));
                    assert(projects_of(sv.take(i + 1)) == ps);
                    let rem = g0.remove(idx as int);
                    g0.remove_ensures(idx as int);
                    rem.insert_ensures(idx as int, groups@[idx as int]);
                    assert(groups@ == rem.insert(idx as int, groups@[idx as int]));
                    assert forall|k: int| 0 <= k < ps.len() implies nv[k] == want[k] by {
                        assert(want[k] == (ps[k], entries_of_project(sv.take(i + 1), ps[k])));
                        assert(nv[k] == (groups@[k].0@, groups@[k].1@));
                        lemma_entries_of_project_push(pre, sv[i as int], ps[k]);
                        if k < idx {
                            assert(groups@[k] == g0[k]);
                            assert(project_groups_view(g0)[k] == (g0[k].0@, g0[k].1@));
                            assert(by_project_spec(pre)[k] == (ps[k], entries_of_project(
                                pre,
                                ps[k],
                            )));
                            lemma_chars_lt_connected(ps[k], p);
                        } else if k > idx {
                            assert(groups@[k] == rem[k - 1]);
                            assert(rem[k - 1] == g0[k]);
                            assert(project_groups_view(g0)[k] == (g0[k].0@, g0[k].1@));
                            assert(by_project_spec(pre)[k] == (ps[k], entries_of_project(
                                pre,
                                ps[k],
                            )));
                            assert(chars_lt(ps[idx as int], ps[k]));
                            lemma_chars_lt_connected(ps[idx as int], ps[k]);
                        } else {
                            assert(groups@[k] == (key, lg));
                            assert(pair == g0[idx as int]);
                            assert(project_groups_view(g0)[k] == (g0[k].0@, g0[k].1@));
                            assert(by_project_spec(pre)[k] == (ps[k], entries_of_project(
                                pre,
                                ps[k],
                            )));
                            assert(key@ == ps[k]);
                            assert(oldlog == entries_of_project(pre, ps[k]));
                            assert(key@ == p);
                        }
                    }
                    assert(nv =~= want);
                }
            } else {
                let nl = Log(vec![e.clone()]);
                proof {
                    assert(nl@ =~= Seq::<EntryV>::empty().push(sv[i as int]));
                    assert(nl@ =~= entries_of_project(pre, p).push(sv[i as int]));
                }
                groups.insert(idx, (e.project.clone(), nl));
                proof {
                    let nv = project_groups_view(groups@);
                    let want = by_project_spec(sv.take(i + 1));
                    let ps2 = ps.insert(idx as int, p);
                    assert(sv.take(i + 1).drop_last() =~= pre);
                    assert(sv.take(i + 1).last() == sv[i as int]);
                    assert(projects_of(sv.take(i + 1)) == insert_proj(ps, p));
                    assert(projects_of(sv.take(i + 1)) == ps2);
                    ps.insert_ensures(idx as int, p);
                    g0.insert_ensures(idx as int, groups@[idx as int]);
                    assert(groups@ == g0.insert(idx as int, groups@[idx as int]));
                    assert forall|k: int| 0 <= k < ps2.len() implies nv[k] == want[k] by {
                        assert(want[k] == (ps2[k], entries_of_project(sv.take(i + 1), ps2[k])));
                        assert(nv[k] == (groups@[k].0@, groups@[k].1@));
                        lemma_entries_of_project_push(pre, sv[i as int], ps2[k]);
                        if k < idx {
                            assert(groups@[k] == g0[k]);
                            assert(project_groups_view(g0)[k] == (g0[k].0@, g0[k].1@));
                            assert(by_project_spec(pre)[k] == (ps[k], entries_of_project(
                                pre,
                                ps[k],
                            )));
                            assert(ps2[k] == ps[k]);
                            lemma_chars_lt_connected(ps[k], p);
                        } else if k > idx {
                            assert(groups@[k] == g0[k - 1]);
                            assert(project_groups_view(g0)[k - 1] == (g0[k - 1].0@, g0[k - 1].1@));
                            assert(by_project_spec(pre)[k - 1] == (ps[k - 1], entries_of_project(
                                pre,
                                ps[k - 1],
                            )));
                            assert(ps2[k] == ps[k - 1]);
                            assert(chars_lt(p, ps[k - 1])) by {
                                if k - 1 > idx {
                                    assert(chars_lt(ps[idx as int], ps[k - 1]));
                                    lemma_chars_lt_trans(p, ps[idx as int], ps[k - 1]);
                                }
                            }
                            lemma_chars_lt_connected(p, ps[k - 1]);
                        } else {
                            assert(ps2[k] == p);
                            assert(groups@[k].0@ == p);
                            assert(groups@[k].1@ == entries_of_project(pre, p).push(
                                sv[i as int],
                            ));
                        }
                    }
                    assert(nv =~= want);
                }
            }
            i = i + 1;
        }
        proof {
            assert(sv.take(sv.len() as int) =~= sv);
        }
        groups
    }

    /// Sums the entries' durations, saturating at what 64 bits can count;
    /// an empty log sums to zero.
    pub fn sum_duration(self) -> (r: u64)
        requires
            self.wf(),
        ensures
            r as int == clamped_minutes(self@),
    {
        let ghost sv = self@;
        proof {
            assert(sv.take(0) =~= Seq::<EntryV>::empty());
        }
        let mut r: u64 = 0;
        let mut i: usize = 0;
        while i < self.0.len()
            invariant
                sv == self@,
                self.wf(),
                i <= self.0@.len(),
                r as int == clamped_minutes(sv.take(i as int)),
            decreases self.0@.len() - i,
        {
            proof {
                assert(sv.take(i + 1).drop_last() =~= sv.take(i as int));
                assert(sv.take(i + 1).last() == sv[i as int]);
                assert(sv[i as int] == self.0@[i as int]@);
                assert(sv[i as int].wf());
                lemma_sum_minutes_nonneg(sv.take(i as int));
            }
            let d = self.0[i].duration();
            r = r.saturating_add(d);
            i = i + 1;
        }
        proof {
            assert(sv.take(sv.len() as int) =~= sv);
        }
        r
    }

    /// Parses a whole markdown document into a sorted log.  Headings set the
    /// date in scope, lists under a date contribute entries, and everything
    /// that matches nothing degrades to an empty result, never an error.
    pub fn parse(input: &str) -> (log: Log)
        ensures
            log.wf(),
            log.sorted(),
            log@.to_multiset() == blocks_entries(md_blocks_of(input@), None).to_multiset(),
    {
        let blocks = md_blocks(input);
        let ghost bv = blocks_view(blocks@);
        let mut entries: Vec<Entry> = Vec::new();
        let mut date: Option<Date> = None;
        proof {
            assert(bv.skip(0) =~= bv);
            assert(entry_views(entries@) =~= Seq::<EntryV>::empty());
            assert(Seq::<EntryV>::empty() + blocks_entries(bv, None) =~= blocks_entries(bv, None));
        }
        let mut bi: usize = 0;
        while bi < blocks.len()
            invariant
                bi <= blocks@.len(),
                bv == blocks_view(blocks@),
                date matches Some(d) ==> d.valid(),
                entries_wf(entry_views(entries@)),
                entry_views(entries@) + blocks_entries(bv.skip(bi as int), date) == blocks_entries(
                    bv,
                    None,
                ),
            decreases blocks@.len() - bi,
        {
            proof {
                assert(bv.skip(bi as int).drop_first() =~= bv.skip(bi + 1));
                assert(bv.skip(bi as int)[0] == blocks@[bi as int]@);
            }
            match &blocks[bi] {
                Block::Heading(t) => {
                    date = parse_heading(t.as_str());
                },
                Block::List(items) => {
                    if let Some(d) = date {
                        let ghost itemsv = (match blocks@[bi as int]@ {
                            BlockV::List(iv) => iv,
                            _ => Seq::empty(),
                        });
                        proof {
                            assert(itemsv.skip(0) =~= itemsv);
                        }
                        let mut k: usize = 0;
                        while k < items.len()
                            invariant
                                k <= items@.len(),
                                d.valid(),
                                itemsv == items@.map_values(
                                    |o: Option<String>|
                                        match o {
                                            Some(t) => Some(t@),
                                            None => None,
                                        },
                                ),
                                entries_wf(entry_views(entries@)),
                                entry_views(entries@) + (items_entries(itemsv.skip(k as int), d)
                                    + blocks_entries(bv.skip(bi as int + 1), Some(d)))
                                    == blocks_entries(bv, None),
                            decreases items@.len() - k,
                        {
                            proof {
                                assert(itemsv.skip(k as int).drop_first() =~= itemsv.skip(k + 1));
                                assert(itemsv.skip(k as int)[0] == itemsv[k as int]);
                            }
                            match &items[k] {
                                None => {},
                                Some(t) => {
                                    match Entry::parse(t.as_str(), &d) {
                                        None => {},
                                        Some(e) => {
                                            let ghost ev = entry_views(entries@);
                                            let ghost rest = items_entries(
                                                itemsv.skip(k + 1),
                                                d,
                                            ) + blocks_entries(bv.skip(bi as int + 1), Some(d));
                                            entries.push(e);
                                            proof {
                                                assert(entry_views(entries@) =~= ev.push(e@));
                                                assert(ev.push(e@) + rest =~= ev + ((seq![e@]
                                                    + items_entries(itemsv.skip(k + 1), d))
                                                    + blocks_entries(
                                                    bv.skip(bi as int + 1),
                                                    Some(d),
                                                )));
                                            }
                                        },
                                    }
                                },
                            }
                            k = k + 1;
                        }
                        proof {
                            assert(itemsv.skip(items@.len() as int) =~= Seq::empty());
                            assert(items_entries(Seq::empty(), d) + blocks_entries(
                                bv.skip(bi as int + 1),
                                Some(d),
                            ) =~= blocks_entries(bv.skip(bi as int + 1), Some(d)));
                        }
                    } else {
                        proof {
                            assert(Seq::<EntryV>::empty() + blocks_entries(
                                bv.skip(bi as int + 1),
                                date,
                            ) =~= blocks_entries(bv.skip(bi as int + 1), date));
                        }
                    }
                },
                Block::Other => {},
            }
            bi = bi + 1;
        }
        proof {
            assert(bv.skip(blocks@.len() as int) =~= Seq::empty());
            assert(entry_views(entries@) + Seq::<EntryV>::empty() =~= entry_views(entries@));
        }
        sort_entries(&mut entries);
        Log(entries)
    }
}

} // verus!
