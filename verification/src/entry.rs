//! One tracked time span: a line of the timelog recognized by the entry
//! grammar, carrying a start, an end, a project name and optional notes.
//!
//! Equality and ordering are defined on `(from, until, project)` only; the
//! notes never take part in comparisons.

use vstd::prelude::*;
use crate::date::Date;
use crate::text::{push_two_digits, two_digits};
use crate::text::{dec_digit, digit_end, digit_val, digits_val, is_digit, is_space, is_word,
    quote_pos, rskip_ws, skip_ws, trimmed, word_end};
use crate::text::{char_is_word, digit_run_end, digits_value, find_quote, lemma_digit_end,
    lemma_digits_val_bound, rskip_spaces, skip_spaces, word_run_end};

verus! {

/// A time of day with minute precision.
#[derive(Clone, Copy, PartialEq, Eq, Structural, Hash, Debug)]
pub struct Time {
    pub hour: u8,
    pub minute: u8,
}

impl Time {
    pub open spec fn valid(self) -> bool {
        self.hour < 24 && self.minute < 60
    }

    /// Minutes since midnight; order-preserving.
    pub open spec fn key(self) -> int {
        self.hour as int * 60 + self.minute as int
    }
}

/// A calendar date with a time of day.
#[derive(Clone, Copy, PartialEq, Eq, Structural, Hash, Debug)]
pub struct DateTime {
    pub date: Date,
    pub time: Time,
}

impl DateTime {
    pub open spec fn valid(self) -> bool {
        self.date.valid() && self.time.valid()
    }

    /// Order-preserving key: the date is primary, the time of day breaks ties.
    pub open spec fn key(self) -> int {
        self.date.key() * 1440 + self.time.key()
    }

}

/// Comparison through the order key; the fields are small enough that the
/// key always fits in 64 bits.
pub fn datetime_key(dt: &DateTime) -> (r: u64)
    ensures
        r as int == dt.key(),
{
    (dt.date.year as u64 * 372 + dt.date.month as u64 * 31 + dt.date.day as u64) * 1440
        + dt.time.hour as u64 * 60 + dt.time.minute as u64
}


/// The mathematical model of an entry.
#[verifier::ext_equal]
pub ghost struct EntryV {
    pub from: DateTime,
    pub until: DateTime,
    pub project: Seq<char>,
    pub notes: Option<Seq<char>>,
}

impl EntryV {
    /// The invariant every produced entry satisfies: both endpoints are on
    /// the same valid calendar day and the span is strictly positive.
    pub open spec fn wf(self) -> bool {
        &&& self.from.valid()
        &&& self.until.valid()
        &&& self.from.date == self.until.date
        &&& self.from.key() < self.until.key()
    }

    /// Minutes from start to end.
    pub open spec fn dur(self) -> int {
        self.until.key() - self.from.key()
    }
}

/// One tracked time span.
#[derive(Debug)]
pub struct Entry {
    pub from: DateTime,
    pub until: DateTime,
    pub project: String,
    pub notes: Option<String>,
}

impl View for Entry {
    type V = EntryV;

    open spec fn view(&self) -> EntryV {
        EntryV {
            from: self.from,
            until: self.until,
            project: self.project@,
            notes: match self.notes {
                Some(n) => Some(n@),
                None => None,
            },
        }
    }
}

impl Entry {
    pub open spec fn wf(self) -> bool {
        self@.wf()
    }
}

/// Strict lexicographic order on character sequences, by scalar value.
pub open spec fn chars_lt(a: Seq<char>, b: Seq<char>) -> bool
    decreases a.len(),
{
    if b.len() == 0 {
        false
    } else if a.len() == 0 {
        true
    } else if a[0] != b[0] {
        (a[0] as u32) < (b[0] as u32)
    } else {
        chars_lt(a.drop_first(), b.drop_first())
    }
}

/// Distinct characters have distinct scalar values.
proof fn char_code_distinct(c1: char, c2: char)
    requires
        c1 != c2,
    ensures
        c1 as u32 != c2 as u32,
{
}

/// Two sequences are equal, or exactly one is lexicographically smaller.
pub proof fn lemma_chars_lt_connected(a: Seq<char>, b: Seq<char>)
    ensures
        a == b || chars_lt(a, b) || chars_lt(b, a),
        chars_lt(a, b) ==> a != b && !chars_lt(b, a),
    decreases a.len(),
{
    if a.len() == 0 && b.len() == 0 {
        assert(a =~= b);
    } else if a.len() != 0 && b.len() != 0 {
        if a[0] == b[0] {
            lemma_chars_lt_connected(a.drop_first(), b.drop_first());
            if a.drop_first() == b.drop_first() {
                assert forall|i: int| 0 <= i < a.len() implies a[i] == b[i] by {
                    if i > 0 {
                        assert(a.drop_first()[i - 1] == b.drop_first()[i - 1]);
                    }
                }
                assert(a =~= b);
            }
            if a == b {
                assert(a.drop_first() =~= b.drop_first());
            }
        } else {
            char_code_distinct(a[0], b[0]);
            if a == b {
                assert(a[0] == b[0]);
            }
        }
    } else if a.len() == 0 {
        assert(a != b);
    }
}

/// Lexicographic order is transitive.
pub proof fn lemma_chars_lt_trans(a: Seq<char>, b: Seq<char>, c: Seq<char>)
    requires
        chars_lt(a, b),
        chars_lt(b, c),
    ensures
        chars_lt(a, c),
    decreases a.len(),
{
    if a.len() != 0 && b.len() != 0 && c.len() != 0 {
        if a[0] == b[0] && b[0] == c[0] {
            lemma_chars_lt_trans(a.drop_first(), b.drop_first(), c.drop_first());
        }
    }
}

/// The entry order: start time, then end time, then project name.
pub open spec fn entry_le(a: EntryV, b: EntryV) -> bool {
    if a.from.key() != b.from.key() {
        a.from.key() < b.from.key()
    } else if a.until.key() != b.until.key() {
        a.until.key() < b.until.key()
    } else if a.project != b.project {
        chars_lt(a.project, b.project)
    } else {
        true
    }
}

/// Entries that compare equal in both directions: same times and project.
pub open spec fn entry_equiv(a: EntryV, b: EntryV) -> bool {
    a.from.key() == b.from.key() && a.until.key() == b.until.key() && a.project == b.project
}

/// The entry order is total: any two entries compare one way or the other.
pub proof fn lemma_entry_le_total(a: EntryV, b: EntryV)
    ensures
        entry_le(a, b) || entry_le(b, a),
        (entry_le(a, b) && entry_le(b, a)) == entry_equiv(a, b),
{
    lemma_chars_lt_connected(a.project, b.project);
}

/// The entry order is transitive.
pub proof fn lemma_entry_le_trans(a: EntryV, b: EntryV, c: EntryV)
    requires
        entry_le(a, b),
        entry_le(b, c),
    ensures
        entry_le(a, c),
{
    lemma_chars_lt_connected(a.project, b.project);
    lemma_chars_lt_connected(b.project, c.project);
    lemma_chars_lt_connected(a.project, c.project);
    if a.project != b.project && b.project != c.project && chars_lt(a.project, b.project)
        && chars_lt(b.project, c.project) {
        lemma_chars_lt_trans(a.project, b.project, c.project);
    }
}

/// Lexicographic comparison of two strings, character by character.
pub fn str_lt(a: &str, b: &str) -> (r: bool)
    ensures
        r == chars_lt(a@, b@),
{
    let an = a.unicode_len();
    let bn = b.unicode_len();
    assert(a@.skip(0) =~= a@);
    assert(b@.skip(0) =~= b@);
    let mut i: usize = 0;
    while i < an && i < bn
        invariant
            an == a@.len(),
            bn == b@.len(),
            i <= an,
            i <= bn,
            chars_lt(a@, b@) == chars_lt(a@.skip(i as int), b@.skip(i as int)),
        decreases an - i,
    {
        let ca = a.get_char(i);
        let cb = b.get_char(i);
        if ca != cb {
            return (ca as u32) < (cb as u32);
        }
        proof {
            assert(a@.skip(i as int).drop_first() =~= a@.skip(i + 1));
            assert(b@.skip(i as int).drop_first() =~= b@.skip(i + 1));
        }
        i = i + 1;
    }
    i < bn
}

/// The executable entry order; agrees with `entry_le` on the views.
pub fn entry_le_exec(a: &Entry, b: &Entry) -> (r: bool)
    ensures
        r == entry_le(a@, b@),
{
    let af = datetime_key(&a.from);
    let bf = datetime_key(&b.from);
    if af != bf {
        return af < bf;
    }
    let au = datetime_key(&a.until);
    let bu = datetime_key(&b.until);
    if au != bu {
        return au < bu;
    }
    if !str_eq(a.project.as_str(), b.project.as_str()) {
        str_lt(a.project.as_str(), b.project.as_str())
    } else {
        true
    }
}

/// Character-for-character string equality.
pub fn str_eq(a: &str, b: &str) -> (r: bool)
    ensures
        r == (a@ == b@),
{
    let an = a.unicode_len();
    let bn = b.unicode_len();
    if an != bn {
        proof {
            assert(a@ != b@);
        }
        return false;
    }
    let mut i: usize = 0;
    while i < an
        invariant
            an == a@.len(),
            an == b@.len(),
            i <= an,
            forall|k: int| 0 <= k < i ==> a@[k] == b@[k],
        decreases an - i,
    {
        if a.get_char(i) != b.get_char(i) {
            return false;
        }
        i = i + 1;
    }
    proof {
        assert(a@ =~= b@);
    }
    true
}

impl PartialEq for Entry {
    /// Equality ignores the notes, as the entry order does.
    fn eq(&self, other: &Entry) -> (r: bool) {
        self.from == other.from && self.until == other.until && str_eq(
            self.project.as_str(),
            other.project.as_str(),
        )
    }
}

impl vstd::std_specs::cmp::PartialEqSpecImpl for Entry {
    open spec fn obeys_eq_spec() -> bool {
        true
    }

    open spec fn eq_spec(&self, other: &Entry) -> bool {
        self.from == other.from && self.until == other.until && self.project@ == other.project@
    }
}

impl Eq for Entry {

}

impl PartialOrd for Entry {
    fn partial_cmp(&self, other: &Entry) -> (r: Option<core::cmp::Ordering>) {
        proof {
            lemma_entry_le_total(self@, other@);
        }
        if entry_le_exec(self, other) {
            if entry_le_exec(other, self) {
                Some(core::cmp::Ordering::Equal)
            } else {
                Some(core::cmp::Ordering::Less)
            }
        } else {
            Some(core::cmp::Ordering::Greater)
        }
    }
}

impl vstd::std_specs::cmp::PartialOrdSpecImpl for Entry {
    open spec fn obeys_partial_cmp_spec() -> bool {
        true
    }

    open spec fn partial_cmp_spec(&self, other: &Entry) -> Option<core::cmp::Ordering> {
        if entry_le(self@, other@) {
            if entry_le(other@, self@) {
                Some(core::cmp::Ordering::Equal)
            } else {
                Some(core::cmp::Ordering::Less)
            }
        } else {
            Some(core::cmp::Ordering::Greater)
        }
    }
}

impl Clone for Entry {
    fn clone(&self) -> (r: Entry)
        ensures
            r == *self,
    {
        Entry {
            from: self.from,
            until: self.until,
            project: self.project.clone(),
            notes: match &self.notes {
                Some(n) => Some(n.clone()),
                None => None,
            },
        }
    }
}

impl Entry {
    /// Length of the span in minutes.
    pub fn duration(&self) -> (r: u64)
        requires
            self.wf(),
        ensures
            r as int == self@.dur(),
            r < 1440,
    {
        let f = datetime_key(&self.from);
        let u = datetime_key(&self.until);
        u - f
    }
}

/// The human-readable form of an entry:
/// `YYYY-MM-DD | HH:MM - HH:MM: project[ - notes]`.
pub open spec fn entry_text_spec(e: EntryV) -> Seq<char> {
    e.from.date.text_spec() + " | "@ + two_digits(e.from.time.hour as int) + ":"@ + two_digits(
        e.from.time.minute as int,
    ) + " - "@ + two_digits(e.until.time.hour as int) + ":"@ + two_digits(
        e.until.time.minute as int,
    ) + ": "@ + e.project + (match e.notes {
        Some(n) => " - "@ + n,
        None => Seq::empty(),
    })
}

/// The time-and-project part of the display text, after the date prefix:
/// `HH:MM - HH:MM: project`, with the project bare.
pub open spec fn bare_text_spec(e: EntryV) -> Seq<char> {
    two_digits(e.from.time.hour as int) + ":"@ + two_digits(e.from.time.minute as int) + " - "@
        + two_digits(e.until.time.hour as int) + ":"@ + two_digits(e.until.time.minute as int)
        + ": "@ + e.project
}

/// The canonical serialized form: times with explicit minutes, the project
/// always quoted, no notes: `HH:MM - HH:MM: "project"`.
pub open spec fn canonical_text_spec(e: EntryV) -> Seq<char> {
    two_digits(e.from.time.hour as int) + ":"@ + two_digits(e.from.time.minute as int) + " - "@
        + two_digits(e.until.time.hour as int) + ":"@ + two_digits(e.until.time.minute as int)
        + ": \""@ + e.project + "\""@
}

impl Entry {
    /// Renders the entry for display.
    pub fn to_text(&self) -> (r: String)
        requires
            self.wf(),
        ensures
            r@ == entry_text_spec(self@),
    {
        proof {
            reveal_strlit(" | ");
            reveal_strlit(":");
            reveal_strlit(" - ");
            reveal_strlit(": ");
        }
        let mut s = self.from.date.text();
        s.append(" | ");
        push_two_digits(&mut s, self.from.time.hour);
        s.append(":");
        push_two_digits(&mut s, self.from.time.minute);
        s.append(" - ");
        push_two_digits(&mut s, self.until.time.hour);
        s.append(":");
        push_two_digits(&mut s, self.until.time.minute);
        s.append(": ");
        s.append(self.project.as_str());
        match &self.notes {
            Some(n) => {
                s.append(" - ");
                s.append(n.as_str());
            },
            None => {},
        }
        assert(s@ =~= entry_text_spec(self@));
        s
    }

    /// Renders the canonical serialized form, from which the times and the
    /// project can always be recovered by parsing.
    pub fn canonical_text(&self) -> (r: String)
        requires
            self.wf(),
        ensures
            r@ == canonical_text_spec(self@),
    {
        proof {
            reveal_strlit(":");
            reveal_strlit(" - ");
            reveal_strlit(": \"");
            reveal_strlit("\"");
        }
        let mut s = String::new();
        push_two_digits(&mut s, self.from.time.hour);
        s.append(":");
        push_two_digits(&mut s, self.from.time.minute);
        s.append(" - ");
        push_two_digits(&mut s, self.until.time.hour);
        s.append(":");
        push_two_digits(&mut s, self.until.time.minute);
        s.append(": \"");
        s.append(self.project.as_str());
        s.append("\"");
        assert(s@ =~= canonical_text_spec(self@));
        s
    }
}

/// A scanned time token: where it ends, its hour and minute values, and
/// whether the minutes were taken across a colon.
pub ghost struct TimeTok {
    pub end: int,
    pub hour: int,
    pub minute: int,
    pub colon: bool,
}

/// Recognizes a time token at `i`.  A token is a run of one to four digits,
/// or of one or two digits followed by a colon and exactly two digits.  One
/// or two digits are an hour alone; three or four digits split into hour and
/// two minute digits; across a colon the digits before are the hour and the
/// two after are the minutes.
pub open spec fn scan_time(s: Seq<char>, i: int) -> Option<TimeTok> {
    let e = digit_end(s, i);
    let n = e - i;
    if n == 0 || n > 4 {
        None
    } else if n <= 2 && e < s.len() && s[e] == ':' && digit_end(s, e + 1) == e + 3 {
        Some(
            TimeTok {
                end: e + 3,
                hour: digits_val(s, i, e),
                minute: digits_val(s, e + 1, e + 3),
                colon: true,
            },
        )
    } else if n <= 2 {
        Some(TimeTok { end: e, hour: digits_val(s, i, e), minute: 0, colon: false })
    } else if n == 3 {
        Some(TimeTok { end: e, hour: digits_val(s, i, i + 1), minute: digits_val(s, i + 1, e), colon: false })
    } else {
        Some(TimeTok { end: e, hour: digits_val(s, i, i + 2), minute: digits_val(s, i + 2, e), colon: false })
    }
}

/// The separator between the two times: a dash optionally padded with
/// whitespace, or bare whitespace.
pub open spec fn scan_sep_times(s: Seq<char>, i: int) -> Option<int> {
    let j = skip_ws(s, i);
    if j < s.len() && s[j] == '-' {
        Some(skip_ws(s, j + 1))
    } else if j > i {
        Some(j)
    } else {
        None
    }
}

/// The separator before the project: a colon optionally padded with
/// whitespace, or bare whitespace.
pub open spec fn scan_sep_project(s: Seq<char>, i: int) -> Option<int> {
    let j = skip_ws(s, i);
    if j < s.len() && s[j] == ':' {
        Some(skip_ws(s, j + 1))
    } else if j > i {
        Some(j)
    } else {
        None
    }
}

/// The project name at `k`: a bare word of at least three characters, or
/// any non-empty quoted text that stays on one line.  The quoted form is
/// the only way to express a short or multi-word name.
pub open spec fn scan_project(s: Seq<char>, k: int) -> Option<(int, Seq<char>)> {
    if k < s.len() && is_word(s[k]) {
        let w = word_end(s, k);
        if w - k >= 3 {
            Some((w, s.subrange(k, w)))
        } else {
            None
        }
    } else if k < s.len() && s[k] == '"' && k + 2 <= s.len() {
        let q = quote_pos(s, k + 2);
        if q < s.len() && !s.subrange(k + 1, q).contains('\n') {
            Some((q + 1, s.subrange(k + 1, q)))
        } else {
            None
        }
    } else {
        None
    }
}

/// What follows the project: nothing but whitespace, or one line of notes,
/// kept with its surrounding whitespace stripped.  Text that runs onto a
/// further line is not an entry at all.
pub open spec fn scan_notes(s: Seq<char>, a: int) -> Option<Option<Seq<char>>> {
    let t = trimmed(s, a);
    if t.len() == 0 {
        Some(None)
    } else if t.contains('\n') {
        None
    } else {
        Some(Some(t))
    }
}

/// Separator, project and notes after the end time.
pub open spec fn scan_tail(s: Seq<char>, i: int) -> Option<(Seq<char>, Option<Seq<char>>)> {
    match scan_sep_project(s, i) {
        None => None,
        Some(k) => match scan_project(s, k) {
            None => None,
            Some((a, proj)) => match scan_notes(s, a) {
                None => None,
                Some(notes) => Some((proj, notes)),
            },
        },
    }
}

/// Semantic validation: both times must exist on the clock and the span
/// must be strictly positive.  A rejected span yields nothing, exactly as
/// a line that never matched the grammar.
pub open spec fn mk_entry(
    date: Date,
    fh: int,
    fm: int,
    uh: int,
    um: int,
    proj: Seq<char>,
    notes: Option<Seq<char>>,
) -> Option<EntryV> {
    if 0 <= fh < 24 && 0 <= fm < 60 && 0 <= uh < 24 && 0 <= um < 60 && fh * 60 + fm < uh * 60
        + um {
        Some(
            EntryV {
                from: DateTime { date, time: Time { hour: fh as u8, minute: fm as u8 } },
                until: DateTime { date, time: Time { hour: uh as u8, minute: um as u8 } },
                project: proj,
                notes,
            },
        )
    } else {
        None
    }
}

/// The entry grammar: leading whitespace, a start time, a dash or space, an
/// end time, a colon or space, the project, and optional notes.  When the
/// end time took minutes across a colon but nothing valid follows, the
/// grammar backtracks once: the colon becomes the separator and the minute
/// digits may start the project, after a bare-hour end time.
pub open spec fn entry_spec(s: Seq<char>, date: Date) -> Option<EntryV> {
    match scan_time(s, skip_ws(s, 0)) {
        None => None,
        Some(ft) => match scan_sep_times(s, ft.end) {
            None => None,
            Some(i2) => match scan_time(s, i2) {
                None => None,
                Some(ut) => match scan_tail(s, ut.end) {
                    Some((proj, notes)) => mk_entry(
                        date,
                        ft.hour,
                        ft.minute,
                        ut.hour,
                        ut.minute,
                        proj,
                        notes,
                    ),
                    None => if ut.colon {
                        match scan_tail(s, ut.end - 3) {
                            None => None,
                            Some((proj, notes)) => mk_entry(
                                date,
                                ft.hour,
                                ft.minute,
                                ut.hour,
                                0,
                                proj,
                                notes,
                            ),
                        }
                    } else {
                        None
                    },
                },
            },
        },
    }
}

/// Whatever the grammar produces is a well-formed entry on the given date.
pub proof fn lemma_entry_spec_wf(s: Seq<char>, date: Date)
    requires
        date.valid(),
    ensures
        entry_spec(s, date) matches Some(e) ==> e.wf() && e.from.date == date,
{
}

/// Digit characters behave as the grammar expects: they are digits and
/// word characters, carry their value, and are none of the punctuation the
/// grammar looks for.
proof fn lemma_dec_digit_class(v: int)
    requires
        0 <= v < 10,
    ensures
        is_digit(dec_digit(v)),
        is_word(dec_digit(v)),
        !is_space(dec_digit(v)),
        digit_val(dec_digit(v)) == v,
        dec_digit(v) != ':',
        dec_digit(v) != '-',
        dec_digit(v) != '"',
        dec_digit(v) != '\n',
{
}

/// Law: re-parsing the canonical serialized form under the entry's own date
/// recovers the entry exactly, but for the notes, which the form does not
/// carry.  The project must be one the grammar can produce: non-empty, on
/// one line, with a double quote at most as its first character.
pub proof fn lemma_canonical_reparse(e: EntryV)
    requires
        e.wf(),
        e.project.len() > 0,
        !e.project.contains('\n'),
        forall|i: int| 1 <= i < e.project.len() ==> e.project[i] != '"',
    ensures
        entry_spec(canonical_text_spec(e), e.from.date) == Some(
            EntryV { from: e.from, until: e.until, project: e.project, notes: None },
        ),
{
    reveal_strlit(":");
    reveal_strlit(" - ");
    reveal_strlit(": \"");
    reveal_strlit("\"");
    let c = canonical_text_spec(e);
    let p = e.project;
    let n = p.len() as int;
    let fh = e.from.time.hour as int;
    let fm = e.from.time.minute as int;
    let uh = e.until.time.hour as int;
    let um = e.until.time.minute as int;
    assert(c.len() == 17 + n);
    assert(c[0] == dec_digit(fh / 10));
    assert(c[1] == dec_digit(fh % 10));
    assert(c[2] == ':');
    assert(c[3] == dec_digit(fm / 10));
    assert(c[4] == dec_digit(fm % 10));
    assert(c[5] == ' ');
    assert(c[6] == '-');
    assert(c[7] == ' ');
    assert(c[8] == dec_digit(uh / 10));
    assert(c[9] == dec_digit(uh % 10));
    assert(c[10] == ':');
    assert(c[11] == dec_digit(um / 10));
    assert(c[12] == dec_digit(um % 10));
    assert(c[13] == ':');
    assert(c[14] == ' ');
    assert(c[15] == '"');
    assert(forall|i: int| 0 <= i < n ==> c[16 + i] == p[i]);
    assert(c[16 + n] == '"');
    lemma_dec_digit_class(fh / 10);
    lemma_dec_digit_class(fh % 10);
    lemma_dec_digit_class(fm / 10);
    lemma_dec_digit_class(fm % 10);
    lemma_dec_digit_class(uh / 10);
    lemma_dec_digit_class(uh % 10);
    lemma_dec_digit_class(um / 10);
    lemma_dec_digit_class(um % 10);
    // the start time
    assert(skip_ws(c, 0) == 0) by {
        crate::text::lemma_skip_ws(c, 0);
    }
    assert(digit_end(c, 0) == 2) by {
        crate::text::lemma_digit_end(c, 0);
        let de = digit_end(c, 0);
        if de > 2 {
            assert(is_digit(c[2]));
        }
        if de < 2 {
            assert(!is_digit(c[de]));
        }
    }
    assert(digit_end(c, 3) == 5) by {
        crate::text::lemma_digit_end(c, 3);
        let de = digit_end(c, 3);
        if de > 5 {
            assert(is_digit(c[5]));
        }
        if de < 5 {
            assert(!is_digit(c[de]));
        }
    }
    assert(digits_val(c, 0, 0) == 0);
    assert(digits_val(c, 0, 1) == fh / 10);
    assert(digits_val(c, 0, 2) == fh);
    assert(digits_val(c, 3, 3) == 0);
    assert(digits_val(c, 3, 4) == fm / 10);
    assert(digits_val(c, 3, 5) == fm);
    assert(scan_time(c, 0) == Some(TimeTok { end: 5, hour: fh, minute: fm, colon: true }));
    // the separator between the times
    assert(skip_ws(c, 5) == 6) by {
        crate::text::lemma_skip_ws(c, 5);
        let j = skip_ws(c, 5);
        if j > 6 {
            assert(is_space(c[6]));
        }
        if j <= 5 {
            assert(!is_space(c[5]));
        }
    }
    assert(skip_ws(c, 7) == 8) by {
        crate::text::lemma_skip_ws(c, 7);
        let j = skip_ws(c, 7);
        if j > 8 {
            assert(is_space(c[8]));
        }
        if j <= 7 {
            assert(!is_space(c[7]));
        }
    }
    assert(scan_sep_times(c, 5) == Some(8int));
    // the end time
    assert(digit_end(c, 8) == 10) by {
        crate::text::lemma_digit_end(c, 8);
        let de = digit_end(c, 8);
        if de > 10 {
            assert(is_digit(c[10]));
        }
        if de < 10 {
            assert(!is_digit(c[de]));
        }
    }
    assert(digit_end(c, 11) == 13) by {
        crate::text::lemma_digit_end(c, 11);
        let de = digit_end(c, 11);
        if de > 13 {
            assert(is_digit(c[13]));
        }
        if de < 13 {
            assert(!is_digit(c[de]));
        }
    }
    assert(digits_val(c, 8, 8) == 0);
    assert(digits_val(c, 8, 9) == uh / 10);
    assert(digits_val(c, 8, 10) == uh);
    assert(digits_val(c, 11, 11) == 0);
    assert(digits_val(c, 11, 12) == um / 10);
    assert(digits_val(c, 11, 13) == um);
    assert(scan_time(c, 8) == Some(TimeTok { end: 13, hour: uh, minute: um, colon: true }));
    // the separator before the project
    assert(skip_ws(c, 13) == 13) by {
        crate::text::lemma_skip_ws(c, 13);
    }
    assert(skip_ws(c, 14) == 15) by {
        crate::text::lemma_skip_ws(c, 14);
        let j = skip_ws(c, 14);
        if j > 15 {
            assert(is_space(c[15]));
        }
        if j <= 14 {
            assert(!is_space(c[14]));
        }
    }
    assert(scan_sep_project(c, 13) == Some(15int));
    // the quoted project
    assert(!is_word('"')) by {
        assert('"' as u32 == 34);
    }
    assert(quote_pos(c, 17) == 16 + n) by {
        crate::text::lemma_quote_pos(c, 17);
        let q = quote_pos(c, 17);
        if q > 16 + n {
            assert(c[16 + n] != '"');
        }
        if q < 16 + n {
            assert(c[q] == '"');
            assert(c[q] == p[q - 16]);
        }
    }
    assert(c.subrange(16, 16 + n) =~= p);
    assert(scan_project(c, 15) == Some(((17 + n) as int, p)));
    // nothing follows the closing quote
    assert(skip_ws(c, 17 + n) == 17 + n) by {
        crate::text::lemma_skip_ws(c, 17 + n);
    }
    assert(rskip_ws(c, 17 + n) == 17 + n) by {
        crate::text::lemma_rskip_ws(c, 17 + n);
        let b = rskip_ws(c, 17 + n);
        if b < 17 + n {
            assert(is_space(c[16 + n]));
        }
    }
    assert(trimmed(c, 17 + n) =~= Seq::<char>::empty());
    assert(scan_notes(c, 17 + n) == Some(Option::<Seq<char>>::None));
    assert(scan_tail(c, 13) == Some((p, Option::<Seq<char>>::None)));
    // the times are valid and ordered, so the entry is rebuilt exactly
    assert(fh * 60 + fm < uh * 60 + um);
    assert(mk_entry(e.from.date, fh, fm, uh, um, p, None) == Some(
        EntryV { from: e.from, until: e.until, project: e.project, notes: None },
    ));
}

/// Law: the display text of an entry without notes splits into the date
/// prefix and the bare time-and-project part, and that part re-parses under
/// the entry's own date to the same times and project, whenever the project
/// is a bare word the grammar can produce: three or more word characters.
/// Nothing of the kind holds for the full display text: its leading
/// `YYYY-MM-DD | ` prefix is no entry line, so re-parsing the whole display
/// form need not succeed.
pub proof fn lemma_bare_reparse(e: EntryV)
    requires
        e.wf(),
        e.project.len() >= 3,
        forall|i: int| 0 <= i < e.project.len() ==> is_word(#[trigger] e.project[i]),
    ensures
        e.notes is None ==> entry_text_spec(e) == e.from.date.text_spec() + " | "@
            + bare_text_spec(e),
        entry_spec(bare_text_spec(e), e.from.date) == Some(
            EntryV { from: e.from, until: e.until, project: e.project, notes: None },
        ),
{
    reveal_strlit(":");
    reveal_strlit(" - ");
    reveal_strlit(": ");
    let c = bare_text_spec(e);
    let p = e.project;
    let n = p.len() as int;
    let fh = e.from.time.hour as int;
    let fm = e.from.time.minute as int;
    let uh = e.until.time.hour as int;
    let um = e.until.time.minute as int;
    if e.notes is None {
        assert(entry_text_spec(e) =~= e.from.date.text_spec() + " | "@ + bare_text_spec(e));
    }
    assert(c.len() == 15 + n);
    assert(c[0] == dec_digit(fh / 10));
    assert(c[1] == dec_digit(fh % 10));
    assert(c[2] == ':');
    assert(c[3] == dec_digit(fm / 10));
    assert(c[4] == dec_digit(fm % 10));
    assert(c[5] == ' ');
    assert(c[6] == '-');
    assert(c[7] == ' ');
    assert(c[8] == dec_digit(uh / 10));
    assert(c[9] == dec_digit(uh % 10));
    assert(c[10] == ':');
    assert(c[11] == dec_digit(um / 10));
    assert(c[12] == dec_digit(um % 10));
    assert(c[13] == ':');
    assert(c[14] == ' ');
    assert(forall|i: int| 0 <= i < n ==> c[15 + i] == p[i]);
    assert forall|i: int| 15 <= i < 15 + n implies is_word(#[trigger] c[i]) && !is_space(c[i]) by {
        assert(c[i] == p[i - 15]);
        assert(is_word(p[i - 15]));
    }
    lemma_dec_digit_class(fh / 10);
    lemma_dec_digit_class(fh % 10);
    lemma_dec_digit_class(fm / 10);
    lemma_dec_digit_class(fm % 10);
    lemma_dec_digit_class(uh / 10);
    lemma_dec_digit_class(uh % 10);
    lemma_dec_digit_class(um / 10);
    lemma_dec_digit_class(um % 10);
    // the start time
    assert(skip_ws(c, 0) == 0) by {
        crate::text::lemma_skip_ws(c, 0);
    }
    assert(digit_end(c, 0) == 2) by {
        crate::text::lemma_digit_end(c, 0);
        let de = digit_end(c, 0);
        if de > 2 {
            assert(is_digit(c[2]));
        }
        if de < 2 {
            assert(!is_digit(c[de]));
        }
    }
    assert(digit_end(c, 3) == 5) by {
        crate::text::lemma_digit_end(c, 3);
        let de = digit_end(c, 3);
        if de > 5 {
            assert(is_digit(c[5]));
        }
        if de < 5 {
            assert(!is_digit(c[de]));
        }
    }
    assert(digits_val(c, 0, 0) == 0);
    assert(digits_val(c, 0, 1) == fh / 10);
    assert(digits_val(c, 0, 2) == fh);
    assert(digits_val(c, 3, 3) == 0);
    assert(digits_val(c, 3, 4) == fm / 10);
    assert(digits_val(c, 3, 5) == fm);
    assert(scan_time(c, 0) == Some(TimeTok { end: 5, hour: fh, minute: fm, colon: true }));
    // the separator between the times
    assert(skip_ws(c, 5) == 6) by {
        crate::text::lemma_skip_ws(c, 5);
        let j = skip_ws(c, 5);
        if j > 6 {
            assert(is_space(c[6]));
        }
        if j <= 5 {
            assert(!is_space(c[5]));
        }
    }
    assert(skip_ws(c, 7) == 8) by {
        crate::text::lemma_skip_ws(c, 7);
        let j = skip_ws(c, 7);
        if j > 8 {
            assert(is_space(c[8]));
        }
        if j <= 7 {
            assert(!is_space(c[7]));
        }
    }
    assert(scan_sep_times(c, 5) == Some(8int));
    // the end time, whose minutes come across the colon at 10
    assert(digit_end(c, 8) == 10) by {
        crate::text::lemma_digit_end(c, 8);
        let de = digit_end(c, 8);
        if de > 10 {
            assert(is_digit(c[10]));
        }
        if de < 10 {
            assert(!is_digit(c[de]));
        }
    }
    assert(digit_end(c, 11) == 13) by {
        crate::text::lemma_digit_end(c, 11);
        let de = digit_end(c, 11);
        if de > 13 {
            assert(is_digit(c[13]));
        }
        if de < 13 {
            assert(!is_digit(c[de]));
        }
    }
    assert(digits_val(c, 8, 8) == 0);
    assert(digits_val(c, 8, 9) == uh / 10);
    assert(digits_val(c, 8, 10) == uh);
    assert(digits_val(c, 11, 11) == 0);
    assert(digits_val(c, 11, 12) == um / 10);
    assert(digits_val(c, 11, 13) == um);
    assert(scan_time(c, 8) == Some(TimeTok { end: 13, hour: uh, minute: um, colon: true }));
    // the separator before the project: the colon at 13, then the space
    assert(skip_ws(c, 13) == 13) by {
        crate::text::lemma_skip_ws(c, 13);
    }
    assert(skip_ws(c, 14) == 15) by {
        crate::text::lemma_skip_ws(c, 14);
        let j = skip_ws(c, 14);
        if j > 15 {
            assert(is_space(c[15]));
        }
        if j <= 14 {
            assert(!is_space(c[14]));
        }
    }
    assert(scan_sep_project(c, 13) == Some(15int));
    // the bare project word runs to the end of the text
    assert(word_end(c, 15) == 15 + n) by {
        crate::text::lemma_word_end(c, 15);
        let w = word_end(c, 15);
        if w < 15 + n {
            assert(is_word(c[w]));
        }
    }
    assert(c.subrange(15, 15 + n) =~= p);
    assert(scan_project(c, 15) == Some(((15 + n) as int, p)));
    // nothing follows the project
    assert(skip_ws(c, 15 + n) == 15 + n) by {
        crate::text::lemma_skip_ws(c, 15 + n);
    }
    assert(rskip_ws(c, 15 + n) == 15 + n) by {
        crate::text::lemma_rskip_ws(c, 15 + n);
        let b = rskip_ws(c, 15 + n);
        if b < 15 + n {
            assert(is_space(c[14 + n]));
        }
    }
    assert(trimmed(c, 15 + n) =~= Seq::<char>::empty());
    assert(scan_notes(c, 15 + n) == Some(Option::<Seq<char>>::None));
    assert(scan_tail(c, 13) == Some((p, Option::<Seq<char>>::None)));
    // the times are valid and ordered, so the entry is rebuilt exactly
    assert(fh * 60 + fm < uh * 60 + um);
    assert(mk_entry(e.from.date, fh, fm, uh, um, p, None) == Some(
        EntryV { from: e.from, until: e.until, project: e.project, notes: None },
    ));
}

fn contains_newline(t: &str) -> (r: bool)
    ensures
        r == t@.contains('\n'),
{
    let n = t.unicode_len();
    let mut i: usize = 0;
    while i < n
        invariant
            n == t@.len(),
            i <= n,
            forall|k: int| 0 <= k < i ==> t@[k] != '\n',
        decreases n - i,
    {
        if t.get_char(i) == '\n' {
            return true;
        }
        i = i + 1;
    }
    false
}

fn scan_time_exec(s: &str, n: usize, i: usize) -> (r: Option<(usize, u8, u8, bool)>)
    requires
        n == s@.len(),
        i <= n,
    ensures
        ({
            let t = scan_time(s@, i as int);
            match r {
                None => t is None,
                Some((e, h, m, c)) => e <= n && (c ==> e >= 3) && t == Some(
                    TimeTok { end: e as int, hour: h as int, minute: m as int, colon: c },
                ),
            }
        }),
{
    let e = digit_run_end(s, n, i);
    proof {
        lemma_digit_end(s@, i as int);
        lemma_digits_val_bound(s@, i as int, e as int);
    }
    let d = e - i;
    if d == 0 || d > 4 {
        return None;
    }
    if d <= 2 && e < n && s.get_char(e) == ':' {
        let e2 = digit_run_end(s, n, e + 1);
        if e2 - e == 3 {
            proof {
                lemma_digit_end(s@, e as int + 1);
                lemma_digits_val_bound(s@, e as int + 1, e2 as int);
            }
            let h = digits_value(s, n, i, e);
            let m = digits_value(s, n, e + 1, e2);
            return Some((e2, h as u8, m as u8, true));
        }
    }
    if d <= 2 {
        let h = digits_value(s, n, i, e);
        Some((e, h as u8, 0, false))
    } else if d == 3 {
        let h = digits_value(s, n, i, i + 1);
        let m = digits_value(s, n, i + 1, e);
        proof {
            lemma_digits_val_bound(s@, i as int, i + 1);
            lemma_digits_val_bound(s@, i + 1, e as int);
        }
        Some((e, h as u8, m as u8, false))
    } else {
        let h = digits_value(s, n, i, i + 2);
        let m = digits_value(s, n, i + 2, e);
        proof {
            lemma_digits_val_bound(s@, i as int, i + 2);
            lemma_digits_val_bound(s@, i + 2, e as int);
        }
        Some((e, h as u8, m as u8, false))
    }
}

fn scan_sep_times_exec(s: &str, n: usize, i: usize) -> (r: Option<usize>)
    requires
        n == s@.len(),
        i <= n,
    ensures
        ({
            let t = scan_sep_times(s@, i as int);
            match r {
                None => t is None,
                Some(j) => j <= n && t == Some(j as int),
            }
        }),
{
    let j = skip_spaces(s, n, i);
    if j < n && s.get_char(j) == '-' {
        Some(skip_spaces(s, n, j + 1))
    } else if j > i {
        Some(j)
    } else {
        None
    }
}

fn scan_sep_project_exec(s: &str, n: usize, i: usize) -> (r: Option<usize>)
    requires
        n == s@.len(),
        i <= n,
    ensures
        ({
            let t = scan_sep_project(s@, i as int);
            match r {
                None => t is None,
                Some(j) => j <= n && t == Some(j as int),
            }
        }),
{
    let j = skip_spaces(s, n, i);
    if j < n && s.get_char(j) == ':' {
        Some(skip_spaces(s, n, j + 1))
    } else if j > i {
        Some(j)
    } else {
        None
    }
}

fn scan_project_exec(s: &str, n: usize, k: usize) -> (r: Option<(usize, String)>)
    requires
        n == s@.len(),
        k <= n,
    ensures
        ({
            let t = scan_project(s@, k as int);
            match r {
                None => t is None,
                Some((a, p)) => a <= n && t == Some((a as int, p@)),
            }
        }),
{
    if k < n && char_is_word(s.get_char(k)) {
        let w = word_run_end(s, n, k);
        if w - k >= 3 {
            Some((w, s.substring_char(k, w).to_owned()))
        } else {
            None
        }
    } else if k < n && s.get_char(k) == '"' && n - k >= 2 {
        let q = find_quote(s, n, k + 2);
        if q < n {
            let content = s.substring_char(k + 1, q);
            if contains_newline(content) {
                None
            } else {
                Some((q + 1, content.to_owned()))
            }
        } else {
            None
        }
    } else {
        None
    }
}

fn scan_notes_exec(s: &str, n: usize, a: usize) -> (r: Option<Option<String>>)
    requires
        n == s@.len(),
        a <= n,
    ensures
        ({
            let t = scan_notes(s@, a as int);
            match r {
                None => t is None,
                Some(None) => t == Some(Option::<Seq<char>>::None),
                Some(Some(x)) => t == Some(Some(x@)),
            }
        }),
{
    let b = skip_spaces(s, n, a);
    let e = rskip_spaces(s, n, n);
    if e <= b {
        return Some(None);
    }
    let t = s.substring_char(b, e);
    if contains_newline(t) {
        None
    } else {
        Some(Some(t.to_owned()))
    }
}

fn scan_tail_exec(s: &str, n: usize, i: usize) -> (r: Option<(String, Option<String>)>)
    requires
        n == s@.len(),
        i <= n,
    ensures
        ({
            let t = scan_tail(s@, i as int);
            match r {
                None => t is None,
                Some((p, no)) => t == Some(
                    (
                        p@,
                        match no {
                            Some(x) => Some(x@),
                            None => None,
                        },
                    ),
                ),
            }
        }),
{
    let k = match scan_sep_project_exec(s, n, i) {
        None => {
            return None;
        },
        Some(k) => k,
    };
    let (a, proj) = match scan_project_exec(s, n, k) {
        None => {
            return None;
        },
        Some(ap) => ap,
    };
    match scan_notes_exec(s, n, a) {
        None => None,
        Some(notes) => Some((proj, notes)),
    }
}

impl Entry {
    /// Recognizes one timelog line under the given date.  Returns the entry
    /// exactly when the line matches the grammar and the times are valid
    /// and ordered; any other line yields nothing.
    pub fn parse(s: &str, date: &Date) -> (r: Option<Entry>)
        requires
            date.valid(),
        ensures
            match r {
                Some(e) => entry_spec(s@, *date) == Some(e@) && e.wf(),
                None => entry_spec(s@, *date) is None,
            },
    {
        let n = s.unicode_len();
        let i0 = skip_spaces(s, n, 0);
        let (fe, fh, fm, _fc) = match scan_time_exec(s, n, i0) {
            None => {
                return None;
            },
            Some(t) => t,
        };
        let i2 = match scan_sep_times_exec(s, n, fe) {
            None => {
                return None;
            },
            Some(j) => j,
        };
        let (ue, uh, um, uc) = match scan_time_exec(s, n, i2) {
            None => {
                return None;
            },
            Some(t) => t,
        };
        match scan_tail_exec(s, n, ue) {
            Some((proj, notes)) => mk_entry_exec(date, fh, fm, uh, um, proj, notes),
            None => {
                if uc {
                    match scan_tail_exec(s, n, ue - 3) {
                        None => None,
                        Some((proj, notes)) => mk_entry_exec(date, fh, fm, uh, 0, proj, notes),
                    }
                } else {
                    None
                }
            },
        }
    }
}

fn mk_entry_exec(
    date: &Date,
    fh: u8,
    fm: u8,
    uh: u8,
    um: u8,
    proj: String,
    notes: Option<String>,
) -> (r: Option<Entry>)
    ensures
        ({
            let t = mk_entry(
                *date,
                fh as int,
                fm as int,
                uh as int,
                um as int,
                proj@,
                match notes {
                    Some(x) => Some(x@),
                    None => None,
                },
            );
            match r {
                None => t is None,
                Some(e) => t == Some(e@),
            }
        }),
{
    if fh < 24 && fm < 60 && uh < 24 && um < 60 && (fh as u32 * 60 + fm as u32) < (uh as u32 * 60
        + um as u32) {
        Some(
            Entry {
                from: DateTime { date: *date, time: Time { hour: fh, minute: fm } },
                until: DateTime { date: *date, time: Time { hour: uh, minute: um } },
                project: proj,
                notes,
            },
        )
    } else {
        None
    }
}

} // verus!
