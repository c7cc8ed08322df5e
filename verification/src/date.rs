//! Calendar dates, modelled as year/month/day triples with a validity
//! invariant, an order-preserving integer key, day succession, and the
//! closed date ranges used to pad sparse reports.

use vstd::prelude::*;
use crate::text::{dec_digit, two_digits};
use crate::text::{digit_text, push_two_digits};

verus! {

/// A proleptic Gregorian calendar date with a four-digit year.
#[derive(Clone, Copy, PartialEq, Eq, Structural, Hash, Debug)]
pub struct Date {
    pub year: u16,
    pub month: u8,
    pub day: u8,
}

pub open spec fn leap_year(y: int) -> bool {
    y % 4 == 0 && (y % 100 != 0 || y % 400 == 0)
}

pub open spec fn days_in_month(y: int, m: int) -> int {
    if m == 2 {
        if leap_year(y) {
            29
        } else {
            28
        }
    } else if m == 4 || m == 6 || m == 9 || m == 11 {
        30
    } else {
        31
    }
}

impl Date {
    pub open spec fn valid(self) -> bool {
        &&& self.year <= 9999
        &&& 1 <= self.month <= 12
        &&& 1 <= self.day <= days_in_month(self.year as int, self.month as int)
    }

    /// An integer key whose order agrees with the lexicographic order on
    /// (year, month, day); the month and day factors leave no overlap.
    pub open spec fn key(self) -> int {
        self.year as int * 372 + self.month as int * 31 + self.day as int
    }

    pub open spec fn le(self, other: Date) -> bool {
        self.key() <= other.key()
    }

    pub open spec fn lt(self, other: Date) -> bool {
        self.key() < other.key()
    }

    /// The next calendar day.
    pub open spec fn succ_spec(self) -> Date {
        if self.day < days_in_month(self.year as int, self.month as int) {
            Date { day: (self.day + 1) as u8, ..self }
        } else if self.month < 12 {
            Date { month: (self.month + 1) as u8, day: 1, ..self }
        } else {
            Date { year: (self.year + 1) as u16, month: 1, day: 1 }
        }
    }

    /// The latest date the model admits.
    pub open spec fn is_max(self) -> bool {
        self.year == 9999 && self.month == 12 && self.day == 31
    }

    /// Builds a date, rejecting anything that is not a real calendar day.
    pub fn new(year: u16, month: u8, day: u8) -> (r: Option<Date>)
        ensures
            match r {
                Some(d) => d == (Date { year, month, day }) && d.valid(),
                None => !(Date { year, month, day }).valid(),
            },
    {
        let d = Date { year, month, day };
        if year <= 9999 && 1 <= month && month <= 12 && 1 <= day && day <= d.days_in_month_exec() {
            Some(d)
        } else {
            None
        }
    }

    fn days_in_month_exec(&self) -> (r: u8)
        ensures
            r as int == days_in_month(self.year as int, self.month as int),
    {
        if self.month == 2 {
            let y = self.year;
            if y % 4 == 0 && (y % 100 != 0 || y % 400 == 0) {
                29
            } else {
                28
            }
        } else if self.month == 4 || self.month == 6 || self.month == 9 || self.month == 11 {
            30
        } else {
            31
        }
    }

    /// The next calendar day; the last representable day has no successor.
    pub fn succ(&self) -> (r: Date)
        requires
            self.valid(),
            !self.is_max(),
        ensures
            r == self.succ_spec(),
            r.valid(),
    {
        if self.day < self.days_in_month_exec() {
            Date { day: self.day + 1, ..*self }
        } else if self.month < 12 {
            Date { month: self.month + 1, day: 1, ..*self }
        } else {
            Date { year: self.year + 1, month: 1, day: 1 }
        }
    }

    /// The canonical `YYYY-MM-DD` rendering.
    pub open spec fn text_spec(self) -> Seq<char> {
        let y = self.year as int;
        seq![dec_digit(y / 1000), dec_digit(y / 100 % 10), dec_digit(y / 10 % 10), dec_digit(y % 10)]
            + seq!['-'] + two_digits(self.month as int) + seq!['-'] + two_digits(self.day as int)
    }

    pub fn text(&self) -> (r: String)
        requires
            self.valid(),
        ensures
            r@ == self.text_spec(),
    {
        let mut s = String::new();
        let y = self.year;
        s.append(digit_text((y / 1000) as u8));
        s.append(digit_text((y / 100 % 10) as u8));
        s.append(digit_text((y / 10 % 10) as u8));
        s.append(digit_text((y % 10) as u8));
        s.append("-");
        push_two_digits(&mut s, self.month);
        s.append("-");
        push_two_digits(&mut s, self.day);
        proof {
            reveal_strlit("-");
        }
        assert(s@ =~= self.text_spec());
        s
    }
}

/// Comparison through the order key; no overflow, every field bounded.
pub fn date_le(a: &Date, b: &Date) -> (r: bool)
    ensures
        r == a.le(*b),
{
    date_key_exec(a) <= date_key_exec(b)
}

pub fn date_lt(a: &Date, b: &Date) -> (r: bool)
    ensures
        r == a.lt(*b),
{
    date_key_exec(a) < date_key_exec(b)
}

pub fn date_eq(a: &Date, b: &Date) -> (r: bool)
    ensures
        r == (*a == *b),
{
    a.year == b.year && a.month == b.month && a.day == b.day
}

fn date_key_exec(d: &Date) -> (r: u32)
    ensures
        r as int == d.key(),
{
    d.year as u32 * 372 + d.month as u32 * 31 + d.day as u32
}

/// Equal keys come from equal dates: the key packs the fields injectively.
pub proof fn lemma_key_injective(a: Date, b: Date)
    requires
        a.valid(),
        b.valid(),
        a.key() == b.key(),
    ensures
        a == b,
{
}

/// Day succession strictly increases the order key.
pub proof fn lemma_succ_increases(d: Date)
    requires
        d.valid(),
    ensures
        d.key() < d.succ_spec().key(),
{
}

/// The successor is the immediate next valid date: no valid date lies
/// strictly between a date and its successor.
pub proof fn lemma_succ_tight(d: Date, e: Date)
    requires
        d.valid(),
        e.valid(),
        d.lt(e),
    ensures
        d.succ_spec().le(e),
{
}

/// A closed interval of calendar dates, used only to fill report gaps.
#[derive(Clone, Copy, PartialEq, Eq, Structural, Debug)]
pub struct DateRange(pub Date, pub Date);

/// The days of `[a, b]` in ascending order; empty when the bounds cross.
pub open spec fn range_dates(a: Date, b: Date) -> Seq<Date>
    decreases (if a.le(b) { b.key() - a.key() + 1 } else { 0 }),
{
    if a.valid() && a.le(b) {
        seq![a] + range_dates(a.succ_spec(), b)
    } else {
        Seq::empty()
    }
}

impl DateRange {
    pub open spec fn contains_spec(self, d: Date) -> bool {
        self.0.le(d) && d.le(self.1)
    }

    pub fn contains(&self, reference: &Date) -> (r: bool)
        ensures
            r == self.contains_spec(*reference),
    {
        date_le(&self.0, reference) && date_le(reference, &self.1)
    }

    /// All days of the range in ascending order.
    pub fn days(&self) -> (r: Vec<Date>)
        requires
            self.0.valid(),
            self.1.valid(),
        ensures
            r@ == range_dates(self.0, self.1),
    {
        let mut out: Vec<Date> = Vec::new();
        assert(out@ + range_dates(self.0, self.1) =~= range_dates(self.0, self.1));
        let mut cur = self.0;
        while date_le(&cur, &self.1)
            invariant
                self.0.valid(),
                self.1.valid(),
                cur.valid(),
                out@ + range_dates(cur, self.1) == range_dates(self.0, self.1),
            decreases self.1.key() - cur.key() + 1,
        {
            out.push(cur);
            if date_eq(&cur, &self.1) {
                // the upper bound itself was just pushed; nothing follows it
                proof {
                    lemma_succ_increases(cur);
                }
                assert(out@ + range_dates(cur.succ_spec(), self.1) =~= range_dates(self.0, self.1));
                assert(out@ =~= range_dates(self.0, self.1));
                return out;
            }
            proof {
                if cur.is_max() {
                    // every valid date's key is at most the maximal date's key
                    assert(self.1.key() <= cur.key());
                    lemma_key_injective(cur, self.1);
                }
                lemma_succ_increases(cur);
            }
            let next = cur.succ();
            assert(out@ + range_dates(next, self.1) =~= range_dates(self.0, self.1));
            cur = next;
        }
        assert(out@ =~= range_dates(self.0, self.1));
        out
    }
}

/// Every day of a range between valid bounds is itself valid.
pub proof fn lemma_range_dates_valid(a: Date, b: Date)
    requires
        b.valid(),
    ensures
        forall|i: int| 0 <= i < range_dates(a, b).len() ==> (#[trigger] range_dates(a, b)[i]).valid(),
    decreases (if a.le(b) { b.key() - a.key() + 1 } else { 0 }),
{
    if a.valid() && a.le(b) {
        lemma_succ_increases(a);
        lemma_range_dates_valid(a.succ_spec(), b);
        let r = range_dates(a, b);
        let sub = range_dates(a.succ_spec(), b);
        assert forall|i: int| 0 <= i < r.len() implies (#[trigger] r[i]).valid() by {
            if i > 0 {
                assert(r[i] == sub[i - 1]);
            }
        }
    }
}

/// Range membership coincides with appearing among the range's days.
pub proof fn lemma_range_dates_contains(a: Date, b: Date, d: Date)
    requires
        a.valid(),
        b.valid(),
        d.valid(),
    ensures
        range_dates(a, b).contains(d) <==> (a.le(d) && d.le(b)),
    decreases (if a.le(b) { b.key() - a.key() + 1 } else { 0 }),
{
    let r = range_dates(a, b);
    if a.le(b) {
        let sub = range_dates(a.succ_spec(), b);
        assert(r == seq![a] + sub);
        if a.is_max() {
            // a already is the last representable day, so a == b and the
            // range is the singleton [a]
            assert(b.key() <= a.key());
            lemma_key_injective(a, b);
            lemma_succ_increases(a);
            assert(sub =~= Seq::<Date>::empty());
            if r.contains(d) {
                let i = choose|i: int| 0 <= i < r.len() && r[i] == d;
                assert(d == a);
            }
            if a.le(d) && d.le(b) {
                lemma_key_injective(a, d);
                assert(r[0] == d);
            }
        } else {
            lemma_succ_increases(a);
            lemma_range_dates_contains(a.succ_spec(), b, d);
            if r.contains(d) {
                let i = choose|i: int| 0 <= i < r.len() && r[i] == d;
                if i == 0 {
                    assert(d == a);
                } else {
                    assert(sub[i - 1] == d);
                    assert(sub.contains(d));
                }
            }
            if a.le(d) && d.le(b) {
                if a == d {
                    assert(r[0] == d);
                } else {
                    if a.key() == d.key() {
                        lemma_key_injective(a, d);
                    }
                    lemma_succ_tight(a, d);
                    assert(sub.contains(d));
                    let j = choose|j: int| 0 <= j < sub.len() && sub[j] == d;
                    assert(r[j + 1] == d);
                }
            }
        }
    } else {
        assert(r =~= Seq::<Date>::empty());
        if r.contains(d) {
            let i = choose|i: int| 0 <= i < r.len() && r[i] == d;
        }
    }
}

} // verus!
