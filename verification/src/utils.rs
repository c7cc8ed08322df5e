//! Gap filling: a date-keyed group list is completed so that every day of a
//! target range is present, days the input lacked getting an empty log.

use vstd::prelude::*;
use crate::date::{Date, DateRange, date_eq, date_lt, range_dates, lemma_range_dates_contains};
use crate::entry::EntryV;
use crate::timelog::{Log, groups_view};

verus! {

/// The entries a group list holds under a date: those of its first group
/// with that key, or none.
pub open spec fn group_value(g: Seq<(Date, Seq<EntryV>)>, d: Date) -> Seq<EntryV>
    decreases g.len(),
{
    if g.len() == 0 {
        Seq::empty()
    } else if g[0].0 == d {
        g[0].1
    } else {
        group_value(g.drop_first(), d)
    }
}

pub open spec fn group_has_date(g: Seq<(Date, Seq<EntryV>)>, d: Date) -> bool {
    exists|i: int| 0 <= i < g.len() && (#[trigger] g[i]).0 == d
}

/// The smallest key of a non-empty group list; ties keep the earlier one.
pub open spec fn min_key(g: Seq<(Date, Seq<EntryV>)>) -> Date
    recommends
        g.len() > 0,
    decreases g.len(),
{
    if g.len() <= 1 {
        g[0].0
    } else {
        let m = min_key(g.drop_last());
        if m.le(g.last().0) {
            m
        } else {
            g.last().0
        }
    }
}

/// The largest key of a non-empty group list; ties keep the earlier one.
pub open spec fn max_key(g: Seq<(Date, Seq<EntryV>)>) -> Date
    recommends
        g.len() > 0,
    decreases g.len(),
{
    if g.len() <= 1 {
        g[0].0
    } else {
        let m = max_key(g.drop_last());
        if g.last().0.le(m) {
            m
        } else {
            g.last().0
        }
    }
}

/// The extreme keys are keys of the list and bound every key of it.
pub proof fn lemma_min_max_key(g: Seq<(Date, Seq<EntryV>)>)
    requires
        g.len() > 0,
    ensures
        exists|i: int| 0 <= i < g.len() && (#[trigger] g[i]).0 == min_key(g),
        exists|i: int| 0 <= i < g.len() && (#[trigger] g[i]).0 == max_key(g),
        forall|i: int|
            0 <= i < g.len() ==> min_key(g).le((#[trigger] g[i]).0) && g[i].0.le(max_key(g)),
    decreases g.len(),
{
    if g.len() > 1 {
        let sub = g.drop_last();
        lemma_min_max_key(sub);
        let i = choose|i: int| 0 <= i < sub.len() && (#[trigger] sub[i]).0 == min_key(sub);
        let j = choose|j: int| 0 <= j < sub.len() && (#[trigger] sub[j]).0 == max_key(sub);
        assert(g[i] == sub[i]);
        assert(g[j] == sub[j]);
        assert(g[g.len() - 1] == g.last());
        assert forall|k: int|
            0 <= k < g.len() implies min_key(g).le((#[trigger] g[k]).0) && g[k].0.le(
            max_key(g),
        ) by {
            if k < g.len() - 1 {
                assert(sub[k] == g[k]);
            }
        }
    } else {
        assert(g[0].0 == min_key(g));
    }
}

/// The gap-free form of a group list over a closed date range: one group
/// per day, ascending, holding the input's entries for that day.
pub open spec fn pad_spec(g: Seq<(Date, Seq<EntryV>)>, lo: Date, hi: Date) -> Seq<
    (Date, Seq<EntryV>),
> {
    range_dates(lo, hi).map_values(|d: Date| (d, group_value(g, d)))
}

/// A linear scan that stops at the first matching key finds exactly the
/// group value.
proof fn lemma_group_value_at(g: Seq<(Date, Seq<EntryV>)>, d: Date, idx: int)
    requires
        0 <= idx <= g.len(),
        forall|k: int| 0 <= k < idx ==> (#[trigger] g[k]).0 != d,
        idx < g.len() ==> g[idx].0 == d,
    ensures
        idx < g.len() ==> group_value(g, d) == g[idx].1,
        idx == g.len() ==> group_value(g, d) == Seq::<EntryV>::empty() && !group_has_date(g, d),
    decreases g.len(),
{
    if g.len() > 0 {
        if idx == 0 && idx < g.len() {
        } else {
            assert(g[0].0 != d);
            let sub = g.drop_first();
            assert forall|k: int| 0 <= k < idx - 1 implies (#[trigger] sub[k]).0 != d by {
                assert(sub[k] == g[k + 1]);
            }
            if idx < g.len() {
                assert(sub[idx - 1] == g[idx as int]);
            }
            lemma_group_value_at(sub, d, idx - 1);
            if idx == g.len() && group_has_date(g, d) {
                let i = choose|i: int| 0 <= i < g.len() && (#[trigger] g[i]).0 == d;
                assert(sub[i - 1] == g[i]);
            }
        }
    } else {
        if group_has_date(g, d) {
            let i = choose|i: int| 0 <= i < g.len() && (#[trigger] g[i]).0 == d;
        }
    }
}

/// Inserts an empty log for every day of the target range that the mapping
/// lacks, drops the days outside it, and leaves the keys ascending.  Without
/// an explicit range, the span from the smallest to the largest of the
/// mapping's own keys is filled; an empty mapping stays untouched.
pub fn pad_dates(map: &mut Vec<(Date, Log)>, range: Option<DateRange>)
    requires
        forall|k: int| 0 <= k < old(map)@.len() ==> (#[trigger] old(map)@[k]).0.valid(),
        range matches Some(r) ==> r.0.valid() && r.1.valid(),
    ensures
        old(map)@.len() == 0 ==> final(map)@ == old(map)@,
        old(map)@.len() > 0 ==> ({
            let lo = match range {
                Some(r) => r.0,
                None => min_key(groups_view(old(map)@)),
            };
            let hi = match range {
                Some(r) => r.1,
                None => max_key(groups_view(old(map)@)),
            };
            groups_view(final(map)@) == pad_spec(groups_view(old(map)@), lo, hi)
        }),
{
    if map.len() == 0 {
        return ;
    }
    let ghost g0 = groups_view(map@);
    let (lo, hi) = match range {
        Some(r) => (r.0, r.1),
        None => {
            proof {
                assert(g0[0] == (map@[0].0, map@[0].1@));
            }
            let mut lo = map[0].0;
            let mut hi = map[0].0;
            let mut i: usize = 1;
            while i < map.len()
                invariant
                    map@.len() > 0,
                    g0 == groups_view(map@),
                    forall|k: int| 0 <= k < map@.len() ==> (#[trigger] map@[k]).0.valid(),
                    1 <= i <= map@.len(),
                    lo == min_key(g0.take(i as int)),
                    hi == max_key(g0.take(i as int)),
                    lo.valid(),
                    hi.valid(),
                decreases map@.len() - i,
            {
                proof {
                    assert(g0[i as int] == (map@[i as int].0, map@[i as int].1@));
                    assert(g0.take(i + 1).drop_last() =~= g0.take(i as int));
                    assert(g0.take(i + 1).last() == g0[i as int]);
                }
                let d = map[i].0;
                if date_lt(&d, &lo) {
                    lo = d;
                }
                if date_lt(&hi, &d) {
                    hi = d;
                }
                i = i + 1;
            }
            proof {
                assert(g0.take(map@.len() as int) =~= g0);
            }
            (lo, hi)
        },
    };
    let days = DateRange(lo, hi).days();
    let mut out: Vec<(Date, Log)> = Vec::new();
    proof {
        assert(groups_view(out@) =~= pad_spec(g0, lo, hi).take(0));
    }
    let mut j: usize = 0;
    while j < days.len()
        invariant
            days@ == range_dates(lo, hi),
            g0 == groups_view(map@),
            j <= days@.len(),
            groups_view(out@) == pad_spec(g0, lo, hi).take(j as int),
        decreases days@.len() - j,
    {
        let d = days[j];
        let mut idx: usize = 0;
        while idx < map.len() && !date_eq(&map[idx].0, &d)
            invariant
                idx <= map@.len(),
                g0 == groups_view(map@),
                forall|k: int| 0 <= k < idx ==> (#[trigger] g0[k]).0 != d,
            decreases map@.len() - idx,
        {
            proof {
                assert(g0[idx as int] == (map@[idx as int].0, map@[idx as int].1@));
            }
            idx = idx + 1;
        }
        proof {
            assert(g0.len() == map@.len());
            if idx < map@.len() {
                assert(g0[idx as int] == (map@[idx as int].0, map@[idx as int].1@));
            }
            lemma_group_value_at(g0, d, idx as int);
        }
        if idx < map.len() {
            let lg = map[idx].1.clone();
            out.push((d, lg));
        } else {
            let nl = Log(Vec::new());
            proof {
                assert(nl@ =~= Seq::<EntryV>::empty());
            }
            out.push((d, nl));
        }
        proof {
            assert(pad_spec(g0, lo, hi).take(j + 1) =~= pad_spec(g0, lo, hi).take(j as int).push(
                pad_spec(g0, lo, hi)[j as int],
            ));
            assert(pad_spec(g0, lo, hi)[j as int] == (days@[j as int], group_value(
                g0,
                days@[j as int],
            )));
            assert(groups_view(out@) =~= pad_spec(g0, lo, hi).take(j + 1));
        }
        j = j + 1;
    }
    proof {
        assert(pad_spec(g0, lo, hi).take(range_dates(lo, hi).len() as int) =~= pad_spec(
            g0,
            lo,
            hi,
        ));
    }
    *map = out;
}

/// Looking a date up yields one of the groups' values, or nothing; either
/// way well-formedness carries over.
pub proof fn lemma_group_value_wf(g: Seq<(Date, Seq<EntryV>)>, d: Date)
    requires
        forall|k: int| 0 <= k < g.len() ==> crate::timelog::entries_wf((#[trigger] g[k]).1),
    ensures
        crate::timelog::entries_wf(group_value(g, d)),
    decreases g.len(),
{
    if g.len() > 0 && g[0].0 != d {
        let sub = g.drop_first();
        assert forall|k: int| 0 <= k < sub.len() implies crate::timelog::entries_wf(
            (#[trigger] sub[k]).1,
        ) by {
            assert(sub[k] == g[k + 1]);
        }
        lemma_group_value_wf(sub, d);
    }
}

/// Law: filling never removes a key inside the target range and never
/// leaves a gap inside it.  The padded keys are exactly the days of the
/// range, and each keeps exactly the entries the input held for it.
pub proof fn lemma_pad_spec_complete(g: Seq<(Date, Seq<EntryV>)>, lo: Date, hi: Date, d: Date)
    requires
        lo.valid(),
        hi.valid(),
        d.valid(),
    ensures
        (lo.le(d) && d.le(hi)) <==> exists|i: int|
            0 <= i < pad_spec(g, lo, hi).len() && (#[trigger] pad_spec(g, lo, hi)[i]).0 == d,
        forall|i: int|
            0 <= i < pad_spec(g, lo, hi).len() ==> (#[trigger] pad_spec(g, lo, hi)[i]).1
                == group_value(g, pad_spec(g, lo, hi)[i].0),
{
    lemma_range_dates_contains(lo, hi, d);
    let days = range_dates(lo, hi);
    let padded = pad_spec(g, lo, hi);
    assert(padded.len() == days.len());
    assert forall|i: int| 0 <= i < padded.len() implies (#[trigger] padded[i]) == (
        days[i],
        group_value(g, days[i]),
    ) by {}
    if lo.le(d) && d.le(hi) {
        let i = choose|i: int| 0 <= i < days.len() && days[i] == d;
        assert(padded[i].0 == d);
    }
    if exists|i: int| 0 <= i < padded.len() && (#[trigger] padded[i]).0 == d {
        let i = choose|i: int| 0 <= i < padded.len() && (#[trigger] padded[i]).0 == d;
        assert(days[i] == d);
        assert(days.contains(d));
    }
}

/// Law: a fill over the input's own span — the default when no range is
/// given — keeps every key of the input, with exactly the entries the input
/// held for it.
pub proof fn lemma_pad_default_keeps_keys(g: Seq<(Date, Seq<EntryV>)>, d: Date)
    requires
        g.len() > 0,
        forall|k: int| 0 <= k < g.len() ==> (#[trigger] g[k]).0.valid(),
        group_has_date(g, d),
    ensures
        exists|i: int|
            0 <= i < pad_spec(g, min_key(g), max_key(g)).len() && (#[trigger] pad_spec(
                g,
                min_key(g),
                max_key(g),
            )[i]).0 == d && pad_spec(g, min_key(g), max_key(g))[i].1 == group_value(g, d),
{
    lemma_min_max_key(g);
    let j = choose|j: int| 0 <= j < g.len() && (#[trigger] g[j]).0 == d;
    assert(d.valid());
    let mi = choose|i: int| 0 <= i < g.len() && (#[trigger] g[i]).0 == min_key(g);
    let ma = choose|i: int| 0 <= i < g.len() && (#[trigger] g[i]).0 == max_key(g);
    lemma_pad_spec_complete(g, min_key(g), max_key(g), d);
    let padded = pad_spec(g, min_key(g), max_key(g));
    let i = choose|i: int| 0 <= i < padded.len() && (#[trigger] padded[i]).0 == d;
    assert(padded[i].1 == group_value(g, d));
}

} // verus!
