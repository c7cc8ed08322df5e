//! Reports: named aggregation results over a log, by calendar date and by
//! project, with optional gap filling and a plain-text rendering.

use vstd::prelude::*;
use crate::date::Date;
use crate::entry::EntryV;
use crate::text::{dec_digit, dec_seq, dec_text, digit_text};
use crate::timelog::{Log, by_date_spec, by_project_spec, clamped_minutes, entries_on,
    entries_of_project, groups_view, lemma_dates_of, lemma_entries_of_project_wf,
    lemma_entries_on_wf, project_groups_view, dates_of, entries_wf};
use crate::utils::{group_value, lemma_group_value_wf, lemma_min_max_key, max_key, min_key,
    pad_dates, pad_spec};

verus! {

/// Whether a by-date report fills the gaps between the log's earliest and
/// latest day.
pub enum Fill {
    Padded,
    Sparse,
}

/// A named aggregation result: a title, optionally a list of labelled
/// totals, optionally a single grand total, each in minutes.
#[derive(Debug, PartialEq)]
pub struct Report {
    pub title: String,
    pub entries: Option<Vec<(String, u64)>>,
    pub total: Option<u64>,
}

/// The mathematical model of a report.
#[verifier::ext_equal]
pub ghost struct ReportV {
    pub title: Seq<char>,
    pub entries: Option<Seq<(Seq<char>, u64)>>,
    pub total: Option<u64>,
}

/// The model of a row list: each label with its minutes.
pub open spec fn rows_view(v: Seq<(String, u64)>) -> Seq<(Seq<char>, u64)> {
    v.map_values(|p: (String, u64)| (p.0@, p.1))
}

impl View for Report {
    type V = ReportV;

    open spec fn view(&self) -> ReportV {
        ReportV {
            title: self.title@,
            entries: match self.entries {
                Some(v) => Some(rows_view(v@)),
                None => None,
            },
            total: self.total,
        }
    }
}

/// The date groups a by-date report works from: grouped, and gap-filled
/// over the span of the log's own smallest and largest day when padding was
/// asked for.
pub open spec fn padded_groups(s: Seq<EntryV>, fill: Fill) -> Seq<(Date, Seq<EntryV>)> {
    let g = by_date_spec(s);
    match fill {
        Fill::Padded => if g.len() == 0 {
            g
        } else {
            pad_spec(g, min_key(g), max_key(g))
        },
        Fill::Sparse => g,
    }
}

/// One row per date group: the date rendered, with the group's total.
pub open spec fn date_rows(g: Seq<(Date, Seq<EntryV>)>) -> Seq<(Seq<char>, u64)> {
    g.map_values(|p: (Date, Seq<EntryV>)| (p.0.text_spec(), clamped_minutes(p.1) as u64))
}

/// One row per project group: the name, with the group's total.
pub open spec fn project_rows(s: Seq<EntryV>) -> Seq<(Seq<char>, u64)> {
    by_project_spec(s).map_values(|p: (Seq<char>, Seq<EntryV>)| (p.0, clamped_minutes(p.1) as u64))
}

/// The models of a report list.
pub open spec fn reports_view(v: Seq<Report>) -> Seq<ReportV> {
    v.map_values(|r: Report| r@)
}

/// One report per date: the date as the title, the per-project totals as
/// the rows, and the date's own total.
pub open spec fn date_project_reports(s: Seq<EntryV>, fill: Fill) -> Seq<ReportV> {
    padded_groups(s, fill).map_values(
        |p: (Date, Seq<EntryV>)|
            ReportV {
                title: p.0.text_spec(),
                entries: Some(project_rows(p.1)),
                total: Some(clamped_minutes(p.1) as u64),
            },
    )
}

/// All groups a by-date report works from are made of well-formed entries
/// on valid days.
proof fn lemma_padded_groups_wf(s: Seq<EntryV>, fill: Fill)
    requires
        entries_wf(s),
    ensures
        forall|k: int|
            0 <= k < padded_groups(s, fill).len() ==> entries_wf(
                (#[trigger] padded_groups(s, fill)[k]).1,
            ) && padded_groups(s, fill)[k].0.valid(),
{
    lemma_dates_of(s);
    let g = by_date_spec(s);
    let ds = dates_of(s);
    assert forall|k: int| 0 <= k < g.len() implies entries_wf((#[trigger] g[k]).1)
        && g[k].0.valid() by {
        assert(g[k] == (ds[k], entries_on(s, ds[k])));
        lemma_entries_on_wf(s, ds[k]);
    }
    let pg = padded_groups(s, fill);
    match fill {
        Fill::Padded => {
            if g.len() > 0 {
                lemma_min_max_key(g);
                let ma = choose|i: int| 0 <= i < g.len() && (#[trigger] g[i]).0 == max_key(g);
                assert(max_key(g).valid());
                let days = crate::date::range_dates(min_key(g), max_key(g));
                crate::date::lemma_range_dates_valid(min_key(g), max_key(g));
                assert forall|k: int| 0 <= k < pg.len() implies entries_wf(
                    (#[trigger] pg[k]).1,
                ) && pg[k].0.valid() by {
                    assert(pg[k] == (days[k], group_value(g, days[k])));
                    lemma_group_value_wf(g, days[k]);
                }
            }
        },
        Fill::Sparse => {},
    }
}

/// The per-project rows of one log, each project with its total.
fn project_rows_vec(log: &Log) -> (es: Vec<(String, u64)>)
    requires
        log.wf(),
    ensures
        rows_view(es@) == project_rows(log@),
{
    let groups = log.by_project();
    let ghost gv = by_project_spec(log@);
    let ghost target = project_rows(log@);
    let mut es: Vec<(String, u64)> = Vec::new();
    proof {
        assert(rows_view(es@) =~= target.take(0));
        assert(project_groups_view(groups@).skip(0) =~= project_groups_view(groups@));
    }
    let mut j: usize = 0;
    let n = groups.len();
    let mut rest = groups;
    while j < n
        invariant
            gv == by_project_spec(log@),
            target == project_rows(log@),
            log.wf(),
            n == gv.len(),
            j <= n,
            project_groups_view(rest@) == gv.skip(j as int),
            rows_view(es@) == target.take(j as int),
        decreases n - j,
    {
        proof {
            assert(project_groups_view(rest@).len() == rest@.len());
            assert(gv.skip(j as int).len() == gv.len() - j);
        }
        let ghost r0 = rest@;
        let (name, lg) = rest.remove(0);
        proof {
            assert(project_groups_view(r0)[0] == (r0[0].0@, r0[0].1@));
            assert(gv.skip(j as int)[0] == (name@, lg@));
            assert(gv[j as int] == (name@, lg@));
            assert(by_project_spec(log@)[j as int] == (
                gv[j as int].0,
                entries_of_project(log@, gv[j as int].0),
            ));
            lemma_entries_of_project_wf(log@, gv[j as int].0);
            crate::timelog::lemma_sum_minutes_nonneg(gv[j as int].1);
            assert(lg.wf());
        }
        let ghost e0 = es@;
        let m = lg.sum_duration();
        es.push((name, m));
        proof {
            assert(target.len() == gv.len());
            assert(rows_view(e0).len() == e0.len());
            assert(e0.len() == j as int);
            assert(target[j as int] == (gv[j as int].0, clamped_minutes(gv[j as int].1) as u64));
            assert forall|k: int| 0 <= k < es@.len() implies rows_view(es@)[k] == target.take(
                j + 1,
            )[k] by {
                assert(rows_view(es@)[k] == (es@[k].0@, es@[k].1));
                if k < j {
                    assert(es@[k] == e0[k]);
                    assert(rows_view(e0)[k] == (e0[k].0@, e0[k].1));
                }
            }
            assert(rows_view(es@) =~= target.take(j + 1));
            r0.remove_ensures(0);
            assert forall|k: int| 0 <= k < rest@.len() implies project_groups_view(rest@)[k]
                == gv.skip(j + 1)[k] by {
                assert(rest@[k] == r0[k + 1]);
                assert(project_groups_view(rest@)[k] == (rest@[k].0@, rest@[k].1@));
                assert(project_groups_view(r0)[k + 1] == (r0[k + 1].0@, r0[k + 1].1@));
                assert(project_groups_view(r0)[k + 1] == gv.skip(j as int)[k + 1]);
            }
            assert(project_groups_view(rest@) =~= gv.skip(j + 1));
        }
        j = j + 1;
    }
    proof {
        assert(target.take(n as int) =~= target);
    }
    es
}

/// The by-date groups, gap-filled when asked, as an executable value.
fn padded_groups_vec(log: &Log, pad: bool) -> (groups: Vec<(Date, Log)>)
    requires
        log.wf(),
    ensures
        groups_view(groups@) == padded_groups(log@, if pad {
            Fill::Padded
        } else {
            Fill::Sparse
        }),
{
    let ghost fill = if pad {
        Fill::Padded
    } else {
        Fill::Sparse
    };
    let mut groups = log.by_date();
    if pad {
        proof {
            lemma_dates_of(log@);
            let ds = dates_of(log@);
            assert(groups_view(groups@).len() == groups@.len());
            assert(by_date_spec(log@).len() == ds.len());
            assert forall|k: int| 0 <= k < groups@.len() implies (#[trigger] groups@[k]).0.valid()
                by {
                assert(groups_view(groups@)[k] == (groups@[k].0, groups@[k].1@));
                assert(by_date_spec(log@)[k] == (ds[k], entries_on(log@, ds[k])));
                assert(groups@[k].0 == ds[k]);
            }
        }
        let ghost g0 = groups_view(groups@);
        let ghost v0 = groups@;
        pad_dates(&mut groups, None);
        proof {
            if v0.len() == 0 {
                assert(g0.len() == 0);
                assert(groups_view(groups@) == padded_groups(log@, fill));
            } else {
                assert(groups_view(groups@) == pad_spec(g0, min_key(g0), max_key(g0)));
            }
        }
    }
    groups
}

impl Report {
    /// The by-date report: one row per date, ascending, each with that
    /// day's total; no grand total.
    pub fn by_date(log: &Log, fill: Fill) -> (r: Report)
        requires
            log.wf(),
        ensures
            r@.title == "By date"@,
            r@.total is None,
            r@.entries == Some(date_rows(padded_groups(log@, fill))),
    {
        let pad = match fill {
            Fill::Padded => true,
            Fill::Sparse => false,
        };
        proof {
            lemma_padded_groups_wf(log@, fill);
        }
        let mut groups = padded_groups_vec(log, pad);
        let ghost pg = padded_groups(log@, fill);
        let ghost target = date_rows(pg);
        let mut es: Vec<(String, u64)> = Vec::new();
        proof {
            assert(rows_view(es@) =~= target.take(0));
            assert(groups_view(groups@).skip(0) =~= groups_view(groups@));
        }
        let n = groups.len();
        let mut j: usize = 0;
        while j < n
            invariant
                pg == padded_groups(log@, fill),
                target == date_rows(pg),
                forall|k: int|
                    0 <= k < pg.len() ==> entries_wf((#[trigger] pg[k]).1) && pg[k].0.valid(),
                n == pg.len(),
                j <= n,
                groups_view(groups@) == pg.skip(j as int),
                rows_view(es@) == target.take(j as int),
            decreases n - j,
        {
            proof {
                assert(groups_view(groups@).len() == groups@.len());
                assert(pg.skip(j as int).len() == pg.len() - j);
            }
            let ghost r0 = groups@;
            let (d, lg) = groups.remove(0);
            proof {
                assert(groups_view(r0)[0] == (r0[0].0, r0[0].1@));
                assert(pg.skip(j as int)[0] == (d, lg@));
                assert(pg[j as int] == (d, lg@));
                crate::timelog::lemma_sum_minutes_nonneg(pg[j as int].1);
                assert(lg.wf());
                assert(d.valid());
            }
            let ghost e0 = es@;
            let t = d.text();
            let m = lg.sum_duration();
            es.push((t, m));
            proof {
                assert(target.len() == pg.len());
                assert(rows_view(e0).len() == e0.len());
                assert(e0.len() == j as int);
                assert(target[j as int] == (pg[j as int].0.text_spec(), clamped_minutes(
                    pg[j as int].1,
                ) as u64));
                assert forall|k: int| 0 <= k < es@.len() implies rows_view(es@)[k] == target.take(
                    j + 1,
                )[k] by {
                    assert(rows_view(es@)[k] == (es@[k].0@, es@[k].1));
                    if k < j {
                        assert(es@[k] == e0[k]);
                        assert(rows_view(e0)[k] == (e0[k].0@, e0[k].1));
                    }
                }
                assert(rows_view(es@) =~= target.take(j + 1));
                r0.remove_ensures(0);
                assert forall|k: int| 0 <= k < groups@.len() implies groups_view(groups@)[k]
                    == pg.skip(j + 1)[k] by {
                    assert(groups@[k] == r0[k + 1]);
                    assert(groups_view(groups@)[k] == (groups@[k].0, groups@[k].1@));
                    assert(groups_view(r0)[k + 1] == (r0[k + 1].0, r0[k + 1].1@));
                    assert(groups_view(r0)[k + 1] == pg.skip(j as int)[k + 1]);
                }
                assert(groups_view(groups@) =~= pg.skip(j + 1));
            }
            j = j + 1;
        }
        proof {
            assert(target.take(n as int) =~= target);
            reveal_strlit("By date");
        }
        Report { title: "By date".to_owned(), entries: Some(es), total: None }
    }

    /// The by-project report: one row per project name, ascending, each
    /// with its total; no grand total.
    pub fn by_project(log: &Log) -> (r: Report)
        requires
            log.wf(),
        ensures
            r@.title == "By project"@,
            r@.total is None,
            r@.entries == Some(project_rows(log@)),
    {
        let es = project_rows_vec(log);
        proof {
            reveal_strlit("By project");
        }
        Report { title: "By project".to_owned(), entries: Some(es), total: None }
    }

    /// The total report: a single grand total and no rows.
    pub fn total(log: &Log) -> (r: Report)
        requires
            log.wf(),
        ensures
            r@.title == "Total"@,
            r@.entries is None,
            r@.total == Some(clamped_minutes(log@) as u64),
    {
        let m = log.clone().sum_duration();
        proof {
            reveal_strlit("Total");
        }
        Report { title: "Total".to_owned(), entries: None, total: Some(m) }
    }

    /// One report per date: the date as its title, the per-project totals
    /// as its rows, and the day's sum as its total.
    pub fn by_date_by_project(log: &Log, fill: Fill) -> (r: Vec<Report>)
        requires
            log.wf(),
        ensures
            reports_view(r@) == date_project_reports(log@, fill),
    {
        let pad = match fill {
            Fill::Padded => true,
            Fill::Sparse => false,
        };
        proof {
            lemma_padded_groups_wf(log@, fill);
        }
        let mut groups = padded_groups_vec(log, pad);
        let ghost pg = padded_groups(log@, fill);
        let ghost target = date_project_reports(log@, fill);
        let mut out: Vec<Report> = Vec::new();
        proof {
            assert(reports_view(out@) =~= target.take(0));
            assert(groups_view(groups@).skip(0) =~= groups_view(groups@));
        }
        let n = groups.len();
        let mut j: usize = 0;
        while j < n
            invariant
                pg == padded_groups(log@, fill),
                target == date_project_reports(log@, fill),
                forall|k: int|
                    0 <= k < pg.len() ==> entries_wf((#[trigger] pg[k]).1) && pg[k].0.valid(),
                n == pg.len(),
                j <= n,
                groups_view(groups@) == pg.skip(j as int),
                reports_view(out@) == target.take(j as int),
            decreases n - j,
        {
            proof {
                assert(groups_view(groups@).len() == groups@.len());
                assert(pg.skip(j as int).len() == pg.len() - j);
            }
            let ghost r0 = groups@;
            let (d, lg) = groups.remove(0);
            proof {
                assert(groups_view(r0)[0] == (r0[0].0, r0[0].1@));
                assert(pg.skip(j as int)[0] == (d, lg@));
                assert(pg[j as int] == (d, lg@));
                crate::timelog::lemma_sum_minutes_nonneg(pg[j as int].1);
                assert(lg.wf());
                assert(d.valid());
            }
            let title = d.text();
            let es = project_rows_vec(&lg);
            let m = lg.sum_duration();
            let rep = Report { title, entries: Some(es), total: Some(m) };
            proof {
                assert(rep@ == target[j as int]);
            }
            let ghost o0 = out@;
            out.push(rep);
            proof {
                assert(target.len() == pg.len());
                assert(reports_view(o0).len() == o0.len());
                assert(o0.len() == j as int);
                assert forall|k: int| 0 <= k < out@.len() implies reports_view(out@)[k]
                    == target.take(j + 1)[k] by {
                    assert(reports_view(out@)[k] == out@[k]@);
                    if k < j {
                        assert(out@[k] == o0[k]);
                        assert(reports_view(o0)[k] == o0[k]@);
                    }
                }
                assert(reports_view(out@) =~= target.take(j + 1));
                r0.remove_ensures(0);
                assert forall|k: int| 0 <= k < groups@.len() implies groups_view(groups@)[k]
                    == pg.skip(j + 1)[k] by {
                    assert(groups@[k] == r0[k + 1]);
                    assert(groups_view(groups@)[k] == (groups@[k].0, groups@[k].1@));
                    assert(groups_view(r0)[k + 1] == (r0[k + 1].0, r0[k + 1].1@));
                    assert(groups_view(r0)[k + 1] == pg.skip(j as int)[k + 1]);
                }
                assert(groups_view(groups@) =~= pg.skip(j + 1));
            }
            j = j + 1;
        }
        proof {
            assert(target.take(n as int) =~= target);
        }
        out
    }

    /// Wraps the report for plain-text rendering.
    pub fn text(self) -> (r: TextReport)
        ensures
            r.0 == self,
    {
        TextReport(self)
    }
}

/// A report ready to be rendered as plain text.
pub struct TextReport(pub Report);

/// The rounding rule of the reports: minutes become hours with two decimal
/// places, rounded half-up, trailing zeros dropped.
pub open spec fn hours_text(m: int) -> Seq<char> {
    let h = (10 * m + 3) / 6;
    dec_seq(h / 100) + (if h % 100 == 0 {
        Seq::empty()
    } else if h % 10 == 0 {
        "."@ + seq![dec_digit(h / 10 % 10)]
    } else {
        "."@ + seq![dec_digit(h % 100 / 10), dec_digit(h % 10)]
    })
}

/// Renders minutes as decimal hours under the report rounding rule.
pub fn format_hours(minutes: u64) -> (r: String)
    ensures
        r@ == hours_text(minutes as int),
{
    proof {
        reveal_strlit(".");
    }
    let h: u128 = (10 * (minutes as u128) + 3) / 6;
    let ip: u128 = h / 100;
    let frac: u8 = (h % 100) as u8;
    let mut s = dec_text(ip);
    if frac != 0 {
        s.append(".");
        s.append(digit_text(frac / 10));
        if frac % 10 != 0 {
            s.append(digit_text(frac % 10));
        }
    }
    assert(s@ =~= hours_text(minutes as int));
    s
}

/// The total across already-aggregated rows, saturating like the sums.
pub open spec fn sum_pair_minutes(v: Seq<(String, u64)>) -> int
    decreases v.len(),
{
    if v.len() == 0 {
        0
    } else {
        sum_pair_minutes(v.drop_last()) + v.last().1
    }
}

/// Sums a row list's minutes without touching the original log.
pub fn sum_pairs(pairs: &Vec<(String, u64)>) -> (r: u64)
    ensures
        r as int == if sum_pair_minutes(pairs@) <= u64::MAX {
            sum_pair_minutes(pairs@)
        } else {
            u64::MAX as int
        },
{
    let ghost pv = pairs@;
    proof {
        assert(pv.take(0) =~= Seq::<(String, u64)>::empty());
    }
    let mut r: u64 = 0;
    let mut i: usize = 0;
    while i < pairs.len()
        invariant
            pv == pairs@,
            i <= pv.len(),
            r as int == if sum_pair_minutes(pv.take(i as int)) <= u64::MAX {
                sum_pair_minutes(pv.take(i as int))
            } else {
                u64::MAX as int
            },
        decreases pv.len() - i,
    {
        proof {
            assert(pv.take(i + 1).drop_last() =~= pv.take(i as int));
            assert(pv.take(i + 1).last() == pv[i as int]);
            lemma_sum_pair_nonneg(pv.take(i as int));
        }
        r = r.saturating_add(pairs[i].1);
        i = i + 1;
    }
    proof {
        assert(pv.take(pv.len() as int) =~= pv);
    }
    r
}

proof fn lemma_sum_pair_nonneg(v: Seq<(String, u64)>)
    ensures
        sum_pair_minutes(v) >= 0,
    decreases v.len(),
{
    if v.len() > 0 {
        lemma_sum_pair_nonneg(v.drop_last());
    }
}

/// The text either passed through or wrapped in the bold escape pair.
pub open spec fn bolded(orig: Seq<char>, out: Seq<char>) -> bool {
    out == orig || out == "\u{1b}[1m"@ + orig + "\u{1b}[0m"@
}

/// Relies on colored's `Colorize::bold` and the `ColoredString` display:
/// with colorizing enabled the text comes back wrapped in the bold escape
/// pair, otherwise unchanged.  Which of the two happens depends on the
/// process environment, so only the disjunction is promised; text free of
/// escapes goes through `escape_inner_reset_sequences` untouched.
#[verifier::external_body]
fn bold(s: &str) -> (r: String)
    requires
        forall|i: int| 0 <= i < s@.len() ==> s@[i] != '\u{1b}',
    ensures
        bolded(s@, r@),
{
    format!("{}", colored::Colorize::bold(s))
}

/// One rendered row per line: `label: hours`.
pub open spec fn rows_text(rows: Seq<(String, u64)>) -> Seq<char>
    decreases rows.len(),
{
    if rows.len() == 0 {
        Seq::empty()
    } else {
        rows_text(rows.drop_last()) + rows[rows.len() - 1].0@ + ": "@ + hours_text(
            rows.last().1 as int,
        ) + "\n"@
    }
}

/// The part of the first line after the title.
pub open spec fn total_tail(total: Option<u64>) -> Seq<char> {
    match total {
        Some(m) => ": "@ + hours_text(m as int),
        None => Seq::empty(),
    }
}

impl TextReport {
    /// Renders the report: the title in bold (where the environment turns
    /// colour on), the grand total on the title line, then one row per
    /// labelled total.
    pub fn to_text(&self) -> (r: String)
        requires
            forall|i: int| 0 <= i < self.0.title@.len() ==> self.0.title@[i] != '\u{1b}',
        ensures
            exists|t: Seq<char>|
                #[trigger] bolded(self.0.title@, t) && r@ == t + total_tail(self.0@.total)
                    + "\n"@ + (match self.0.entries {
                    Some(es) => rows_text(es@),
                    None => Seq::empty(),
                }),
    {
        proof {
            reveal_strlit(": ");
            reveal_strlit("\n");
        }
        let mut s = bold(self.0.title.as_str());
        let ghost tb = s@;
        match self.0.total {
            Some(m) => {
                s.append(": ");
                let hrs = format_hours(m);
                s.append(hrs.as_str());
            },
            None => {},
        }
        s.append("\n");
        let ghost head = tb + total_tail(self.0@.total) + "\n"@;
        proof {
            assert(s@ =~= head);
        }
        match &self.0.entries {
            Some(es) => {
                let mut i: usize = 0;
                proof {
                    assert(rows_text(es@.take(0)) =~= Seq::<char>::empty());
                    assert(s@ =~= head + rows_text(es@.take(0)));
                }
                while i < es.len()
                    invariant
                        i <= es@.len(),
                        s@ == head + rows_text(es@.take(i as int)),
                    decreases es@.len() - i,
                {
                    proof {
                        assert(es@.take(i + 1).drop_last() =~= es@.take(i as int));
                        assert(es@.take(i + 1).last() == es@[i as int]);
                    }
                    s.append(es[i].0.as_str());
                    s.append(": ");
                    let hrs = format_hours(es[i].1);
                    s.append(hrs.as_str());
                    s.append("\n");
                    proof {
                        assert(s@ =~= head + rows_text(es@.take(i + 1)));
                    }
                    i = i + 1;
                }
                proof {
                    assert(es@.take(es@.len() as int) =~= es@);
                }
            },
            None => {},
        }
        proof {
            assert(bolded(self.0.title@, tb));
        }
        s
    }
}

} // verus!
