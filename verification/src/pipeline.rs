//! The run's compute pipeline: distinct regions from the directory, and the
//! final table from the directory, the fetched reports and the reference
//! date. Fetching itself is the caller's: these functions take the decoded
//! payloads as values.
use vstd::prelude::*;

use crate::api::{DirectoryV, ReportDate, ReportDateV, Trailheads};
use crate::date::Date;
use crate::reconcile::{reconcile, spec_reconcile};
use crate::table::{aggregate, spec_lookup, trows_view, ResultTable, RowV};
use crate::text::str_eq;

verus! {

/// Is this region name carried by some directory entry?
pub open spec fn entry_region(dir: crate::api::DirectoryV, x: Seq<char>) -> bool {
    exists|m: int|
        0 <= m < dir.entries.len() && (#[trigger] dir.entries[m]).1.region == Some(x)
}

/// Is this region name among the first `n` collected ones?
pub open spec fn region_listed(rs: Seq<String>, n: int, x: Seq<char>) -> bool {
    exists|i: int| 0 <= i < n && i < rs.len() && (#[trigger] rs[i])@ == x
}

fn contains_str(v: &Vec<String>, s: &str) -> (r: bool)
    ensures
        r == region_listed(v@, v@.len() as int, s@),
{
    let mut i: usize = 0;
    while i < v.len()
        invariant
            i <= v@.len(),
            forall|m: int| 0 <= m < i ==> (#[trigger] v@[m])@ != s@,
        decreases v@.len() - i,
    {
        if str_eq(v[i].as_str(), s) {
            return true;
        }
        i = i + 1;
    }
    false
}

/// The distinct region codes of the directory, in first-appearance order:
/// no repeats, every listed region is some entry's, and every entry's
/// region is listed.
pub fn regions_of(dir: &Trailheads) -> (r: Vec<String>)
    ensures
        forall|i: int, j: int| 0 <= i < j < r@.len() ==> (#[trigger] r@[i])@ != (#[trigger] r@[j])@,
        forall|i: int| 0 <= i < r@.len() ==> entry_region(dir@, (#[trigger] r@[i])@),
        forall|m: int|
            0 <= m < dir@.entries.len() ==> match (#[trigger] dir@.entries[m]).1.region {
                Some(x) => region_listed(r@, r@.len() as int, x),
                None => true,
            },
{
    let mut out: Vec<String> = Vec::new();
    let mut m: usize = 0;
    while m < dir.values.len()
        invariant
            m <= dir.values@.len(),
            forall|i: int, j: int|
                0 <= i < j < out@.len() ==> (#[trigger] out@[i])@ != (#[trigger] out@[j])@,
            forall|i: int| 0 <= i < out@.len() ==> entry_region(dir@, (#[trigger] out@[i])@),
            forall|e: int|
                0 <= e < m ==> match (#[trigger] dir@.entries[e]).1.region {
                    Some(x) => region_listed(out@, out@.len() as int, x),
                    None => true,
                },
        decreases dir.values@.len() - m,
    {
        let p = &dir.values[m];
        proof {
            assert(dir@.entries[m as int] == (dir.values@[m as int].0@, dir.values@[m as int].1@));
        }
        let ghost out_pre = out@;
        match &p.1.region {
            Some(reg) => {
                if !contains_str(&out, reg.as_str()) {
                    out.push(reg.clone());
                    proof {
                        assert(out@ =~= out_pre.push(dir.values@[m as int].1.region->Some_0));
                        assert((out@[out@.len() - 1])@ == reg@);
                        assert(dir@.entries[m as int].1.region == Some(reg@));
                        assert(entry_region(dir@, reg@));
                        assert forall|i: int|
                            0 <= i < out@.len() implies entry_region(
                            dir@,
                            (#[trigger] out@[i])@,
                        ) by {
                            if i < out_pre.len() {
                                assert(out@[i] == out_pre[i]);
                            } else {
                                assert((out@[i])@ == reg@);
                            }
                        }
                        assert forall|e: int|
                            0 <= e < m + 1 implies match (#[trigger] dir@.entries[e]).1.region {
                            Some(x) => region_listed(out@, out@.len() as int, x),
                            None => true,
                        } by {
                            if e < m {
                                match dir@.entries[e].1.region {
                                    Some(x) => {
                                        let i = choose|i: int|
                                            0 <= i < out_pre.len() && (#[trigger] out_pre[i])@
                                                == x;
                                        assert((out@[i])@ == x);
                                    },
                                    None => {},
                                }
                            } else {
                                assert((out@[out@.len() - 1])@ == dir@.entries[
                                e].1.region->Some_0);
                            }
                        }
                    }
                } else {
                    proof {
                        assert(region_listed(out@, out@.len() as int, reg@));
                    }
                }
            },
            None => {},
        }
        m = m + 1;
    }
    out
}

/// The reconciled entries of one row's occupancies, first `i` of them.
pub open spec fn spec_row_entries(
    dir: DirectoryV,
    date: Date,
    vals: Seq<(Seq<char>, u8)>,
    today: Date,
    i: int,
) -> Seq<RowV>
    decreases i,
{
    if i <= 0 || i > vals.len() {
        Seq::empty()
    } else {
        let rest = spec_row_entries(dir, date, vals, today, i - 1);
        match spec_reconcile(dir, date, vals[i - 1].0, vals[i - 1].1, today) {
            Some(t) => rest.push(t),
            None => rest,
        }
    }
}

/// The reconciled entries of one report's first `i` rows.
pub open spec fn spec_report_entries(
    dir: DirectoryV,
    rds: Seq<ReportDateV>,
    today: Date,
    i: int,
) -> Seq<RowV>
    decreases i,
{
    if i <= 0 || i > rds.len() {
        Seq::empty()
    } else {
        spec_report_entries(dir, rds, today, i - 1) + spec_row_entries(
            dir,
            rds[i - 1].date,
            rds[i - 1].values,
            today,
            rds[i - 1].values.len() as int,
        )
    }
}

/// The reconciled entries of the first `i` reports.
pub open spec fn spec_all_entries(
    dir: DirectoryV,
    reports: Seq<Seq<ReportDateV>>,
    today: Date,
    i: int,
) -> Seq<RowV>
    decreases i,
{
    if i <= 0 || i > reports.len() {
        Seq::empty()
    } else {
        spec_all_entries(dir, reports, today, i - 1) + spec_report_entries(
            dir,
            reports[i - 1],
            today,
            reports[i - 1].len() as int,
        )
    }
}

/// The models of a sequence of reports.
pub open spec fn reports_view(q: Seq<Vec<ReportDate>>) -> Seq<Seq<ReportDateV>> {
    Seq::new(
        q.len(),
        |i: int|
            if 0 <= i < q.len() {
                crate::api::rds_view(q[i]@)
            } else {
                Seq::empty()
            },
    )
}

/// Every date of every row of every report is a real calendar date.
pub open spec fn reports_dates_wf(reports: Seq<Seq<ReportDateV>>) -> bool {
    forall|i: int, j: int|
        0 <= i < reports.len() && 0 <= j < reports[i].len() ==> (#[trigger] reports[i][j]).date.wf()
}

/// Reconciles every report row's occupancies against the directory and
/// aggregates the entries into the final ordered table. A key finds in the
/// table exactly what it finds in the reconciled entries, later reports
/// overwriting earlier ones; every row of the table is a reconciled entry,
/// so its availability is positive.
pub fn build_table(dir: &Trailheads, reports: &Vec<Vec<ReportDate>>, today: Date) -> (r:
    ResultTable)
    requires
        today.wf(),
        reports_dates_wf(reports_view(reports@)),
    ensures
        r.wf(),
        forall|k: (Date, Seq<char>)| #[trigger]
            spec_lookup(r@, k) == spec_lookup(
                spec_all_entries(dir@, reports_view(reports@), today, reports@.len() as int),
                k,
            ),
        forall|i: int| 0 <= i < r@.len() ==> (#[trigger] r@[i]).2 > 0,
{
    let ghost rv = reports_view(reports@);
    let mut entries: Vec<(Date, String, u8)> = Vec::new();
    let mut i: usize = 0;
    proof {
        assert(trows_view(entries@) =~= Seq::<RowV>::empty());
    }
    while i < reports.len()
        invariant
            i <= reports@.len(),
            rv == reports_view(reports@),
            today.wf(),
            reports_dates_wf(rv),
            trows_view(entries@) == spec_all_entries(dir@, rv, today, i as int),
            forall|m: int| 0 <= m < entries@.len() ==> (#[trigger] entries@[m]).2 > 0,
        decreases reports@.len() - i,
    {
        let report = &reports[i];
        proof {
            assert(rv[i as int] == crate::api::rds_view(reports@[i as int]@));
        }
        let mut j: usize = 0;
        while j < report.len()
            invariant
                i < reports@.len(),
                j <= report@.len(),
                report == &reports@[i as int],
                rv == reports_view(reports@),
                rv[i as int] == crate::api::rds_view(report@),
                today.wf(),
                reports_dates_wf(rv),
                trows_view(entries@) == spec_all_entries(dir@, rv, today, i as int)
                    + spec_report_entries(dir@, rv[i as int], today, j as int),
                forall|m: int| 0 <= m < entries@.len() ==> (#[trigger] entries@[m]).2 > 0,
            decreases report@.len() - j,
        {
            let rd = &report[j];
            proof {
                assert(rv[i as int][j as int] == reports@[i as int]@[j as int]@);
                assert(rv[i as int][j as int].date.wf());
            }
            let mut n: usize = 0;
            while n < rd.values.len()
                invariant
                    i < reports@.len(),
                    j < report@.len(),
                    n <= rd.values@.len(),
                    report == &reports@[i as int],
                    rd == &report@[j as int],
                    rv == reports_view(reports@),
                    rv[i as int] == crate::api::rds_view(report@),
                    rv[i as int][j as int] == rd@,
                    today.wf(),
                    reports_dates_wf(rv),
                    rd.date.wf(),
                    trows_view(entries@) == spec_all_entries(dir@, rv, today, i as int)
                        + spec_report_entries(dir@, rv[i as int], today, j as int)
                        + spec_row_entries(dir@, rd.date, rd@.values, today, n as int),
                    forall|m: int| 0 <= m < entries@.len() ==> (#[trigger] entries@[m]).2 > 0,
                decreases rd.values@.len() - n,
            {
                let p = &rd.values[n];
                proof {
                    assert(rd@.values[n as int] == (rd.values@[n as int].0@, rd.values@[
                    n as int].1));
                }
                let ghost epre = entries@;
                match reconcile(dir, rd.date, p.0.as_str(), p.1, today) {
                    Some(t) => {
                        entries.push(t);
                        proof {
                            assert(trows_view(entries@) =~= trows_view(epre).push(
                                (entries@[entries@.len() - 1].0, entries@[entries@.len()
                                    - 1].1@, entries@[entries@.len() - 1].2),
                            ));
                        }
                    },
                    None => {},
                }
                n = n + 1;
            }
            j = j + 1;
            proof {
                assert(spec_report_entries(dir@, rv[i as int], today, j as int)
                    == spec_report_entries(dir@, rv[i as int], today, j - 1) + spec_row_entries(
                    dir@,
                    rv[i as int][j - 1].date,
                    rv[i as int][j - 1].values,
                    today,
                    rv[i as int][j - 1].values.len() as int,
                ));
                assert(trows_view(entries@) =~= spec_all_entries(dir@, rv, today, i as int)
                    + spec_report_entries(dir@, rv[i as int], today, j as int));
            }
        }
        i = i + 1;
        proof {
            assert(spec_all_entries(dir@, rv, today, i as int) == spec_all_entries(
                dir@,
                rv,
                today,
                i - 1,
            ) + spec_report_entries(dir@, rv[i - 1], today, rv[i - 1].len() as int));
            assert(trows_view(entries@) =~= spec_all_entries(dir@, rv, today, i as int));
        }
    }
    let t = aggregate(&entries);
    proof {
        assert forall|m: int| 0 <= m < t@.len() implies (#[trigger] t@[m]).2 > 0 by {
            assert(trows_view(entries@).contains(t@[m]));
            let w = choose|w: int|
                0 <= w < trows_view(entries@).len() && trows_view(entries@)[w] == t@[m];
            assert(entries@[w].2 == t@[m].2);
        }
    }
    t
}

} // verus!
