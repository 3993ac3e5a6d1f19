//! The availability reconciler: joins one occupancy record against the
//! directory under the walk-up window rule, clamps overbooking, and drops
//! empty availability.
use vstd::prelude::*;

use crate::api::{Trailhead, TrailheadV, Trailheads};
use crate::date::Date;
use crate::text::str_eq;

verus! {

/// Days ahead of the reference date within which walk-up capacity applies.
pub const WALK_UP_WINDOW_DAYS: i64 = 15;

/// The record of the last directory entry with this identifier.
pub open spec fn spec_dir_lookup(entries: Seq<(Seq<char>, TrailheadV)>, id: Seq<char>) -> Option<
    TrailheadV,
>
    decreases entries.len(),
{
    if entries.len() == 0 {
        None
    } else if entries.last().0 == id {
        Some(entries.last().1)
    } else {
        spec_dir_lookup(entries.drop_last(), id)
    }
}

/// The capacity bound the window rule selects: the walk-up quota for dates
/// more than fifteen days past the reference date, the full capacity
/// otherwise.
pub open spec fn spec_bound(th: TrailheadV, date: Date, today: Date) -> u8 {
    if date.spec_day_number() - today.spec_day_number() > WALK_UP_WINDOW_DAYS {
        th.quota
    } else {
        th.capacity
    }
}

/// The availability a bound and an occupancy leave: occupancy clamped to
/// the bound, so the result is never negative.
pub open spec fn spec_availability(bound: u8, occupancy: u8) -> u8 {
    if occupancy < bound {
        (bound - occupancy) as u8
    } else {
        0
    }
}

/// What reconciling one occupancy record yields: nothing when the
/// identifier is not in the directory or no availability remains, the
/// dated, named availability otherwise.
pub open spec fn spec_reconcile(
    dir: crate::api::DirectoryV,
    date: Date,
    id: Seq<char>,
    occupancy: u8,
    today: Date,
) -> Option<(Date, Seq<char>, u8)> {
    match spec_dir_lookup(dir.entries, id) {
        None => None,
        Some(th) => {
            let avail = spec_availability(spec_bound(th, date, today), occupancy);
            if avail > 0 {
                Some((date, th.name, avail))
            } else {
                None
            }
        },
    }
}

/// The last directory entry with this identifier, scanning from the end.
pub fn dir_get<'a>(dir: &'a Trailheads, id: &str) -> (r: Option<&'a Trailhead>)
    ensures
        match r {
            Some(th) => spec_dir_lookup(dir@.entries, id@) == Some(th@),
            None => spec_dir_lookup(dir@.entries, id@) is None,
        },
{
    let ghost full = dir@.entries;
    let mut cur = dir.values.len();
    proof {
        assert(full.take(dir.values@.len() as int) =~= full);
    }
    while cur > 0
        invariant
            cur <= dir.values@.len(),
            full == dir@.entries,
            spec_dir_lookup(full, id@) == spec_dir_lookup(full.take(cur as int), id@),
        decreases cur,
    {
        let p = &dir.values[cur - 1];
        proof {
            assert(full.take(cur as int).last() == full[cur - 1]);
            assert(full[cur - 1] == (dir.values@[cur - 1].0@, dir.values@[cur - 1].1@));
            assert(full.take(cur as int).drop_last() =~= full.take(cur - 1));
        }
        if str_eq(p.0.as_str(), id) {
            return Some(&p.1);
        }
        cur = cur - 1;
    }
    proof {
        assert(full.take(0).len() == 0);
    }
    None
}

/// Reconciles one occupancy record against the directory: looks the
/// identifier up, selects the bound by the walk-up window, clamps the
/// occupancy, and keeps only positive availability.
pub fn reconcile(dir: &Trailheads, date: Date, id: &str, occupancy: u8, today: Date) -> (r: Option<
    (Date, String, u8),
>)
    requires
        date.wf(),
        today.wf(),
    ensures
        match r {
            Some(t) => spec_reconcile(dir@, date, id@, occupancy, today) == Some(
                (t.0, t.1@, t.2),
            ),
            None => spec_reconcile(dir@, date, id@, occupancy, today) is None,
        },
        r matches Some(t) ==> t.2 > 0,
{
    let th = match dir_get(dir, id) {
        Some(th) => th,
        None => {
            return None;
        },
    };
    let diff = date.day_number() - today.day_number();
    let bound = if diff > WALK_UP_WINDOW_DAYS {
        th.quota
    } else {
        th.capacity
    };
    let availability = if occupancy < bound {
        bound - occupancy
    } else {
        0
    };
    if availability > 0 {
        Some((date, th.name.clone(), availability))
    } else {
        None
    }
}

/// An identifier absent from the directory yields no entry, whatever the
/// occupancy.
pub proof fn lemma_unknown_id_dropped(
    dir: crate::api::DirectoryV,
    date: Date,
    id: Seq<char>,
    occupancy: u8,
    today: Date,
)
    requires
        spec_dir_lookup(dir.entries, id) is None,
    ensures
        spec_reconcile(dir, date, id, occupancy, today) is None,
{
}

/// Every reconciled entry carries strictly positive availability.
pub proof fn lemma_availability_positive(
    dir: crate::api::DirectoryV,
    date: Date,
    id: Seq<char>,
    occupancy: u8,
    today: Date,
)
    ensures
        match spec_reconcile(dir, date, id, occupancy, today) {
            Some(t) => t.2 > 0,
            None => true,
        },
{
}

/// The window rule: more than fifteen days past the reference date the
/// bound is the walk-up quota, within the window it is the capacity.
pub proof fn lemma_capacity_window(th: TrailheadV, date: Date, today: Date)
    ensures
        date.spec_day_number() - today.spec_day_number() > WALK_UP_WINDOW_DAYS ==> spec_bound(
            th,
            date,
            today,
        ) == th.quota,
        date.spec_day_number() - today.spec_day_number() <= WALK_UP_WINDOW_DAYS ==> spec_bound(
            th,
            date,
            today,
        ) == th.capacity,
{
}

/// Clamping: occupancy at or above the bound leaves no availability, and
/// the entry is dropped; zero occupancy leaves the whole bound.
pub proof fn lemma_clamp(
    dir: crate::api::DirectoryV,
    date: Date,
    id: Seq<char>,
    occupancy: u8,
    today: Date,
)
    requires
        spec_dir_lookup(dir.entries, id) matches Some(th),
    ensures
        (spec_dir_lookup(dir.entries, id) matches Some(th) && occupancy >= spec_bound(
            th,
            date,
            today,
        )) ==> spec_reconcile(dir, date, id, occupancy, today) is None,
        occupancy == 0 ==> spec_availability(
            spec_bound(spec_dir_lookup(dir.entries, id)->Some_0, date, today),
            occupancy,
        ) == spec_bound(spec_dir_lookup(dir.entries, id)->Some_0, date, today),
{
}

} // verus!
