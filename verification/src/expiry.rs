//! The retention-driven expiry policy: an entry whose age strictly exceeds
//! the retention threshold is purged, file and record both. `delete_after` is
//! counted in days here; the comparison itself works in milliseconds, the
//! unit of the recorded timestamps.

use vstd::prelude::*;

use crate::record::TrashEntry;

verus! {

/// Milliseconds in one day, the unit `delete_after` is converted from.
pub const MILLIS_PER_DAY: u64 = 86400000;

/// The retention threshold in milliseconds: `days` whole days, saturated at
/// the largest representable span where the product would not fit.
pub fn retention_millis(days: u64) -> (r: u64)
    ensures
        r as int == if days * MILLIS_PER_DAY <= u64::MAX {
            days * MILLIS_PER_DAY
        } else {
            u64::MAX as int
        },
{
    match days.checked_mul(MILLIS_PER_DAY) {
        Some(v) => v,
        None => u64::MAX,
    }
}

/// Whether an entry added at `added_at` is expired at `now`: its age strictly
/// exceeds the threshold. A timestamp from the future is not expired.
pub open spec fn expired(now: u64, added_at: u64, threshold: u64) -> bool {
    now - added_at > threshold
}

/// The expiry decision for one entry.
pub fn is_expired(now: u64, added_at: u64, threshold: u64) -> (r: bool)
    ensures
        r == expired(now, added_at, threshold),
{
    added_at < now && now - added_at > threshold
}

/// One sweep pass decision: the indices of exactly those entries whose age
/// exceeds the threshold, in order. The caller deletes both the stored file
/// and the record of each.
pub fn select_expired(entries: &Vec<TrashEntry>, now: u64, threshold: u64) -> (r: Vec<usize>)
    ensures
        forall|m: int, n: int| 0 <= m < n < r@.len() ==> r@[m] < r@[n],
        forall|m: int|
            0 <= m < r@.len() ==> r@[m] < entries@.len() && expired(
                now,
                entries@[r@[m] as int].added_at,
                threshold,
            ),
        forall|i: int|
            0 <= i < entries@.len() && expired(now, entries@[i].added_at, threshold)
                ==> exists|m: int| 0 <= m < r@.len() && r@[m] == i,
{
    let mut r: Vec<usize> = Vec::new();
    let mut i: usize = 0;
    while i < entries.len()
        invariant
            i <= entries@.len(),
            forall|m: int, n: int| 0 <= m < n < r@.len() ==> r@[m] < r@[n],
            forall|m: int|
                0 <= m < r@.len() ==> r@[m] < i && expired(
                    now,
                    entries@[r@[m] as int].added_at,
                    threshold,
                ),
            forall|j: int|
                0 <= j < i && expired(now, entries@[j].added_at, threshold) ==> exists|m: int|
                    0 <= m < r@.len() && r@[m] == j,
        decreases entries@.len() - i,
    {
        if is_expired(now, entries[i].added_at, threshold) {
            let ghost pre = r@;
            r.push(i);
            proof {
                assert(r@[r@.len() - 1] == i as usize);
                assert(forall|m: int| 0 <= m < pre.len() ==> r@[m] == pre[m]);
            }
        }
        i += 1;
    }
    r
}

} // verus!
