//! Facts about the model that the operations and the laws rest on.

use crate::keys::{lemma_ordered_keys, lists, ordered_keys};
use crate::model::{
    after_needed, candidate, first_open_slot, needed_range, range_end, ranges_disjoint, ranges_wf,
    slot_open, with_request, Ranges, Request,
};
use vstd::prelude::*;

verus! {

/// No range holds a height of `r`.
pub open spec fn request_is_free<B>(m: Ranges<B>, r: Request) -> bool {
    forall|k: u64| #[trigger] m.contains_key(k) ==> range_end(m, k) <= r.start || r.end <= k
}

/// `r` asks again for the whole of a range that may be shared.
pub open spec fn request_is_shared<B>(m: Ranges<B>, limit: u32, r: Request) -> bool {
    &&& 0 <= r.start <= u64::MAX
    &&& m.contains_key(r.start as u64)
    &&& m[r.start as u64].can_share(limit)
    &&& m[r.start as u64].peers() == r.shared
    &&& r.end == range_end(m, r.start as u64)
}

/// The first open slot from `from` on is open, and the slots between are
/// shut.
pub proof fn lemma_first_open_slot_is_open<B>(
    m: Ranges<B>,
    limit: u32,
    ks: Seq<u64>,
    from: int,
    first: int,
)
    requires
        0 <= from <= ks.len(),
    ensures
        from <= first_open_slot(m, limit, ks, from, first) <= ks.len(),
        from == 0 || first_open_slot(m, limit, ks, from, first) < ks.len() ==> slot_open(
            m,
            limit,
            ks,
            first_open_slot(m, limit, ks, from, first),
            first,
        ),
        forall|j: int|
            from <= j < first_open_slot(m, limit, ks, from, first) ==> !#[trigger] slot_open(
                m,
                limit,
                ks,
                j,
                first,
            ),
    decreases ks.len() - from,
{
    if from < ks.len() && !slot_open(m, limit, ks, from, first) {
        lemma_first_open_slot_is_open(m, limit, ks, from + 1, first);
    }
}

/// Of two ranges of a disjoint collection, the one that comes first in the
/// order of the keys ends before the other begins.
pub proof fn lemma_earlier_ends_first<B>(m: Ranges<B>, ks: Seq<u64>, a: int, b: int)
    requires
        lists(ks, m.dom()),
        ranges_disjoint(m),
        0 <= a < b < ks.len(),
    ensures
        range_end(m, ks[a]) <= ks[b],
{
    assert(ks.contains(ks[a]));
    assert(ks.contains(ks[b]));
    assert(m.contains_key(ks[a]) && m.contains_key(ks[b]));
}

/// Where the ranges are disjoint, the candidate is not empty, and it either
/// lies clear of every range or asks again for a range that may be shared.
pub proof fn lemma_candidate_placement<B>(m: Ranges<B>, limit: u32, count: nat, common: u64)
    requires
        ranges_wf(m),
        ranges_disjoint(m),
        count >= 1,
        common < u64::MAX,
    ensures
        0 <= candidate(m, limit, count, common).start < candidate(m, limit, count, common).end,
        candidate(m, limit, count, common).start <= u64::MAX,
        if candidate(m, limit, count, common).shared > 0 {
            request_is_shared(m, limit, candidate(m, limit, count, common))
        } else {
            request_is_free(m, candidate(m, limit, count, common))
        },
{
    let ks = ordered_keys(m.dom());
    let first = common + 1;
    let i = first_open_slot(m, limit, ks, 0, first);
    let c = candidate(m, limit, count, common);
    lemma_ordered_keys(m.dom());
    lemma_first_open_slot_is_open(m, limit, ks, 0, first);
    if i == 0 {
        assert forall|k: u64| #[trigger] m.contains_key(k) implies range_end(m, k) <= c.start
            || c.end <= k by {
            assert(ks.contains(k));
            let j = choose|j: int| 0 <= j < ks.len() && ks[j] == k;
            assert(ks[0] <= ks[j]);
        }
    } else {
        let before = ks[i - 1];
        assert(ks.contains(before));
        assert(m.contains_key(before));
        if !m[before].can_share(limit) {
            assert forall|k: u64| #[trigger] m.contains_key(k) implies range_end(m, k) <= c.start
                || c.end <= k by {
                assert(ks.contains(k));
                let j = choose|j: int| 0 <= j < ks.len() && ks[j] == k;
                if j < i - 1 {
                    lemma_earlier_ends_first(m, ks, j, i - 1);
                } else if j >= i {
                    assert(ks[i] <= ks[j]);
                }
            }
        }
    }
}

/// A request leaves the ranges well formed, and disjoint if they were.
pub proof fn lemma_needed_keeps_order<B>(
    m: Ranges<B>,
    limit: u32,
    count: nat,
    peer_best: u64,
    common: u64,
)
    requires
        ranges_wf(m),
        count >= 1,
        peer_best < u64::MAX,
        common < u64::MAX,
    ensures
        ranges_wf(after_needed(m, limit, count, peer_best, common)),
        ranges_disjoint(m) ==> ranges_disjoint(after_needed(m, limit, count, peer_best, common)),
{
    lemma_request_in_bounds(m, limit, count, peer_best, common);
    if let Some(r) = needed_range(m, limit, count, peer_best, common) {
        let after = with_request(m, r);
        assert forall|k: u64| #[trigger] after.contains_key(k) implies {
            &&& after[k].len() >= 1
            &&& range_end(after, k) <= u64::MAX
            &&& (after[k] is Downloading ==> after[k].peers() >= 1)
        } by {
            if k != r.start {
                assert(m.contains_key(k));
            }
        }
        if ranges_disjoint(m) {
            lemma_candidate_placement(m, limit, count, common);
            assert forall|a: u64, b: u64|
                #![trigger after.contains_key(a), after.contains_key(b)]
                after.contains_key(a) && after.contains_key(b) && a < b implies range_end(after, a)
                <= b by {
                if a != r.start {
                    assert(m.contains_key(a));
                }
                if b != r.start {
                    assert(m.contains_key(b));
                }
            }
        }
    }
}

/// A request is not empty, begins at the candidate's start and ends no
/// higher than the candidate nor than the height just past the peer's best.
/// Unless it shares a range, it asks for no more heights than `count`.
pub proof fn lemma_request_in_bounds<B>(
    m: Ranges<B>,
    limit: u32,
    count: nat,
    peer_best: u64,
    common: u64,
)
    requires
        ranges_wf(m),
        count >= 1,
        peer_best < u64::MAX,
        common < u64::MAX,
    ensures
        needed_range(m, limit, count, peer_best, common) matches Some(r) ==> {
            &&& 0 <= r.start < r.end <= peer_best + 1
            &&& r.start == candidate(m, limit, count, common).start
            &&& r.end <= candidate(m, limit, count, common).end
            &&& r.shared == candidate(m, limit, count, common).shared
            &&& r.shared < u32::MAX
            &&& r.shared == 0 ==> r.end - r.start <= count
        },
{
    let ks = ordered_keys(m.dom());
    let first = common + 1;
    let i = first_open_slot(m, limit, ks, 0, first);
    lemma_ordered_keys(m.dom());
    lemma_first_open_slot_is_open(m, limit, ks, 0, first);
    if i > 0 {
        assert(ks.contains(ks[i - 1]));
        assert(m.contains_key(ks[i - 1]));
    }
}

} // verus!
