//! What holds of the collection whatever it is asked to do.

use crate::blocks::BlockData;
use crate::keys::{ascending, lemma_lists_unique, lemma_ordered_keys, ordered_keys};
use crate::lemmas::{
    lemma_candidate_placement, lemma_first_open_slot_is_open, lemma_needed_keeps_order,
    lemma_request_in_bounds,
};
use crate::model::{
    after_drain, after_needed, after_release, blocks_of, drain_count, drained_blocks,
    drained_ranges, first_open_slot, needed_range, range_end, ranges_disjoint, ranges_wf, Ranges,
};
use vstd::prelude::*;

verus! {

/// A request shares no height with a range that cannot take another peer.
pub proof fn law_request_avoids_busy_range<B>(
    m: Ranges<B>,
    limit: u32,
    busy: u64,
    count: nat,
    peer_best: u64,
    common: u64,
)
    requires
        ranges_wf(m),
        ranges_disjoint(m),
        count >= 1,
        peer_best < u64::MAX,
        common < u64::MAX,
        m.contains_key(busy),
        !m[busy].can_share(limit),
        needed_range(m, limit, count, peer_best, common) is Some,
    ensures
        range_end(m, busy) <= needed_range(m, limit, count, peer_best, common)->0.start || needed_range(
            m,
            limit,
            count,
            peer_best,
            common,
        )->0.end <= busy,
{
    lemma_candidate_placement(m, limit, count, common);
    lemma_request_in_bounds(m, limit, count, peer_best, common);
}

/// Two requests in a row, the first of which leaves its range with as many
/// peers as a range may have, are for ranges that share no height.
pub proof fn law_no_double_allocation<B>(
    m: Ranges<B>,
    limit: u32,
    count: nat,
    peer_best: u64,
    common: u64,
    next_count: nat,
    next_peer_best: u64,
    next_common: u64,
)
    requires
        ranges_wf(m),
        ranges_disjoint(m),
        count >= 1,
        peer_best < u64::MAX,
        common < u64::MAX,
        next_count >= 1,
        next_peer_best < u64::MAX,
        next_common < u64::MAX,
        needed_range(m, limit, count, peer_best, common) is Some,
        needed_range(
            after_needed(m, limit, count, peer_best, common),
            limit,
            next_count,
            next_peer_best,
            next_common,
        ) is Some,
        !after_needed(m, limit, count, peer_best, common)[needed_range(
            m,
            limit,
            count,
            peer_best,
            common,
        )->0.start as u64].can_share(limit),
    ensures
        ({
            let r = needed_range(m, limit, count, peer_best, common)->0;
            let s = needed_range(
                after_needed(m, limit, count, peer_best, common),
                limit,
                next_count,
                next_peer_best,
                next_common,
            )->0;
            r.end <= s.start || s.end <= r.start
        }),
{
    let r = needed_range(m, limit, count, peer_best, common)->0;
    let after = after_needed(m, limit, count, peer_best, common);
    lemma_request_in_bounds(m, limit, count, peer_best, common);
    lemma_needed_keeps_order(m, limit, count, peer_best, common);
    assert(after.contains_key(r.start as u64));
    law_request_avoids_busy_range(
        after,
        limit,
        r.start as u64,
        next_count,
        next_peer_best,
        next_common,
    );
}

/// A peer whose best height is not above the common ancestor is asked for
/// nothing, as long as every range begins above the peer's best height.
pub proof fn law_peer_behind_gets_nothing<B>(
    m: Ranges<B>,
    limit: u32,
    count: nat,
    peer_best: u64,
    common: u64,
)
    requires
        peer_best < common + 1,
        common < u64::MAX,
        forall|k: u64| #[trigger] m.contains_key(k) ==> k > peer_best,
    ensures
        needed_range(m, limit, count, peer_best, common) is None,
{
    let ks = ordered_keys(m.dom());
    let i = first_open_slot(m, limit, ks, 0, common + 1);
    lemma_ordered_keys(m.dom());
    lemma_first_open_slot_is_open(m, limit, ks, 0, common + 1);
    if i > 0 {
        assert(ks.contains(ks[i - 1]));
        assert(m.contains_key(ks[i - 1]));
    }
}

/// When a peer gives up a request that it alone was given, the ranges are
/// what they were before the request, so the same request is made again.
pub proof fn law_release_frees_range<B>(
    m: Ranges<B>,
    limit: u32,
    count: nat,
    peer_best: u64,
    common: u64,
)
    requires
        ranges_wf(m),
        count >= 1,
        peer_best < u64::MAX,
        common < u64::MAX,
        needed_range(m, limit, count, peer_best, common) is Some,
        after_needed(m, limit, count, peer_best, common)[needed_range(
            m,
            limit,
            count,
            peer_best,
            common,
        )->0.start as u64].peers() == 1,
    ensures
        ({
            let r = needed_range(m, limit, count, peer_best, common)->0;
            let released = after_release(after_needed(m, limit, count, peer_best, common), r.start as u64);
            &&& released == m
            &&& needed_range(released, limit, count, peer_best, common) == Some(r)
        }),
{
    let r = needed_range(m, limit, count, peer_best, common)->0;
    let ks = ordered_keys(m.dom());
    let i = first_open_slot(m, limit, ks, 0, common + 1);
    lemma_ordered_keys(m.dom());
    lemma_first_open_slot_is_open(m, limit, ks, 0, common + 1);
    lemma_request_in_bounds(m, limit, count, peer_best, common);
    if i > 0 {
        assert(ks.contains(ks[i - 1]));
        assert(m.contains_key(ks[i - 1]));
    }
    if m.contains_key(r.start as u64) {
        assert(ks.contains(r.start as u64));
        let j = choose|j: int| 0 <= j < ks.len() && ks[j] == r.start;
        if i > 0 && j < i - 1 {
            assert(ks[j] < ks[i - 1]);
        }
        if j > i {
            assert(ks[i] < ks[j]);
        }
    }
    let released = after_release(after_needed(m, limit, count, peer_best, common), r.start as u64);
    assert(released =~= m);
}

/// The height that a drain from `from` waits for when it stops: the end of
/// the last range it took, or `from` if it took none.
pub open spec fn drain_reach<B>(m: Ranges<B>, from: u64) -> int {
    let taken = drained_ranges(m, from);
    if taken == 0 {
        from as int
    } else {
        range_end(m, ordered_keys(m.dom())[taken - 1])
    }
}

/// The ranges that a drain takes, counted from the `i`-th on: all of them
/// complete, each beginning no higher than the height waited for, which is
/// `expect` at first and then the end of the range before. The range behind
/// them, if there is one, is not complete or begins above the height waited
/// for.
pub proof fn lemma_drain_run<B>(m: Ranges<B>, ks: Seq<u64>, i: int, expect: int)
    requires
        0 <= i <= ks.len(),
    ensures
        i + drain_count(m, ks, i, expect) <= ks.len(),
        forall|j: int|
            i <= j < i + drain_count(m, ks, i, expect) ==> (#[trigger] m[ks[j]]) is Complete,
        drain_count(m, ks, i, expect) > 0 ==> ks[i] <= expect,
        forall|j: int|
            i < j < i + drain_count(m, ks, i, expect) ==> #[trigger] ks[j] <= range_end(
                m,
                ks[j - 1],
            ),
        ({
            let end = i + drain_count(m, ks, i, expect);
            let reach = if end == i {
                expect
            } else {
                range_end(m, ks[end - 1])
            };
            end < ks.len() ==> !(m[ks[end]] is Complete) || ks[end] > reach
        }),
    decreases ks.len() - i,
{
    if i < ks.len() && m[ks[i]] is Complete && ks[i] <= expect {
        lemma_drain_run(m, ks, i + 1, range_end(m, ks[i]));
    }
}

/// What a drain hands out are the blocks of the leading ranges, in the order
/// of their heights: each of these ranges is complete, the first begins no
/// higher than `from`, each other one no higher than the one before it ends,
/// and the range that follows them is not complete or begins above the end of
/// the last.
pub proof fn law_drain_takes_leading_run<B>(m: Ranges<B>, from: u64)
    ensures
        ({
            let ks = ordered_keys(m.dom());
            let taken = drained_ranges(m, from);
            &&& taken <= ks.len()
            &&& drained_blocks(m, from) == blocks_of(m, ks, taken)
            &&& forall|j: int| 0 <= j < taken ==> (#[trigger] m[ks[j]]) is Complete
            &&& taken > 0 ==> ks[0] <= from
            &&& forall|j: int| 0 < j < taken ==> #[trigger] ks[j] <= range_end(m, ks[j - 1])
            &&& taken < ks.len() ==> !(m[ks[taken as int]] is Complete) || ks[taken as int]
                > drain_reach(m, from)
        }),
{
    lemma_drain_run(m, ordered_keys(m.dom()), 0, from as int);
}

/// Where the ranges are disjoint, a drain leaves no height out: each range it
/// takes begins at the height where the one before ended.
pub proof fn law_drain_is_gap_free<B>(m: Ranges<B>, from: u64)
    requires
        ranges_disjoint(m),
    ensures
        ({
            let ks = ordered_keys(m.dom());
            forall|j: int|
                0 < j < drained_ranges(m, from) ==> #[trigger] ks[j] == range_end(m, ks[j - 1])
        }),
{
    let ks = ordered_keys(m.dom());
    lemma_ordered_keys(m.dom());
    lemma_drain_run(m, ks, 0, from as int);
    assert forall|j: int| 0 < j < drained_ranges(m, from) implies #[trigger] ks[j] == range_end(
        m,
        ks[j - 1],
    ) by {
        assert(ks.contains(ks[j]));
        assert(ks.contains(ks[j - 1]));
        assert(m.contains_key(ks[j]) && m.contains_key(ks[j - 1]));
        assert(ks[j - 1] < ks[j]);
    }
}

/// The ranges that a drain leaves are those behind the ones it took.
pub proof fn lemma_keys_after_drain<B>(m: Ranges<B>, from: u64)
    ensures
        ordered_keys(after_drain(m, from).dom()) == ordered_keys(m.dom()).skip(
            drained_ranges(m, from) as int,
        ),
        forall|k: u64| #[trigger]
            after_drain(m, from).contains_key(k) ==> m.contains_key(k) && after_drain(m, from)[k]
                == m[k],
{
    let ks = ordered_keys(m.dom());
    let taken = drained_ranges(m, from) as int;
    let left = ks.skip(taken);
    let after = after_drain(m, from);
    lemma_ordered_keys(m.dom());
    lemma_drain_run(m, ks, 0, from as int);
    assert(ascending(left)) by {
        assert forall|i: int, j: int| 0 <= i < j < left.len() implies left[i] < left[j] by {
            assert(left[i] == ks[i + taken] && left[j] == ks[j + taken]);
        }
    }
    assert forall|k: u64| after.dom().contains(k) <==> left.contains(k) by {
        if after.dom().contains(k) {
            assert(ks.contains(k));
            let j = choose|j: int| 0 <= j < ks.len() && ks[j] == k;
            if j < taken {
                assert(ks.take(taken)[j] == k);
                assert(ks.take(taken).contains(k));
            }
            assert(left[j - taken] == k);
        }
        if left.contains(k) {
            let j = choose|j: int| 0 <= j < left.len() && left[j] == k;
            assert(ks[j + taken] == k);
            assert(ks.contains(k));
            if ks.take(taken).contains(k) {
                let i = choose|i: int| 0 <= i < taken && ks.take(taken)[i] == k;
                assert(ks[i] < ks[j + taken]);
            }
        }
    }
    lemma_lists_unique(left, after.dom());
}

/// A second drain from the same height takes something only where the first
/// one stopped below that height, before a complete range that begins above
/// the height the first had reached, yet no higher than `from`.
pub proof fn law_second_drain<B>(m: Ranges<B>, from: u64)
    ensures
        ({
            let ks = ordered_keys(m.dom());
            let taken = drained_ranges(m, from) as int;
            drained_ranges(after_drain(m, from), from) > 0 <==> {
                &&& taken < ks.len()
                &&& m[ks[taken]] is Complete
                &&& drain_reach(m, from) < ks[taken] <= from
            }
        }),
{
    let ks = ordered_keys(m.dom());
    let taken = drained_ranges(m, from) as int;
    let after = after_drain(m, from);
    lemma_drain_run(m, ks, 0, from as int);
    lemma_keys_after_drain(m, from);
    lemma_ordered_keys(after.dom());
    let left = ordered_keys(after.dom());
    if taken < ks.len() {
        assert(left[0] == ks[taken]);
        assert(left.contains(left[0]));
        assert(after.contains_key(ks[taken]));
    }
}

/// A drain that reached the height it was asked from has left nothing for a
/// second drain from that height.
pub proof fn law_drain_again_is_empty<B>(m: Ranges<B>, from: u64)
    requires
        drain_reach(m, from) >= from,
    ensures
        drained_ranges(after_drain(m, from), from) == 0,
        drained_blocks(after_drain(m, from), from) == Seq::<BlockData<B>>::empty(),
{
    law_second_drain(m, from);
}

} // verus!
