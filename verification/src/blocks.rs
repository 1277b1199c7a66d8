//! The ranges of blocks that a node is fetching from its peers: which heights
//! to ask of whom, what has arrived, and what is ready to be imported.

use crate::keys::{lists, ordered_keys};
use crate::lemmas::{lemma_needed_keeps_order, lemma_request_in_bounds};
use crate::model::{
    after_drain, after_insert, after_needed, after_release, batch_fits, blocks_of, drain_count,
    drained_blocks, lemma_first_open_slot, needed_range, peers_after_needed, ranges_disjoint,
    ranges_wf, slot_open, slot_request, tagged, RangeView, Ranges, Request,
};
use crate::walk::{advance, lemma_walk_is_ordered};
use std::collections::{BTreeMap, HashMap};
use std::ops::Range;
use vstd::prelude::*;
use vstd::std_specs::iter::IteratorSpec;

verus! {

/// How many peers may fetch one range at the same time, unless a collection
/// is told otherwise.
pub const MAX_PARALLEL_DOWNLOADS: u32 = 1;

/// The height of a block.
pub type BlockNumber = u64;

/// The handle by which a peer is known.
pub type PeerId = u64;

/// A block and the peer it came from.
#[derive(Debug, Clone, PartialEq, Eq)]
pub struct BlockData<B> {
    /// The block as it was received.
    pub block: B,
    /// The peer that sent it, if a peer did.
    pub origin: Option<PeerId>,
}

/// The state of one range of heights.
#[derive(Debug)]
pub enum BlockRangeState<B> {
    /// `len` heights are being fetched, by `downloading` peers at once.
    Downloading { len: BlockNumber, downloading: u32 },
    /// The blocks have arrived: one for each height, lowest first.
    Complete(Vec<BlockData<B>>),
}

impl<B> View for BlockRangeState<B> {
    type V = RangeView<B>;

    open spec fn view(&self) -> RangeView<B> {
        match *self {
            BlockRangeState::Downloading { len, downloading } => RangeView::Downloading {
                len,
                downloading,
            },
            BlockRangeState::Complete(blocks) => RangeView::Complete(blocks@),
        }
    }
}

impl<B> BlockRangeState<B> {
    /// How many heights the range covers.
    pub fn len(&self) -> (n: BlockNumber)
        ensures
            n == self@.len(),
    {
        match self {
            BlockRangeState::Downloading { len, .. } => *len,
            BlockRangeState::Complete(blocks) => blocks.len() as u64,
        }
    }
}

/// The ranges of blocks being fetched, by their first height, and the range
/// that each peer was last asked for.
pub struct BlockCollection<B> {
    /// The ranges, by first height.
    pub blocks: BTreeMap<BlockNumber, BlockRangeState<B>>,
    /// For each peer with a request out, the first height of that request.
    pub peer_requests: HashMap<PeerId, BlockNumber>,
    /// How many peers may fetch one range at the same time.
    pub max_parallel_downloads: u32,
}

impl<B> Default for BlockCollection<B> {
    /// A collection that holds nothing.
    fn default() -> (collection: Self)
        ensures
            collection.ranges() == Map::<BlockNumber, RangeView<B>>::empty(),
            collection.requests() == Map::<PeerId, BlockNumber>::empty(),
            collection.max_parallel_downloads == MAX_PARALLEL_DOWNLOADS,
            collection.wf(),
            collection.disjoint(),
    {
        BlockCollection::new()
    }
}

impl<B> BlockCollection<B> {
    /// The ranges, by first height.
    pub open spec fn ranges(&self) -> Ranges<B> {
        self.blocks@.map_values(|state: BlockRangeState<B>| state@)
    }

    /// The first height of each peer's request.
    pub open spec fn requests(&self) -> Map<PeerId, BlockNumber> {
        self.peer_requests@
    }

    /// The ranges are well formed.
    pub open spec fn wf(&self) -> bool {
        ranges_wf(self.ranges())
    }

    /// No two ranges share a height.
    pub open spec fn disjoint(&self) -> bool {
        ranges_disjoint(self.ranges())
    }

    /// A collection that holds nothing.
    pub fn new() -> (collection: Self)
        ensures
            collection.ranges() == Map::<BlockNumber, RangeView<B>>::empty(),
            collection.requests() == Map::<PeerId, BlockNumber>::empty(),
            collection.max_parallel_downloads == MAX_PARALLEL_DOWNLOADS,
            collection.wf(),
            collection.disjoint(),
    {
        let collection = BlockCollection {
            blocks: BTreeMap::new(),
            peer_requests: HashMap::new(),
            max_parallel_downloads: MAX_PARALLEL_DOWNLOADS,
        };
        assert(collection.ranges() =~= Map::<BlockNumber, RangeView<B>>::empty());
        collection
    }

    /// Forgets every range and every request.
    pub fn clear(&mut self)
        ensures
            final(self).ranges() == Map::<BlockNumber, RangeView<B>>::empty(),
            final(self).requests() == Map::<PeerId, BlockNumber>::empty(),
            final(self).max_parallel_downloads == old(self).max_parallel_downloads,
            final(self).wf(),
            final(self).disjoint(),
    {
        self.blocks.clear();
        self.peer_requests.clear();
        assert(self.ranges() =~= Map::<BlockNumber, RangeView<B>>::empty());
    }

    /// Takes in the blocks that `who` sent for the heights from `start` on.
    /// An empty batch is ignored, and so is one for a range that is still
    /// being fetched, or that is no longer than the batch held at `start`.
    pub fn insert(&mut self, start: BlockNumber, blocks: Vec<B>, who: PeerId)
        requires
            old(self).wf(),
            start + blocks.len() <= u64::MAX,
        ensures
            final(self).ranges() == after_insert(old(self).ranges(), start, blocks@, who),
            final(self).requests() == old(self).requests(),
            final(self).max_parallel_downloads == old(self).max_parallel_downloads,
            old(self).ranges().contains_key(start) && old(self).ranges()[start].len()
                >= blocks@.len() ==> final(self).ranges() == old(self).ranges(),
            old(self).ranges().contains_key(start) ==> final(self).ranges()[start].len() >= old(
                self,
            ).ranges()[start].len(),
            final(self).wf(),
            old(self).disjoint() && batch_fits(old(self).ranges(), start, blocks@.len())
                ==> final(self).disjoint(),
    {
        if blocks.is_empty() {
            return ;
        }
        match self.blocks.get(&start) {
            Some(BlockRangeState::Downloading { .. }) => {
                return ;
            },
            Some(BlockRangeState::Complete(existing)) => {
                if existing.len() >= blocks.len() {
                    return ;
                }
            },
            None => (),
        }
        let ghost batch = blocks@;
        let mut complete: Vec<BlockData<B>> = Vec::new();
        for block in it: blocks
            invariant
                it.seq() == batch,
                complete@ == tagged(batch.take(it.index()), who),
        {
            complete.push(BlockData { block, origin: Some(who) });
            assert(complete@ =~= tagged(batch.take(it.index() + 1), who));
        }
        assert(batch.take(batch.len() as int) =~= batch);
        self.blocks.insert(start, BlockRangeState::Complete(complete));
        assert(self.ranges() =~= after_insert(old(self).ranges(), start, batch, who));
    }

    /// Hands out the blocks that are ready to be imported from height `from`
    /// on: those of the leading ranges, as long as each is complete and
    /// begins no higher than the last one ended. These ranges are dropped.
    pub fn drain(&mut self, from: BlockNumber) -> (drained: Vec<BlockData<B>>)
        requires
            old(self).wf(),
        ensures
            drained@ == drained_blocks(old(self).ranges(), from),
            final(self).ranges() == after_drain(old(self).ranges(), from),
            final(self).requests() == old(self).requests(),
            final(self).max_parallel_downloads == old(self).max_parallel_downloads,
            final(self).wf(),
            old(self).disjoint() ==> final(self).disjoint(),
    {
        let mut drained: Vec<BlockData<B>> = Vec::new();
        let mut ranges: Vec<u64> = Vec::new();
        let ghost m = self.ranges();
        let ghost ks = ordered_keys(m.dom());
        {
            let mut prev: u64 = from;
            let mut ranges_iter = self.blocks.iter();
            let ghost items = ranges_iter.remaining();
            proof {
                let walked = items.map_values(|kv: (&u64, &BlockRangeState<B>)| *kv.0);
                assert forall|k: u64| #[trigger] self.blocks@.contains_key(k) implies walked.contains(
                    k,
                ) by {
                    assert(items.contains((&k, &self.blocks@[k])));
                    let i = choose|i: int| 0 <= i < items.len() && items[i] == (&k, &self.blocks@[k]);
                    assert(walked[i] == k);
                }
                lemma_walk_is_ordered(self.blocks@, walked);
                assert(self.blocks@.dom() =~= m.dom());
                assert(walked == ks);
            }
            loop
                invariant_except_break
                    ranges_iter.remaining() == items.skip(ranges@.len() as int),
                    drain_count(m, ks, 0, from as int) == ranges@.len() + drain_count(
                        m,
                        ks,
                        ranges@.len() as int,
                        prev as int,
                    ),
                invariant
                    ranges_iter.obeys_prophetic_iter_laws(),
                    ranges@.len() <= ks.len(),
                    ranges@ == ks.take(ranges@.len() as int),
                    lists(ks, m.dom()),
                    ks.len() == items.len(),
                    forall|i: int| 0 <= i < ks.len() ==> ks[i] == *(#[trigger] items[i]).0,
                    forall|i: int| 0 <= i < ks.len() ==> m[ks[i]] == (#[trigger] items[i]).1@,
                    ranges_wf(m),
                    forall|i: int| 0 <= i < ranges@.len() ==> m[#[trigger] ks[i]] is Complete,
                ensures
                    drain_count(m, ks, 0, from as int) == ranges@.len(),
                decreases ks.len() - ranges@.len(),
            {
                let ghost at = ranges@.len() as int;
                proof {
                    if at < ks.len() {
                        assert(ks.contains(ks[at]));
                        assert(m.contains_key(ks[at]));
                    }
                }
                match advance(&mut ranges_iter) {
                    Some((start, BlockRangeState::Complete(blocks))) => {
                        if *start <= prev {
                            prev = *start + blocks.len() as u64;
                            ranges.push(*start);
                            assert(ranges@ =~= ks.take(at + 1));
                        } else {
                            break ;
                        }
                    },
                    _ => {
                        break ;
                    },
                }
            }
        }
        let mut taken: usize = 0;
        while taken < ranges.len()
            invariant
                taken <= ranges@.len() <= ks.len(),
                ranges@ == ks.take(ranges@.len() as int),
                lists(ks, m.dom()),
                ranges_wf(m),
                forall|i: int| 0 <= i < ranges@.len() ==> m[#[trigger] ks[i]] is Complete,
                self.ranges() == m.remove_keys(ks.take(taken as int).to_set()),
                self.peer_requests == old(self).peer_requests,
                self.max_parallel_downloads == old(self).max_parallel_downloads,
                drained@ == blocks_of(m, ks, taken as nat),
            decreases ranges@.len() - taken,
        {
            let r: u64 = ranges[taken];
            proof {
                assert(r == ks[taken as int]);
                assert(ks.contains(r));
                assert(!ks.take(taken as int).contains(r));
                assert(self.ranges().contains_key(r));
            }
            let ghost before = self.ranges();
            let ghost holding = self.blocks@[r];
            proof {
                assert(self.blocks@.contains_key(r));
                assert(before[r] == holding@);
                assert(!ks.take(taken as int).to_set().contains(r));
                assert(before[r] == m[r]);
            }
            match self.blocks.remove(&r) {
                Some(BlockRangeState::Complete(mut blocks)) => {
                    drained.append(&mut blocks);
                },
                _ => {},
            }
            proof {
                assert(self.ranges() =~= before.remove(r));
                assert(ks.take(taken + 1) =~= ks.take(taken as int).push(r));
                ks.take(taken as int).lemma_push_to_set_commute(r);
                assert(self.ranges() =~= m.remove_keys(ks.take(taken + 1).to_set()));
            }
            taken = taken + 1;
        }
        proof {
            assert(self.ranges() =~= after_drain(m, from));
        }
        drained
    }

    /// Withdraws the request that `who` was given, if it has one: the range
    /// loses this peer, and is dropped if no other peer is fetching it.
    pub fn clear_peer_download(&mut self, who: &PeerId)
        requires
            old(self).wf(),
        ensures
            final(self).requests() == old(self).requests().remove(*who),
            final(self).ranges() == (if old(self).requests().contains_key(*who) {
                after_release(old(self).ranges(), old(self).requests()[*who])
            } else {
                old(self).ranges()
            }),
            final(self).max_parallel_downloads == old(self).max_parallel_downloads,
            final(self).wf(),
            old(self).disjoint() ==> final(self).disjoint(),
    {
        match self.peer_requests.remove(who) {
            Some(start) => {
                let mut remove: bool = false;
                let mut fewer: Option<(u64, u32)> = None;
                match self.blocks.get(&start) {
                    Some(BlockRangeState::Downloading { len, downloading }) => {
                        if *downloading > 1 {
                            fewer = Some((*len, *downloading - 1));
                        } else {
                            remove = true;
                        }
                    },
                    _ => {},
                }
                if let Some((len, downloading)) = fewer {
                    self.blocks.insert(start, BlockRangeState::Downloading { len, downloading });
                }
                if remove {
                    self.blocks.remove(&start);
                }
                assert(self.ranges() =~= after_release(old(self).ranges(), start));
            },
            None => (),
        }
    }

    /// Picks the next range of heights to ask `who` for, of `count` heights
    /// at most and none above `peer_best`, and marks it as being fetched.
    pub fn needed_blocks(
        &mut self,
        who: PeerId,
        count: usize,
        peer_best: BlockNumber,
        common: BlockNumber,
    ) -> (range: Option<Range<BlockNumber>>)
        requires
            old(self).wf(),
            count >= 1,
            peer_best < u64::MAX,
            common < u64::MAX,
        ensures
            match range {
                Some(r) => needed_range(
                    old(self).ranges(),
                    old(self).max_parallel_downloads,
                    count as nat,
                    peer_best,
                    common,
                ) matches Some(n) && r.start == n.start && r.end == n.end,
                None => needed_range(
                    old(self).ranges(),
                    old(self).max_parallel_downloads,
                    count as nat,
                    peer_best,
                    common,
                ) is None,
            },
            final(self).ranges() == after_needed(
                old(self).ranges(),
                old(self).max_parallel_downloads,
                count as nat,
                peer_best,
                common,
            ),
            final(self).requests() == peers_after_needed(
                old(self).ranges(),
                old(self).max_parallel_downloads,
                old(self).requests(),
                who,
                count as nat,
                peer_best,
                common,
            ),
            range matches Some(r) ==> r.start < r.end <= peer_best + 1,
            range matches Some(r) ==> r.end - r.start <= count || needed_range(
                old(self).ranges(),
                old(self).max_parallel_downloads,
                count as nat,
                peer_best,
                common,
            )->0.shared > 0,
            final(self).max_parallel_downloads == old(self).max_parallel_downloads,
            final(self).wf(),
            old(self).disjoint() ==> final(self).disjoint(),
    {
        // First block number that we need to download
        let first_different: u64 = common + 1;
        let count: u64 = count as u64;
        let mut start: u64 = first_different;
        let mut len: u64 = count;
        let mut downloading: u32 = 0;
        let limit: u32 = self.max_parallel_downloads;
        let ghost m = self.ranges();
        let ghost slot: int = 0;
        {
            let mut downloading_iter = self.blocks.iter();
            let ghost items = downloading_iter.remaining();
            let ghost ks = ordered_keys(m.dom());
            proof {
                let walked = items.map_values(|kv: (&u64, &BlockRangeState<B>)| *kv.0);
                assert forall|k: u64| #[trigger] self.blocks@.contains_key(k) implies walked.contains(
                    k,
                ) by {
                    assert(items.contains((&k, &self.blocks@[k])));
                    let i = choose|i: int| 0 <= i < items.len() && items[i] == (&k, &self.blocks@[k]);
                    assert(walked[i] == k);
                }
                lemma_walk_is_ordered(self.blocks@, walked);
                assert(self.blocks@.dom() =~= m.dom());
                assert(walked == ks);
            }
            let mut prev: Option<(&u64, &BlockRangeState<B>)> = None;
            loop
                invariant_except_break
                    0 <= slot <= ks.len(),
                    downloading_iter.remaining() == items.skip(slot),
                    prev == (if slot == 0 {
                        None
                    } else {
                        Some(items[slot - 1])
                    }),
                    forall|j: int| 0 <= j < slot ==> !#[trigger] slot_open(m, limit, ks, j, first_different as int),
                    start == first_different,
                    len == count,
                    downloading == 0,
                invariant
                    count >= 1,
                    downloading_iter.obeys_prophetic_iter_laws(),
                    ks == ordered_keys(m.dom()),
                    lists(ks, m.dom()),
                    ks.len() == items.len(),
                    forall|i: int| 0 <= i < ks.len() ==> ks[i] == *(#[trigger] items[i]).0,
                    forall|i: int| 0 <= i < ks.len() ==> m[ks[i]] == (#[trigger] items[i]).1@,
                    ranges_wf(m),
                    first_different == common + 1,
                ensures
                    0 <= slot <= ks.len(),
                    slot_open(m, limit, ks, slot, first_different as int),
                    forall|j: int| 0 <= j < slot ==> !#[trigger] slot_open(m, limit, ks, j, first_different as int),
                    slot_request(m, limit, ks, slot, first_different as int, count as nat) == (Request {
                        start: start as int,
                        end: start + len,
                        shared: downloading as nat,
                    }),
                    len >= 1,
                decreases ks.len() - slot,
            {
                let next = advance(&mut downloading_iter);
                proof {
                    if slot > 0 {
                        assert(ks.contains(ks[slot - 1]));
                        assert(m.contains_key(ks[slot - 1]));
                    }
                }
                match prev {
                    Some((prev_start, state)) => {
                        if let BlockRangeState::Downloading { len: prev_len, downloading: peers } = state {
                            if *peers < limit {
                                start = *prev_start;
                                len = *prev_len;
                                downloading = *peers;
                                break;
                            }
                        }
                        let end: u64 = *prev_start + state.len();
                        match next {
                            Some((next_start, _)) => {
                                if end < *next_start {
                                    // gap
                                    start = end;
                                    len = if count < *next_start - end { count } else { *next_start - end };
                                    break;
                                }
                            },
                            None => {
                                // last range
                                start = end;
                                len = count;
                                break;
                            },
                        }
                    },
                    None => {
                        match next {
                            None => {
                                // empty
                                break;
                            },
                            Some((next_start, _)) => {
                                if *next_start > first_different {
                                    // gap at the start
                                    len = if count < *next_start - first_different { count } else { *next_start - first_different };
                                    break;
                                }
                            },
                        }
                    },
                }
                prev = next;
                proof {
                    slot = slot + 1;
                }
            }
        }
        proof {
            lemma_first_open_slot(m, limit, ordered_keys(m.dom()), 0, slot, first_different as int);
            lemma_needed_keeps_order(m, limit, count as nat, peer_best, common);
            lemma_request_in_bounds(m, limit, count as nat, peer_best, common);
        }
        // crop to peers best
        if start > peer_best {
            return None;
        }
        if len > peer_best - start + 1 {
            len = peer_best - start + 1;
        }
        let end: u64 = start + len;
        self.peer_requests.insert(who, start);
        self.blocks.insert(start, BlockRangeState::Downloading { len, downloading: downloading + 1 });
        Some(start..end)
    }
}

} // verus!
