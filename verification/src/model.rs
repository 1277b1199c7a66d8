//! What the collection holds and what each operation does to it, as
//! mathematics: a map from the first height of a range to the range's state,
//! walked by ascending height.

use crate::blocks::{BlockData, PeerId};
use crate::keys::ordered_keys;
use vstd::prelude::*;

verus! {

/// The state of one range of heights.
pub enum RangeView<B> {
    /// `len` heights are being fetched, by `downloading` peers at once.
    Downloading { len: u64, downloading: u32 },
    /// The blocks have arrived: one for each height, lowest first.
    Complete(Seq<BlockData<B>>),
}

impl<B> RangeView<B> {
    /// How many heights the range covers.
    pub open spec fn len(self) -> nat {
        match self {
            RangeView::Downloading { len, .. } => len as nat,
            RangeView::Complete(blocks) => blocks.len(),
        }
    }

    /// Whether one more peer may be set to fetch this range, where `limit`
    /// peers may fetch a range at the same time.
    pub open spec fn can_share(self, limit: u32) -> bool {
        match self {
            RangeView::Downloading { downloading, .. } => downloading < limit,
            RangeView::Complete(_) => false,
        }
    }

    /// How many peers are fetching this range.
    pub open spec fn peers(self) -> nat {
        match self {
            RangeView::Downloading { downloading, .. } => downloading as nat,
            RangeView::Complete(_) => 0,
        }
    }
}

/// The ranges by their first height.
pub type Ranges<B> = Map<u64, RangeView<B>>;

/// The height just past the range that starts at `start`.
pub open spec fn range_end<B>(m: Ranges<B>, start: u64) -> int {
    start + m[start].len()
}

/// Every range is non-empty, ends within the heights that a `u64` can hold
/// and, while it is being fetched, has a peer fetching it.
pub open spec fn ranges_wf<B>(m: Ranges<B>) -> bool {
    forall|k: u64| #[trigger]
        m.contains_key(k) ==> {
            &&& m[k].len() >= 1
            &&& range_end(m, k) <= u64::MAX
            &&& (m[k] is Downloading ==> m[k].peers() >= 1)
        }
}

/// No two ranges share a height.
pub open spec fn ranges_disjoint<B>(m: Ranges<B>) -> bool {
    forall|a: u64, b: u64|
        #![trigger m.contains_key(a), m.contains_key(b)]
        m.contains_key(a) && m.contains_key(b) && a < b ==> range_end(m, a) <= b
}

/// A range of heights `start..end` to ask a peer for, and how many peers were
/// fetching it already.
pub struct Request {
    pub start: int,
    pub end: int,
    pub shared: nat,
}

/// Between the ranges, taken by ascending height, lie the slots in which a
/// request can be placed: slot 0 before the first range, slot `i` behind the
/// `i`-th. A slot is open if a request can be placed there: before the first
/// range if that starts above `first`; behind a range if that range may be
/// shared, is the last one, or ends below the start of the next.
pub open spec fn slot_open<B>(m: Ranges<B>, limit: u32, ks: Seq<u64>, i: int, first: int) -> bool {
    if i == 0 {
        ks.len() == 0 || ks[0] > first
    } else {
        ||| m[ks[i - 1]].can_share(limit)
        ||| i == ks.len()
        ||| range_end(m, ks[i - 1]) < ks[i]
    }
}

/// The first open slot at or behind slot `i`. The slot behind the last range
/// is open, so there is one.
pub open spec fn first_open_slot<B>(
    m: Ranges<B>,
    limit: u32,
    ks: Seq<u64>,
    i: int,
    first: int,
) -> int
    decreases ks.len() - i,
{
    if i >= ks.len() || slot_open(m, limit, ks, i, first) {
        i
    } else {
        first_open_slot(m, limit, ks, i + 1, first)
    }
}

/// The first open slot behind `from` is the one before which every slot from
/// `from` on is shut.
pub proof fn lemma_first_open_slot<B>(
    m: Ranges<B>,
    limit: u32,
    ks: Seq<u64>,
    from: int,
    slot: int,
    first: int,
)
    requires
        0 <= from <= slot <= ks.len(),
        forall|j: int| from <= j < slot ==> !#[trigger] slot_open(m, limit, ks, j, first),
        slot == ks.len() || slot_open(m, limit, ks, slot, first),
    ensures
        first_open_slot(m, limit, ks, from, first) == slot,
    decreases slot - from,
{
    if from < slot {
        lemma_first_open_slot(m, limit, ks, from + 1, slot, first);
    }
}

/// The request that slot `i` offers for `count` heights: the range before it
/// over again where that may be shared; otherwise `count` heights from the end
/// of that range (from `first` in slot 0), cut off where the next range starts.
pub open spec fn slot_request<B>(
    m: Ranges<B>,
    limit: u32,
    ks: Seq<u64>,
    i: int,
    first: int,
    count: nat,
) -> Request {
    if i == 0 {
        Request {
            start: first,
            end: if ks.len() == 0 {
                first + count
            } else {
                vstd::math::min(first + count, ks[0] as int)
            },
            shared: 0,
        }
    } else {
        let before = ks[i - 1];
        let from = range_end(m, before);
        if m[before].can_share(limit) {
            Request { start: before as int, end: from, shared: m[before].peers() }
        } else if i == ks.len() {
            Request { start: from, end: from + count, shared: 0 }
        } else {
            Request { start: from, end: vstd::math::min(ks[i] as int, from + count), shared: 0 }
        }
    }
}

/// The request that the first open slot offers, before the peer's own best
/// height is taken into account.
pub open spec fn candidate<B>(m: Ranges<B>, limit: u32, count: nat, common: u64) -> Request {
    let ks = ordered_keys(m.dom());
    slot_request(m, limit, ks, first_open_slot(m, limit, ks, 0, common + 1), common + 1, count)
}

/// The range to ask a peer for: the candidate, cut off behind the peer's best
/// height; none if the candidate starts above that height.
pub open spec fn needed_range<B>(
    m: Ranges<B>,
    limit: u32,
    count: nat,
    peer_best: u64,
    common: u64,
) -> Option<Request> {
    let c = candidate(m, limit, count, common);
    if c.start > peer_best {
        None
    } else {
        Some(Request { start: c.start, end: vstd::math::min(peer_best + 1, c.end), shared: c.shared })
    }
}

/// The ranges once `r` is marked as being fetched by one peer more.
pub open spec fn with_request<B>(m: Ranges<B>, r: Request) -> Ranges<B> {
    m.insert(
        r.start as u64,
        RangeView::Downloading { len: (r.end - r.start) as u64, downloading: (r.shared + 1) as u32 },
    )
}

/// The ranges after a request for `count` heights on behalf of a peer.
pub open spec fn after_needed<B>(
    m: Ranges<B>,
    limit: u32,
    count: nat,
    peer_best: u64,
    common: u64,
) -> Ranges<B> {
    match needed_range(m, limit, count, peer_best, common) {
        Some(r) => with_request(m, r),
        None => m,
    }
}

/// The peers' assignments after a request on behalf of `who`.
pub open spec fn peers_after_needed<B>(
    m: Ranges<B>,
    limit: u32,
    peers: Map<PeerId, u64>,
    who: PeerId,
    count: nat,
    peer_best: u64,
    common: u64,
) -> Map<PeerId, u64> {
    match needed_range(m, limit, count, peer_best, common) {
        Some(r) => peers.insert(who, r.start as u64),
        None => peers,
    }
}

/// The blocks of a batch, each marked as sent by `who`.
pub open spec fn tagged<B>(blocks: Seq<B>, who: PeerId) -> Seq<BlockData<B>> {
    blocks.map_values(|block: B| BlockData { block, origin: Some(who) })
}

/// Whether a batch of `n` blocks that starts at height `start` is taken in:
/// it is not empty, the range at `start` is not being fetched, and no batch
/// of that size or more is held at `start`.
pub open spec fn insert_accepted<B>(m: Ranges<B>, start: u64, n: nat) -> bool {
    &&& n > 0
    &&& m.contains_key(start) ==> m[start] is Complete && m[start].len() < n
}

/// A batch of `n` blocks from height `start` on shares no height with a
/// range that begins at another height.
pub open spec fn batch_fits<B>(m: Ranges<B>, start: u64, n: nat) -> bool {
    forall|k: u64| #[trigger]
        m.contains_key(k) && k != start ==> range_end(m, k) <= start || start + n <= k
}

/// The ranges after a batch was handed in.
pub open spec fn after_insert<B>(m: Ranges<B>, start: u64, blocks: Seq<B>, who: PeerId) -> Ranges<
    B,
> {
    if insert_accepted(m, start, blocks.len()) {
        m.insert(start, RangeView::Complete(tagged(blocks, who)))
    } else {
        m
    }
}

/// The ranges after a peer gave up the request that started at `start`: the
/// range loses one of its peers, and goes when that was the last one. A range
/// that is not being fetched stays as it is.
pub open spec fn after_release<B>(m: Ranges<B>, start: u64) -> Ranges<B> {
    if m.contains_key(start) {
        match m[start] {
            RangeView::Downloading { len, downloading } => if downloading > 1 {
                m.insert(start, RangeView::Downloading { len, downloading: (downloading - 1) as u32 })
            } else {
                m.remove(start)
            },
            RangeView::Complete(_) => m,
        }
    } else {
        m
    }
}

/// How many ranges a drain takes, counted from the `i`-th on, when the next
/// height it waits for is `expect`: each range in turn, as long as it is
/// complete and starts at or below the height waited for, which then moves
/// to the end of that range.
pub open spec fn drain_count<B>(m: Ranges<B>, ks: Seq<u64>, i: int, expect: int) -> nat
    decreases ks.len() - i,
{
    if 0 <= i < ks.len() && m[ks[i]] is Complete && ks[i] <= expect {
        1 + drain_count(m, ks, i + 1, range_end(m, ks[i]))
    } else {
        0
    }
}

/// The blocks of the first `n` ranges, one range after the other.
pub open spec fn blocks_of<B>(m: Ranges<B>, ks: Seq<u64>, n: nat) -> Seq<BlockData<B>>
    decreases n,
{
    if n == 0 {
        Seq::empty()
    } else {
        blocks_of(m, ks, (n - 1) as nat) + m[ks[n - 1]]->Complete_0
    }
}

/// How many ranges a drain from height `from` takes.
pub open spec fn drained_ranges<B>(m: Ranges<B>, from: u64) -> nat {
    drain_count(m, ordered_keys(m.dom()), 0, from as int)
}

/// The blocks that a drain from height `from` hands out.
pub open spec fn drained_blocks<B>(m: Ranges<B>, from: u64) -> Seq<BlockData<B>> {
    blocks_of(m, ordered_keys(m.dom()), drained_ranges(m, from))
}

/// The ranges that a drain from height `from` leaves.
pub open spec fn after_drain<B>(m: Ranges<B>, from: u64) -> Ranges<B> {
    m.remove_keys(ordered_keys(m.dom()).take(drained_ranges(m, from) as int).to_set())
}

} // verus!
