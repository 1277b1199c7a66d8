use block_collection::blocks::{BlockCollection, BlockData, BlockRangeState};

#[derive(Debug, Clone, PartialEq, Eq)]
struct Block(u64);

fn blocks_from(first: u64, n: u64) -> Vec<Block> {
    (first..first + n).map(Block).collect()
}

fn sent(first: u64, n: u64, peer: u64) -> Vec<BlockData<Block>> {
    (first..first + n).map(|h| BlockData { block: Block(h), origin: Some(peer) }).collect()
}

fn held(bc: &BlockCollection<Block>, start: u64) -> Option<Vec<BlockData<Block>>> {
    match bc.blocks.get(&start) {
        Some(BlockRangeState::Complete(blocks)) => Some(blocks.clone()),
        _ => None,
    }
}

#[test]
fn insert_tags_each_block_with_its_peer() {
    let mut bc: BlockCollection<Block> = BlockCollection::new();
    bc.insert(5, blocks_from(5, 3), 9);
    assert_eq!(
        held(&bc, 5),
        Some(vec![
            BlockData { block: Block(5), origin: Some(9) },
            BlockData { block: Block(6), origin: Some(9) },
            BlockData { block: Block(7), origin: Some(9) },
        ])
    );
    assert_eq!(bc.blocks.len(), 1);
    assert!(bc.peer_requests.is_empty());
}

#[test]
fn insert_of_nothing_is_ignored() {
    let mut bc: BlockCollection<Block> = BlockCollection::new();
    bc.insert(5, Vec::new(), 9);
    assert!(bc.blocks.is_empty());
}

#[test]
fn insert_over_a_range_being_fetched_is_ignored() {
    let mut bc: BlockCollection<Block> = BlockCollection::new();
    assert_eq!(bc.needed_blocks(0, 40, 150, 0), Some(1..41));
    bc.insert(1, blocks_from(1, 40), 0);
    assert_eq!(held(&bc, 1), None);
    assert_eq!(bc.blocks.get(&1).map(|s| s.len()), Some(40));
    assert_eq!(bc.drain(1), vec![]);
}

#[test]
fn smaller_batch_does_not_replace_a_larger_one() {
    let mut bc: BlockCollection<Block> = BlockCollection::new();
    bc.insert(1, blocks_from(1, 10), 0);
    bc.insert(1, blocks_from(101, 4), 1);
    assert_eq!(held(&bc, 1), Some(sent(1, 10, 0)));
}

#[test]
fn batch_of_the_same_size_does_not_replace() {
    let mut bc: BlockCollection<Block> = BlockCollection::new();
    bc.insert(1, blocks_from(1, 10), 0);
    bc.insert(1, blocks_from(101, 10), 1);
    assert_eq!(held(&bc, 1), Some(sent(1, 10, 0)));
}

#[test]
fn larger_batch_replaces_a_smaller_one() {
    let mut bc: BlockCollection<Block> = BlockCollection::new();
    bc.insert(1, blocks_from(1, 10), 0);
    bc.insert(1, blocks_from(101, 11), 1);
    assert_eq!(held(&bc, 1), Some(sent(101, 11, 1)));
    assert_eq!(bc.blocks.len(), 1);
}

#[test]
fn drain_of_empty_collection_is_empty() {
    let mut bc: BlockCollection<Block> = BlockCollection::new();
    assert_eq!(bc.drain(0), vec![]);
    assert_eq!(bc.drain(u64::MAX), vec![]);
}

#[test]
fn drain_stops_at_a_gap() {
    let mut bc: BlockCollection<Block> = BlockCollection::new();
    bc.insert(1, blocks_from(1, 10), 0);
    bc.insert(12, blocks_from(12, 5), 1);
    assert_eq!(bc.drain(1), sent(1, 10, 0));
    assert_eq!(bc.blocks.len(), 1);
    assert_eq!(held(&bc, 12), Some(sent(12, 5, 1)));
}

#[test]
fn drain_stops_at_a_range_being_fetched() {
    let mut bc: BlockCollection<Block> = BlockCollection::new();
    bc.insert(1, blocks_from(1, 10), 0);
    assert_eq!(bc.needed_blocks(1, 5, 100, 0), Some(11..16));
    bc.insert(16, blocks_from(16, 5), 2);
    assert_eq!(bc.drain(1), sent(1, 10, 0));
    assert_eq!(bc.blocks.len(), 2);
    assert_eq!(bc.drain(11), vec![]);
}

#[test]
fn drain_takes_adjoining_ranges_in_order() {
    let mut bc: BlockCollection<Block> = BlockCollection::new();
    bc.insert(21, blocks_from(21, 3), 2);
    bc.insert(1, blocks_from(1, 10), 0);
    bc.insert(11, blocks_from(11, 10), 1);
    let mut expected = sent(1, 10, 0);
    expected.extend(sent(11, 10, 1));
    expected.extend(sent(21, 3, 2));
    assert_eq!(bc.drain(1), expected);
    assert!(bc.blocks.is_empty());
}

#[test]
fn drain_takes_nothing_above_the_height_asked_from() {
    let mut bc: BlockCollection<Block> = BlockCollection::new();
    bc.insert(5, blocks_from(5, 10), 0);
    assert_eq!(bc.drain(4), vec![]);
    assert_eq!(bc.blocks.len(), 1);
    assert_eq!(bc.drain(5), sent(5, 10, 0));
}

#[test]
fn drain_takes_a_range_that_begins_below_the_height_asked_from() {
    let mut bc: BlockCollection<Block> = BlockCollection::new();
    bc.insert(5, blocks_from(5, 10), 0);
    assert_eq!(bc.drain(9), sent(5, 10, 0));
}

#[test]
fn second_drain_is_empty() {
    let mut bc: BlockCollection<Block> = BlockCollection::new();
    bc.insert(1, blocks_from(1, 10), 0);
    bc.insert(11, blocks_from(11, 10), 1);
    bc.insert(40, blocks_from(40, 10), 1);
    assert_eq!(bc.drain(1).len(), 20);
    assert_eq!(bc.drain(1), vec![]);
    assert_eq!(bc.blocks.len(), 1);
}

#[test]
fn second_drain_takes_what_the_first_stopped_short_of() {
    let mut bc: BlockCollection<Block> = BlockCollection::new();
    bc.insert(1, blocks_from(1, 5), 0);
    bc.insert(50, blocks_from(50, 5), 1);
    // the first drain ends at height 6, below the range at 50
    assert_eq!(bc.drain(100), sent(1, 5, 0));
    // which a second drain from 100 takes
    assert_eq!(bc.drain(100), sent(50, 5, 1));
    assert_eq!(bc.drain(100), vec![]);
}

#[test]
fn drain_leaves_requests_alone() {
    let mut bc: BlockCollection<Block> = BlockCollection::new();
    bc.insert(1, blocks_from(1, 10), 0);
    assert_eq!(bc.needed_blocks(4, 5, 100, 0), Some(11..16));
    assert_eq!(bc.drain(1).len(), 10);
    assert_eq!(bc.peer_requests.get(&4), Some(&11));
}

#[test]
fn clear_forgets_ranges_and_requests() {
    let mut bc: BlockCollection<Block> = BlockCollection::new();
    bc.max_parallel_downloads = 3;
    bc.insert(1, blocks_from(1, 10), 0);
    assert_eq!(bc.needed_blocks(4, 5, 100, 0), Some(11..16));
    bc.clear();
    assert!(bc.blocks.is_empty());
    assert!(bc.peer_requests.is_empty());
    assert_eq!(bc.max_parallel_downloads, 3);
    assert_eq!(bc.needed_blocks(4, 5, 100, 0), Some(1..6));
}
