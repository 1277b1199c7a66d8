use block_collection::blocks::{BlockCollection, BlockData, BlockRangeState, PeerId};

/// A block as a peer would send it, told apart by its hash alone.
#[derive(Debug, Clone, PartialEq, Eq)]
struct Block {
    hash: u64,
}

fn is_empty(bc: &BlockCollection<Block>) -> bool {
    bc.blocks.is_empty() && bc.peer_requests.is_empty()
}

fn generate_blocks(n: usize) -> Vec<Block> {
    (0..n)
        .map(|i| Block { hash: (i as u64 + 1).wrapping_mul(0x9e37_79b9_7f4a_7c15) })
        .collect()
}

fn sent_by(blocks: &[Block], peer: PeerId) -> Vec<BlockData<Block>> {
    blocks.iter().map(|b| BlockData { block: b.clone(), origin: Some(peer) }).collect()
}

#[test]
fn create_clear() {
    let mut bc = BlockCollection::new();
    assert!(is_empty(&bc));
    bc.insert(1, generate_blocks(100), 17);
    assert!(!is_empty(&bc));
    bc.clear();
    assert!(is_empty(&bc));
}

#[test]
fn insert_blocks() {
    let mut bc = BlockCollection::new();
    assert!(is_empty(&bc));
    let peer0: PeerId = 0;
    let peer1: PeerId = 1;
    let peer2: PeerId = 2;

    let blocks = generate_blocks(150);
    assert_eq!(bc.needed_blocks(peer0.clone(), 40, 150, 0), Some(1..41));
    assert_eq!(bc.needed_blocks(peer1.clone(), 40, 150, 0), Some(41..81));
    assert_eq!(bc.needed_blocks(peer2.clone(), 40, 150, 0), Some(81..121));

    bc.clear_peer_download(&peer1);
    bc.insert(41, blocks[41..81].to_vec(), peer1.clone());
    assert_eq!(bc.drain(1), vec![]);
    assert_eq!(bc.needed_blocks(peer1.clone(), 40, 150, 0), Some(121..151));
    bc.clear_peer_download(&peer0);
    bc.insert(1, blocks[1..11].to_vec(), peer0.clone());

    assert_eq!(bc.needed_blocks(peer0.clone(), 40, 150, 0), Some(11..41));
    assert_eq!(bc.drain(1), sent_by(&blocks[1..11], peer0));

    bc.clear_peer_download(&peer0);
    bc.insert(11, blocks[11..41].to_vec(), peer0.clone());

    let drained = bc.drain(12);
    assert_eq!(drained[..30], sent_by(&blocks[11..41], peer0)[..]);
    assert_eq!(drained[30..], sent_by(&blocks[41..81], peer1)[..]);

    bc.clear_peer_download(&peer2);
    assert_eq!(bc.needed_blocks(peer2.clone(), 40, 150, 80), Some(81..121));
    bc.clear_peer_download(&peer2);
    bc.insert(81, blocks[81..121].to_vec(), peer2.clone());
    bc.clear_peer_download(&peer1);
    bc.insert(121, blocks[121..150].to_vec(), peer1.clone());

    assert_eq!(bc.drain(80), vec![]);
    let drained = bc.drain(81);
    assert_eq!(drained[..40], sent_by(&blocks[81..121], peer2)[..]);
    assert_eq!(drained[40..], sent_by(&blocks[121..150], peer1)[..]);
}

#[test]
fn large_gap() {
    let mut bc: BlockCollection<Block> = BlockCollection::new();
    bc.blocks.insert(100, BlockRangeState::Downloading { len: 128, downloading: 1 });
    let blocks = generate_blocks(10)
        .into_iter()
        .map(|b| BlockData { block: b, origin: None })
        .collect();
    bc.blocks.insert(114305, BlockRangeState::Complete(blocks));

    let peer0: PeerId = 0;
    assert_eq!(bc.needed_blocks(peer0.clone(), 128, 10000, 000), Some(1..100));
    assert_eq!(bc.needed_blocks(peer0.clone(), 128, 10000, 600), Some(100 + 128..100 + 128 + 128));
}
