//! Behaviour of the in-core structures: space maps, the copy-on-write
//! B-tree, the write batcher, and the damage generator.

use thinp::btree::{BTree, BTreeNode};
use thinp::batcher::{WriteBatcher, patch_block};
use thinp::errors::MetadataError;
use thinp::generator::{create_metadata_leaks, MetadataVisitor, ThinGenerator};
use thinp::space_map_disk::build_index_entries;
use thinp::superblock::Superblock;
use thinp::space_map::{SpaceMap, CoreSpaceMap, core_sm};
use thinp::space_map_disk::DiskSpaceMap;

#[test]
fn core_sm_counts_follow_history() {
    let mut sm = core_sm(10, 300);
    assert_eq!(sm.nr_blocks(), 10);
    assert_eq!(sm.nr_allocated(), 0);

    sm.inc(2, 3).unwrap();
    assert_eq!(sm.get(1).unwrap(), 0);
    assert_eq!(sm.get(2).unwrap(), 1);
    assert_eq!(sm.get(3).unwrap(), 1);
    assert_eq!(sm.get(4).unwrap(), 1);
    assert_eq!(sm.nr_allocated(), 3);

    sm.inc(3, 1).unwrap();
    assert_eq!(sm.get(3).unwrap(), 2);
    // raising an already-positive count does not change the allocated total
    assert_eq!(sm.nr_allocated(), 3);

    sm.dec(2, 1).unwrap();
    assert_eq!(sm.get(2).unwrap(), 0);
    assert_eq!(sm.nr_allocated(), 2);
}

#[test]
fn core_sm_allocates_first_free() {
    let mut sm = CoreSpaceMap::new(4, 200);
    sm.inc(0, 2).unwrap();
    let b = sm.allocate().unwrap();
    assert_eq!(b, 2);
    assert_eq!(sm.get(2).unwrap(), 1);
    let b2 = sm.allocate().unwrap();
    assert_eq!(b2, 3);
    assert_eq!(sm.allocate(), Err(MetadataError::OutOfSpace));
}

#[test]
fn core_sm_picks_width_by_max_count() {
    // a count above a byte forces a wider element; behaviour is identical
    let mut narrow = core_sm(3, 200);
    let mut wide = core_sm(3, 70000);
    for _ in 0..200 {
        narrow.inc(1, 1).unwrap();
        wide.inc(1, 1).unwrap();
    }
    assert_eq!(narrow.get(1).unwrap(), 200);
    assert_eq!(wide.get(1).unwrap(), 200);
}

#[test]
fn disk_sm_overflow_transitions() {
    // three hundred increments push one block through the sentinel,
    // and two hundred ninety-eight decrements bring it back to two
    let mut sm = DiskSpaceMap::new(16);
    let b: u64 = 5;
    for _ in 0..300 {
        sm.inc(b, 1).unwrap();
    }
    assert_eq!(sm.get(b).unwrap(), 300);
    // the bitmap slot reads the overflow sentinel
    assert_eq!(sm.entry_at(b as usize), 3);

    for _ in 0..298 {
        sm.dec(b, 1).unwrap();
    }
    assert_eq!(sm.get(b).unwrap(), 2);
    // the slot holds the literal count again: the overflow entry is gone
    assert_eq!(sm.entry_at(b as usize), 2);
    assert_eq!(sm.nr_allocated(), 1);
}

#[test]
fn disk_sm_small_counts_stay_in_bitmap() {
    let mut sm = DiskSpaceMap::new(8);
    sm.inc(0, 4).unwrap();
    sm.inc(1, 1).unwrap();
    sm.inc(1, 1).unwrap();
    assert_eq!(sm.get(0).unwrap(), 1);
    assert_eq!(sm.get(1).unwrap(), 3);
    assert_eq!(sm.entry_at(1), 3);
    assert_eq!(sm.entry_at(2), 1);
    assert_eq!(sm.nr_allocated(), 4);
    let b = sm.allocate().unwrap();
    assert_eq!(b, 4);
}

#[test]
fn btree_insert_then_lookup() {
    let mut t = BTree::new();
    // enough keys to force several leaf and internal splits
    for k in 0..100u64 {
        t.insert(k * 7 % 101, k).unwrap();
    }
    for k in 0..100u64 {
        assert_eq!(t.lookup(k * 7 % 101).unwrap(), k);
    }
    assert_eq!(t.lookup(500), Err(MetadataError::NotFound));
}

#[test]
fn btree_last_insert_wins() {
    let mut t = BTree::new();
    t.insert(9, 1).unwrap();
    t.insert(9, 2).unwrap();
    assert_eq!(t.lookup(9).unwrap(), 2);
    let entries = t.walk();
    assert_eq!(entries, vec![(9, 2)]);
}

#[test]
fn btree_walk_ascending() {
    let mut t = BTree::new();
    for k in [44u64, 3, 99, 7, 12, 56, 31, 8, 71, 25, 60, 2] {
        t.insert(k, k * 10).unwrap();
    }
    let entries = t.walk();
    assert_eq!(entries.len(), 12);
    for w in entries.windows(2) {
        assert!(w[0].0 < w[1].0);
    }
    for (k, v) in entries {
        assert_eq!(v, k * 10);
    }
}

#[test]
fn patch_block_splices_address_and_csum() {
    let data = vec![0xabu8; 4096];
    let patched = patch_block(&data, 77, 9);
    assert_eq!(patched.len(), 4096);
    assert_eq!(&patched[8..16], &77u64.to_le_bytes());
    // bytes outside the header's checksum and self-reference are untouched
    assert_eq!(&patched[4..8], &data[4..8]);
    assert_eq!(&patched[16..], &data[16..]);
    let expect = thinp::codec::block_csum(9, &patched[4..]);
    assert_eq!(&patched[0..4], &expect.to_le_bytes());
}

#[test]
fn batcher_lifecycle() {
    // block 0 is the superblock: held before batching starts
    let mut sm = core_sm(8, 100);
    sm.inc(0, 1).unwrap();
    let mut w = WriteBatcher::new(sm, 2);

    let data = vec![0u8; 4096];
    let (b1, flushed) = w.write(&data, 1).unwrap();
    assert_eq!(b1, 1);
    assert!(flushed.is_none());

    // the second write reaches the batch size and hands the batch out
    let (b2, flushed) = w.write(&data, 1).unwrap();
    assert_eq!(b2, 2);
    let batch = flushed.unwrap();
    assert_eq!(batch.len(), 2);
    assert_eq!(batch[0].0, b1);
    assert_eq!(batch[1].0, b2);

    let rest = w.flush().unwrap();
    assert!(rest.is_empty());
    w.complete_commit();
}

#[test]
fn batcher_poisons_and_fails_fast() {
    let mut sm = core_sm(1, 100);
    sm.inc(0, 1).unwrap();
    let mut w = WriteBatcher::new(sm, 4);
    let data = vec![0u8; 4096];
    // the space map is exhausted: the batch aborts and the batcher poisons
    assert_eq!(w.write(&data, 1), Err(MetadataError::OutOfSpace));
    assert_eq!(w.write(&data, 1), Err(MetadataError::Poisoned));
    assert_eq!(w.flush(), Err(MetadataError::Poisoned));
}

#[test]
fn batcher_fail_poisons() {
    let mut sm = core_sm(8, 100);
    sm.inc(0, 1).unwrap();
    let mut w = WriteBatcher::new(sm, 4);
    w.fail();
    let data = vec![0u8; 4096];
    assert_eq!(w.write(&data, 1), Err(MetadataError::Poisoned));
}

#[test]
fn damage_generator_leaks_counts() {
    // blocks 0..6 allocated; 1, 3 and 5 hold count two
    let mut sm = core_sm(8, 100);
    sm.inc(0, 6).unwrap();
    sm.inc(1, 1).unwrap();
    sm.inc(3, 1).unwrap();
    sm.inc(5, 1).unwrap();

    // ask for two leaks: the first two candidate blocks drop to one
    create_metadata_leaks(&mut sm, 2, 2, 1).unwrap();
    assert_eq!(sm.get(1).unwrap(), 1);
    assert_eq!(sm.get(3).unwrap(), 1);
    // the third candidate and everything else keep their counts
    assert_eq!(sm.get(5).unwrap(), 2);
    assert_eq!(sm.get(0).unwrap(), 1);
    assert_eq!(sm.get(2).unwrap(), 1);
    assert_eq!(sm.get(6).unwrap(), 0);
}

#[test]
fn node_codec_round_trip() {
    let leaf = BTreeNode::Leaf { keys: vec![1, 5, 9], values: vec![10, 50, 90] };
    let bytes = leaf.pack();
    assert_eq!(bytes.len(), 4096);
    // node type, entry count and capacity sit in the header
    assert_eq!(&bytes[4..8], &2u32.to_le_bytes());
    assert_eq!(&bytes[16..20], &3u32.to_le_bytes());
    assert_eq!(&bytes[20..24], &8u32.to_le_bytes());
    match BTreeNode::unpack(&bytes).unwrap() {
        BTreeNode::Leaf { keys, values } => {
            assert_eq!(keys, vec![1, 5, 9]);
            assert_eq!(values, vec![10, 50, 90]);
        },
        BTreeNode::Internal { .. } => panic!("leaf expected"),
    }

    let inner = BTreeNode::Internal { keys: vec![0, 100], children: vec![7, 8] };
    let bytes = inner.pack();
    assert_eq!(&bytes[4..8], &1u32.to_le_bytes());
    match BTreeNode::unpack(&bytes).unwrap() {
        BTreeNode::Internal { keys, children } => {
            assert_eq!(keys, vec![0, 100]);
            assert_eq!(children, vec![7, 8]);
        },
        BTreeNode::Leaf { .. } => panic!("internal expected"),
    }
}

#[test]
fn node_codec_rejects_damage() {
    let short = [0u8; 4095];
    assert!(matches!(BTreeNode::unpack(&short), Err(MetadataError::ShortBuffer)));

    // a header whose capacity or value size disagrees with the format
    let leaf = BTreeNode::Leaf { keys: vec![1], values: vec![2] };
    let mut bad = leaf.pack();
    bad[20] = 99;
    assert!(matches!(BTreeNode::unpack(&bad), Err(MetadataError::Corrupt)));

    let mut bad_flags = leaf.pack();
    bad_flags[4] = 9;
    assert!(matches!(BTreeNode::unpack(&bad_flags), Err(MetadataError::Corrupt)));
}

/// A visitor that drops every record.
struct Quiet;

impl MetadataVisitor for Quiet {
    fn superblock_b(&mut self, _sb: &Superblock) -> Result<(), MetadataError> {
        Ok(())
    }
    fn superblock_e(&mut self) -> Result<(), MetadataError> {
        Ok(())
    }
    fn device_b(&mut self, _dev_id: u64) -> Result<(), MetadataError> {
        Ok(())
    }
    fn device_e(&mut self) -> Result<(), MetadataError> {
        Ok(())
    }
    fn map(&mut self, _t: u64, _d: u64, _tm: u32, _l: u64) -> Result<(), MetadataError> {
        Ok(())
    }
    fn eof(&mut self) -> Result<(), MetadataError> {
        Ok(())
    }
}

#[test]
fn format_emits_empty_image() {
    let mut v = Quiet;
    let blocks = thinp::generator::format(&ThinGenerator, &mut v, 128, 100).unwrap();
    assert_eq!(blocks.len(), 3);

    // the superblock comes last: the commit barrier writes it only after
    // the tree roots are durable
    assert_eq!(blocks[2].0, 0);
    let sb = Superblock::unpack(&blocks[2].1, 0).unwrap();
    assert_eq!(sb.mapping_root, 1);
    assert_eq!(sb.details_root, 2);
    assert!(!sb.flags.needs_check);
    assert_eq!(sb.data_block_size, 128);
    assert_eq!(sb.nr_metadata_blocks, 100);
    assert_eq!(sb.transaction_id, 0);

    // both tree roots are empty leaves at their own addresses
    for (i, bnr) in [(0usize, 1u64), (1, 2)] {
        assert_eq!(blocks[i].0, bnr);
        assert_eq!(blocks[i].1.len(), 4096);
        match BTreeNode::unpack(&blocks[i].1).unwrap() {
            BTreeNode::Leaf { keys, values } => {
                assert!(keys.is_empty());
                assert!(values.is_empty());
            },
            BTreeNode::Internal { .. } => panic!("leaf expected"),
        }
        assert_eq!(&blocks[i].1[8..16], &bnr.to_le_bytes());
        let c = thinp::codec::block_csum(121107, &blocks[i].1[4..]);
        assert_eq!(&blocks[i].1[0..4], &c.to_le_bytes());
    }
}

#[test]
fn format_needs_three_blocks() {
    let mut v = Quiet;
    assert_eq!(
        thinp::generator::format(&ThinGenerator, &mut v, 128, 2),
        Err(MetadataError::OutOfSpace)
    );
}

#[test]
fn index_entries_describe_bitmaps() {
    let mut sm = DiskSpaceMap::new(10);
    sm.inc(0, 3).unwrap();
    sm.inc(5, 1).unwrap();
    let entries = build_index_entries(&sm, &vec![7]);
    assert_eq!(entries.len(), 1);
    assert_eq!(entries[0].blocknr, 7);
    // six of the ten covered slots are free, none below slot three
    assert_eq!(entries[0].nr_free, 6);
    assert_eq!(entries[0].none_free_before, 3);
}
