//! Synthetic metadata generation and damage: formatting a fresh pool, the
//! one-shot needs-check transition, and controlled corruption for testing
//! checkers.

use vstd::prelude::*;
use vstd::bytes::*;
use crate::batcher::{WriteBatcher, spec_patched};
use crate::btree::{
    BTreeNode, spec_node_bytes, spec_node_keys, spec_node_values, lemma_node_round_trip,
    BTREE_CSUM_SEED, NODE_FLAGS_LEAF,
};
use crate::codec::spec_block_csum;
use crate::errors::MetadataError;
use crate::space_map::{SpaceMap, CoreSpaceMap, core_sm};
use crate::superblock::{
    Superblock, SuperblockFlags, spec_superblock_bytes, spec_sb_well_formed,
    spec_parse_superblock, lemma_superblock_round_trip, SUPERBLOCK_LOCATION, SUPERBLOCK_VERSION,
};

verus! {

/// Callbacks a metadata walk hands its records to; the outer tool
/// implements these.
pub trait MetadataVisitor {
    /// The superblock opens the stream.
    fn superblock_b(&mut self, sb: &Superblock) -> Result<(), MetadataError>;

    /// The superblock's records are complete.
    fn superblock_e(&mut self) -> Result<(), MetadataError>;

    /// A thin device opens.
    fn device_b(&mut self, dev_id: u64) -> Result<(), MetadataError>;

    /// A thin device's mappings are complete.
    fn device_e(&mut self) -> Result<(), MetadataError>;

    /// A run of mappings: thin block, data block, time stamp, length.
    fn map(&mut self, thin_begin: u64, data_begin: u64, time: u32, len: u64) -> Result<
        (),
        MetadataError,
    >;

    /// The stream ends.
    fn eof(&mut self) -> Result<(), MetadataError>;
}

/// Something that can emit a metadata image through a visitor.
pub trait MetadataGenerator {
    /// Emits the image's records, in stream order.
    fn generate_metadata<V: MetadataVisitor>(&self, v: &mut V) -> Result<(), MetadataError>;
}

/// The thin-pool generator. It emits no records yet: formatting produces
/// an empty pool whose trees appear with its first real transaction.
pub struct ThinGenerator;

impl MetadataGenerator for ThinGenerator {
    fn generate_metadata<V: MetadataVisitor>(&self, _v: &mut V) -> (r: Result<
        (),
        MetadataError,
    >)
        ensures
            r == Ok::<(), MetadataError>(()),
    {
        Ok(())
    }
}

/// What the metadata generator is asked to do.
pub enum MetadataOp {
    /// Write a fresh, empty pool.
    Format,
    /// Raise the needs-check flag in the superblock.
    SetNeedsCheck,
}

/// How a generation run is configured; the output path stays with the
/// caller that owns the I/O.
pub struct ThinGenerateOpts {
    pub async_io: bool,
    pub op: MetadataOp,
    pub data_block_size: u32,
    pub nr_data_blocks: u64,
    pub output: String,
}

/// How many blocks the batcher queues before a formatting flush.
pub const FORMAT_BATCH_SIZE: usize = 64;

/// The superblock of a freshly formatted pool: version 2, a clean
/// needs-check flag, the empty mapping and details trees at blocks 1 and
/// 2, and nothing else referenced yet.
pub open spec fn spec_format_superblock(data_block_size: u32, nr_metadata_blocks: u64) -> Superblock {
    Superblock {
        flags: SuperblockFlags { needs_check: false },
        version: SUPERBLOCK_VERSION,
        time: 0,
        transaction_id: 0,
        metadata_snap: 0,
        uuid_lo: 0,
        uuid_hi: 0,
        mapping_root: 1,
        details_root: 2,
        data_sm_root: 0,
        metadata_sm_root: 0,
        data_block_size,
        nr_metadata_blocks,
        compat_flags: 0,
        incompat_flags: 0,
    }
}

/// A full block holding an empty B-tree leaf: correctly checksummed,
/// self-referenced to `bnr`, tagged as a leaf, with zero entries.
pub open spec fn spec_empty_leaf_block(body: Seq<u8>, bnr: u64) -> bool {
    &&& body.len() == 4096
    &&& spec_u32_from_le_bytes(body.subrange(0, 4)) == spec_block_csum(
        BTREE_CSUM_SEED,
        body.subrange(4, 4096),
    )
    &&& spec_u32_from_le_bytes(body.subrange(4, 8)) == NODE_FLAGS_LEAF
    &&& spec_u64_from_le_bytes(body.subrange(8, 16)) == bnr
    &&& spec_u32_from_le_bytes(body.subrange(16, 20)) == 0
}

/// Patching an empty leaf's bytes for its address yields an empty-leaf
/// block: checksum, self-reference, leaf tag and zero entry count all
/// read back.
proof fn lemma_patched_empty_leaf(node: BTreeNode, bnr: u64)
    requires
        node is Leaf,
        spec_node_keys(node).len() == 0,
        spec_node_values(node).len() == 0,
    ensures
        spec_empty_leaf_block(spec_patched(spec_node_bytes(node), bnr, BTREE_CSUM_SEED), bnr),
{
    lemma_auto_spec_u32_to_from_le_bytes();
    lemma_auto_spec_u64_to_from_le_bytes();
    lemma_node_round_trip(node);
    let d = spec_node_bytes(node);
    let body = d.subrange(4, 8) + spec_u64_to_le_bytes(bnr) + d.subrange(16, 4096);
    let p = spec_patched(d, bnr, BTREE_CSUM_SEED);
    assert(p.subrange(0, 4) =~= spec_u32_to_le_bytes(spec_block_csum(BTREE_CSUM_SEED, body)));
    assert(p.subrange(4, 4096) =~= body);
    assert(p.subrange(4, 8) =~= d.subrange(4, 8));
    assert(p.subrange(8, 16) =~= spec_u64_to_le_bytes(bnr));
    assert(p.subrange(16, 20) =~= d.subrange(16, 20));
}

/// Formats a pool: runs the generator once through the visitor (today it
/// emits no records), then builds the empty image through the write
/// batcher over a core metadata space map — the fresh empty mapping and
/// details trees at the first two allocated blocks, and last, for the
/// commit barrier to write after they are durable, a valid empty
/// superblock for block 0.
pub fn format<V: MetadataVisitor>(
    gen: &ThinGenerator,
    v: &mut V,
    data_block_size: u32,
    nr_metadata_blocks: u64,
) -> (r: Result<Vec<(u64, Vec<u8>)>, MetadataError>)
    requires
        nr_metadata_blocks <= usize::MAX,
    ensures
        nr_metadata_blocks < 3 ==> r == Err::<Vec<(u64, Vec<u8>)>, MetadataError>(
            MetadataError::OutOfSpace,
        ),
        nr_metadata_blocks >= 3 ==> (r matches Ok(blocks) && {
            &&& blocks@.len() == 3
            &&& blocks@[0].0 == 1 && spec_empty_leaf_block(blocks@[0].1@, 1)
            &&& blocks@[1].0 == 2 && spec_empty_leaf_block(blocks@[1].1@, 2)
            &&& blocks@[2].0 == SUPERBLOCK_LOCATION
            &&& blocks@[2].1@ == spec_superblock_bytes(
                spec_format_superblock(data_block_size, nr_metadata_blocks),
                SUPERBLOCK_LOCATION,
            )
            &&& spec_sb_well_formed(blocks@[2].1@, SUPERBLOCK_LOCATION)
            &&& spec_parse_superblock(blocks@[2].1@) == spec_format_superblock(
                data_block_size,
                nr_metadata_blocks,
            )
        }),
{
    if nr_metadata_blocks < 3 {
        return Err(MetadataError::OutOfSpace);
    }
    // the generator's records come first; the current generator has none
    match gen.generate_metadata(v) {
        Ok(()) => {},
        Err(e) => {
            return Err(e);
        },
    }
    // block 0 is the superblock: held before batching starts
    let mut sm = core_sm(nr_metadata_blocks, 0xffff_ffffu32);
    proof {
        assert(sm.sm_view()[0] == 0 && sm.sm_view()[1] == 0 && sm.sm_view()[2] == 0);
    }
    match sm.inc(0, 1) {
        Ok(()) => {},
        Err(e) => {
            return Err(e);
        },
    }
    proof {
        assert(sm.sm_view()[0] == 1 && sm.sm_view()[1] == 0 && sm.sm_view()[2] == 0);
    }
    let mut w = WriteBatcher::new(sm, FORMAT_BATCH_SIZE);
    proof {
        assert(w.spec_sm().sm_view()[0] == 1 && w.spec_sm().sm_view()[1] == 0
            && w.spec_sm().sm_view()[2] == 0);
    }

    let mapping_node = BTreeNode::Leaf { keys: Vec::new(), values: Vec::new() };
    let node_bytes = mapping_node.pack();
    let ghost nd = node_bytes@;

    let ghost v0 = w.spec_sm().sm_view();
    let (b1, f1) = match w.write(node_bytes.as_slice(), BTREE_CSUM_SEED) {
        Ok(x) => x,
        Err(_) => {
            // a write fails only on a full map; block 1 is free
            proof {
                assert(false);
            }
            return Err(MetadataError::OutOfSpace);
        },
    };
    proof {
        assert(v0[1] == 0 && v0[2] == 0);
        if b1 != 1 {
            assert(v0[1] > 0);
        }
        assert(b1 == 1);
        assert(w.spec_sm().sm_view() == v0.update(1int, 1u32));
    }
    match f1 {
        Some(_) => {
            // one queued block cannot reach the batch size
            proof {
                assert(false);
            }
            return Err(MetadataError::Corrupt);
        },
        None => {},
    }
    let ghost v1 = w.spec_sm().sm_view();
    proof {
        assert(v1[0] == 1 && v1[1] == 1 && v1[2] == 0);
        assert(w.spec_queue().len() == 1);
        assert(w.spec_batch_size() == FORMAT_BATCH_SIZE);
    }
    let (b2, f2) = match w.write(node_bytes.as_slice(), BTREE_CSUM_SEED) {
        Ok(x) => x,
        Err(_) => {
            // block 2 is still free
            proof {
                assert(false);
            }
            return Err(MetadataError::OutOfSpace);
        },
    };
    proof {
        if b2 != 2 {
            assert(v1[b2 as int] == 0);
            assert(v1[1] > 0 && v1[2] > 0);
        }
        assert(b2 == 2);
    }
    match f2 {
        Some(_) => {
            // two queued blocks cannot reach the batch size
            proof {
                assert(false);
            }
            return Err(MetadataError::Corrupt);
        },
        None => {},
    }
    let mut out = match w.flush() {
        Ok(batch) => batch,
        Err(_) => {
            // nothing failed, so the batcher is not poisoned
            proof {
                assert(false);
            }
            return Err(MetadataError::Poisoned);
        },
    };
    let sb = Superblock {
        flags: SuperblockFlags { needs_check: false },
        version: SUPERBLOCK_VERSION,
        time: 0,
        transaction_id: 0,
        metadata_snap: 0,
        uuid_lo: 0,
        uuid_hi: 0,
        mapping_root: b1,
        details_root: b2,
        data_sm_root: 0,
        metadata_sm_root: 0,
        data_block_size,
        nr_metadata_blocks,
        compat_flags: 0,
        incompat_flags: 0,
    };
    let sb_bytes = sb.pack(SUPERBLOCK_LOCATION);
    out.push((SUPERBLOCK_LOCATION, sb_bytes));
    proof {
        lemma_patched_empty_leaf(mapping_node, 1);
        lemma_patched_empty_leaf(mapping_node, 2);
        lemma_superblock_round_trip(sb, SUPERBLOCK_LOCATION);
        assert(sb == spec_format_superblock(data_block_size, nr_metadata_blocks));
        assert(out@[0].1@ == spec_patched(nd, 1, BTREE_CSUM_SEED));
        assert(out@[1].1@ == spec_patched(nd, 2, BTREE_CSUM_SEED));
    }
    Ok(out)
}

//------------------------------------------
// Damage generation

/// What the damage generator is asked to break.
pub enum DamageOp {
    /// Lower `nr_blocks` blocks whose count reads `expected_rc` down to
    /// `actual_rc`, leaking them.
    CreateMetadataLeaks { nr_blocks: usize, expected_rc: u32, actual_rc: u32 },
}

/// How a damage run is configured; the output path stays with the caller
/// that owns the I/O.
pub struct ThinDamageOpts {
    pub async_io: bool,
    pub op: DamageOp,
    pub output: String,
}

/// The counts after leaking: scanning front to back, the first `k` blocks
/// holding `exp` are rewritten to `act`.
pub open spec fn spec_leaks(s: Seq<u32>, k: nat, exp: u32, act: u32) -> Seq<u32>
    decreases s.len(),
{
    if s.len() == 0 || k == 0 {
        s
    } else if s[0] == exp {
        seq![act] + spec_leaks(s.drop_first(), (k - 1) as nat, exp, act)
    } else {
        seq![s[0]] + spec_leaks(s.drop_first(), k, exp, act)
    }
}

/// Rewrites the first `nr_blocks` blocks whose reference count reads
/// `expected_rc` to `actual_rc`, without touching anything else: the
/// structure of the image stays walkable, only counts leak.
pub fn create_metadata_leaks(
    sm: &mut CoreSpaceMap,
    nr_blocks: usize,
    expected_rc: u32,
    actual_rc: u32,
) -> (r: Result<(), MetadataError>)
    requires
        actual_rc <= old(sm).sm_cap(),
        old(sm).sm_view().len() <= u64::MAX,
    ensures
        r == Ok::<(), MetadataError>(()),
        final(sm).sm_view() == spec_leaks(
            old(sm).sm_view(),
            nr_blocks as nat,
            expected_rc,
            actual_rc,
        ),
{
    let ghost oldv = old(sm).sm_view();
    let n = sm.nr_blocks();
    let ghost nn = oldv.len() as int;
    proof {
        assert(oldv.subrange(0, nn) =~= oldv);
        assert(Seq::<u32>::empty() + spec_leaks(oldv.subrange(0, nn), nr_blocks as nat, expected_rc, actual_rc)
            =~= spec_leaks(oldv, nr_blocks as nat, expected_rc, actual_rc));
    }
    let mut i: u64 = 0;
    let mut rem: usize = nr_blocks;
    while i < n
        invariant
            i <= n,
            n == oldv.len(),
            rem <= nr_blocks,
            sm.sm_cap() == old(sm).sm_cap(),
            actual_rc <= sm.sm_cap(),
            sm.sm_view().len() == oldv.len(),
            sm.sm_view().subrange(i as int, nn) == oldv.subrange(i as int, nn),
            nn == oldv.len() as int,
            spec_leaks(oldv, nr_blocks as nat, expected_rc, actual_rc) == sm.sm_view().subrange(
                0,
                i as int,
            ) + spec_leaks(oldv.subrange(i as int, nn), rem as nat, expected_rc, actual_rc),
        decreases n - i,
    {
        let ghost s = oldv.subrange(i as int, nn);
        proof {
            assert(s.len() > 0);
            assert(s[0] == oldv[i as int]);
            assert(sm.sm_view()[i as int] == oldv[i as int]) by {
                assert(sm.sm_view().subrange(i as int, nn)[0] == oldv.subrange(i as int, nn)[0]);
            }
            assert(s.drop_first() =~= oldv.subrange(i as int + 1, nn));
        }
        let c = match sm.get(i) {
            Ok(c) => c,
            Err(_) => 0,
        };
        let ghost prefix = sm.sm_view().subrange(0, i as int);
        if c == expected_rc && rem > 0 {
            sm.set_count(i, actual_rc);
            rem = rem - 1;
            proof {
                assert(sm.sm_view().subrange(0, i as int + 1) =~= prefix + seq![actual_rc]);
                assert(sm.sm_view().subrange(i as int + 1, nn) =~= oldv.subrange(i as int + 1, nn));
                assert(prefix + (seq![actual_rc] + spec_leaks(
                    oldv.subrange(i as int + 1, nn),
                    rem as nat,
                    expected_rc,
                    actual_rc,
                )) =~= (prefix + seq![actual_rc]) + spec_leaks(
                    oldv.subrange(i as int + 1, nn),
                    rem as nat,
                    expected_rc,
                    actual_rc,
                ));
            }
        } else {
            proof {
                assert(sm.sm_view().subrange(0, i as int + 1) =~= prefix + seq![oldv[i as int]]);
                assert(sm.sm_view().subrange(i as int + 1, nn) =~= oldv.subrange(i as int + 1, nn));
                if rem == 0 {
                    assert(spec_leaks(s, 0, expected_rc, actual_rc) == s);
                    assert(s =~= seq![s[0]] + s.drop_first());
                    assert(spec_leaks(s.drop_first(), 0, expected_rc, actual_rc)
                        == s.drop_first());
                }
                assert(prefix + (seq![oldv[i as int]] + spec_leaks(
                    oldv.subrange(i as int + 1, nn),
                    rem as nat,
                    expected_rc,
                    actual_rc,
                )) =~= (prefix + seq![oldv[i as int]]) + spec_leaks(
                    oldv.subrange(i as int + 1, nn),
                    rem as nat,
                    expected_rc,
                    actual_rc,
                ));
            }
        }
        i = i + 1;
    }
    proof {
        assert(oldv.subrange(nn, nn) =~= Seq::<u32>::empty());
        assert(sm.sm_view().subrange(0, nn) =~= sm.sm_view());
    }
    Ok(())
}

} // verus!
