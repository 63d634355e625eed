//! The superblock: root descriptor at block 0 whose rewrite publishes a
//! transaction.

use vstd::prelude::*;
use vstd::bytes::*;
use crate::codec::{read_u32_at, read_u64_at, push_u32_le, push_u64_le, block_csum, spec_block_csum};
use crate::errors::MetadataError;

verus! {

/// The block the superblock lives at.
pub const SUPERBLOCK_LOCATION: u64 = 0;

/// Magic number tagging a block as a thin-pool superblock.
pub const SUPERBLOCK_MAGIC: u32 = 27022010;

/// The metadata format version this engine reads and writes.
pub const SUPERBLOCK_VERSION: u32 = 2;

/// Checksum seed folded into superblock checksums.
pub const SUPERBLOCK_CSUM_SEED: u32 = 160774;

/// Bytes of a packed superblock, reserved tail included.
pub const SUPERBLOCK_SIZE: usize = 512;

/// Persistent state bits of the pool.
#[derive(Clone, Copy, Debug, PartialEq, Eq, Structural)]
pub struct SuperblockFlags {
    /// Set when a prior shutdown was unclean: the metadata wants an
    /// offline check before the next mount.
    pub needs_check: bool,
}

/// The decoded superblock.
#[derive(Clone, Copy, Debug, PartialEq, Eq, Structural)]
pub struct Superblock {
    pub flags: SuperblockFlags,
    pub version: u32,
    pub time: u32,
    pub transaction_id: u64,
    pub metadata_snap: u64,
    pub uuid_lo: u64,
    pub uuid_hi: u64,
    pub mapping_root: u64,
    pub details_root: u64,
    pub data_sm_root: u64,
    pub metadata_sm_root: u64,
    pub data_block_size: u32,
    pub nr_metadata_blocks: u64,
    pub compat_flags: u32,
    pub incompat_flags: u32,
}

/// The stored flags word: `needs_check` in the lowest bit.
pub open spec fn spec_flags_word(f: SuperblockFlags) -> u32 {
    if f.needs_check {
        1u32
    } else {
        0u32
    }
}

/// Bytes 4 .. 512 of a packed superblock at `loc`.
pub open spec fn spec_sb_body(sb: Superblock, loc: u64) -> Seq<u8> {
    spec_u32_to_le_bytes(spec_flags_word(sb.flags)) + spec_u64_to_le_bytes(loc)
        + spec_u32_to_le_bytes(SUPERBLOCK_MAGIC) + spec_u32_to_le_bytes(sb.version)
        + spec_u32_to_le_bytes(sb.time) + Seq::new(4, |i: int| 0u8) + spec_u64_to_le_bytes(
        sb.transaction_id,
    ) + spec_u64_to_le_bytes(sb.metadata_snap) + spec_u64_to_le_bytes(sb.uuid_lo)
        + spec_u64_to_le_bytes(sb.uuid_hi) + spec_u64_to_le_bytes(sb.mapping_root)
        + spec_u64_to_le_bytes(sb.details_root) + spec_u64_to_le_bytes(sb.data_sm_root)
        + spec_u64_to_le_bytes(sb.metadata_sm_root) + spec_u32_to_le_bytes(sb.data_block_size)
        + spec_u64_to_le_bytes(sb.nr_metadata_blocks) + spec_u32_to_le_bytes(sb.compat_flags)
        + spec_u32_to_le_bytes(sb.incompat_flags) + Seq::new(396, |i: int| 0u8)
}

/// A whole packed superblock: checksum over the body, then the body.
pub open spec fn spec_superblock_bytes(sb: Superblock, loc: u64) -> Seq<u8> {
    spec_u32_to_le_bytes(spec_block_csum(SUPERBLOCK_CSUM_SEED, spec_sb_body(sb, loc)))
        + spec_sb_body(sb, loc)
}

/// The superblock encoded in `data`, fields read at their fixed offsets.
pub open spec fn spec_parse_superblock(data: Seq<u8>) -> Superblock {
    Superblock {
        flags: SuperblockFlags {
            needs_check: spec_u32_from_le_bytes(data.subrange(4, 8)) & 1 == 1,
        },
        version: spec_u32_from_le_bytes(data.subrange(20, 24)),
        time: spec_u32_from_le_bytes(data.subrange(24, 28)),
        transaction_id: spec_u64_from_le_bytes(data.subrange(32, 40)),
        metadata_snap: spec_u64_from_le_bytes(data.subrange(40, 48)),
        uuid_lo: spec_u64_from_le_bytes(data.subrange(48, 56)),
        uuid_hi: spec_u64_from_le_bytes(data.subrange(56, 64)),
        mapping_root: spec_u64_from_le_bytes(data.subrange(64, 72)),
        details_root: spec_u64_from_le_bytes(data.subrange(72, 80)),
        data_sm_root: spec_u64_from_le_bytes(data.subrange(80, 88)),
        metadata_sm_root: spec_u64_from_le_bytes(data.subrange(88, 96)),
        data_block_size: spec_u32_from_le_bytes(data.subrange(96, 100)),
        nr_metadata_blocks: spec_u64_from_le_bytes(data.subrange(100, 108)),
        compat_flags: spec_u32_from_le_bytes(data.subrange(108, 112)),
        incompat_flags: spec_u32_from_le_bytes(data.subrange(112, 116)),
    }
}

/// The stored checksum agrees with the one computed over bytes 4 .. 512.
pub open spec fn spec_sb_csum_ok(data: Seq<u8>) -> bool {
    spec_u32_from_le_bytes(data.subrange(0, 4)) == spec_block_csum(
        SUPERBLOCK_CSUM_SEED,
        data.subrange(4, 512),
    )
}

/// The self-reference agrees with the address the block was read from.
pub open spec fn spec_sb_blocknr_ok(data: Seq<u8>, loc: u64) -> bool {
    spec_u64_from_le_bytes(data.subrange(8, 16)) == loc
}

/// The magic tags the block as a superblock.
pub open spec fn spec_sb_magic_ok(data: Seq<u8>) -> bool {
    spec_u32_from_le_bytes(data.subrange(16, 20)) == SUPERBLOCK_MAGIC
}

/// The version is the one this engine supports.
pub open spec fn spec_sb_version_ok(data: Seq<u8>) -> bool {
    spec_u32_from_le_bytes(data.subrange(20, 24)) == SUPERBLOCK_VERSION
}

/// What a well-formed on-disk superblock looks like: all checks pass, the
/// flags word holds nothing but `needs_check`, and the reserved bytes are
/// zero.
pub open spec fn spec_sb_well_formed(data: Seq<u8>, loc: u64) -> bool {
    &&& data.len() == 512
    &&& spec_sb_csum_ok(data)
    &&& spec_sb_blocknr_ok(data, loc)
    &&& spec_sb_magic_ok(data)
    &&& spec_sb_version_ok(data)
    &&& spec_u32_from_le_bytes(data.subrange(4, 8)) < 2
    &&& data.subrange(28, 32) =~= Seq::new(4, |i: int| 0u8)
    &&& data.subrange(116, 512) =~= Seq::new(396, |i: int| 0u8)
}

/// Appends `n` zero bytes.
fn push_zeroes(out: &mut Vec<u8>, n: usize)
    ensures
        final(out)@ == old(out)@ + Seq::new(n as nat, |i: int| 0u8),
{
    let mut k: usize = 0;
    while k < n
        invariant
            k <= n,
            out@ == old(out)@ + Seq::new(k as nat, |i: int| 0u8),
        decreases n - k,
    {
        out.push(0);
        proof {
            assert(old(out)@ + Seq::new((k + 1) as nat, |i: int| 0u8) =~= (old(out)@ + Seq::new(
                k as nat,
                |i: int| 0u8,
            )).push(0u8));
        }
        k = k + 1;
    }
}

impl Superblock {
    /// Serializes the superblock for address `loc`, checksum first.
    pub fn pack(&self, loc: u64) -> (r: Vec<u8>)
        ensures
            r@ == spec_superblock_bytes(*self, loc),
            r@.len() == 512,
    {
        let mut body: Vec<u8> = Vec::new();
        let flags_word: u32 = if self.flags.needs_check {
            1
        } else {
            0
        };
        push_u32_le(&mut body, flags_word);
        push_u64_le(&mut body, loc);
        push_u32_le(&mut body, SUPERBLOCK_MAGIC);
        push_u32_le(&mut body, self.version);
        push_u32_le(&mut body, self.time);
        push_zeroes(&mut body, 4);
        push_u64_le(&mut body, self.transaction_id);
        push_u64_le(&mut body, self.metadata_snap);
        push_u64_le(&mut body, self.uuid_lo);
        push_u64_le(&mut body, self.uuid_hi);
        push_u64_le(&mut body, self.mapping_root);
        push_u64_le(&mut body, self.details_root);
        push_u64_le(&mut body, self.data_sm_root);
        push_u64_le(&mut body, self.metadata_sm_root);
        push_u32_le(&mut body, self.data_block_size);
        push_u64_le(&mut body, self.nr_metadata_blocks);
        push_u32_le(&mut body, self.compat_flags);
        push_u32_le(&mut body, self.incompat_flags);
        push_zeroes(&mut body, 396);
        proof {
            lemma_auto_spec_u32_to_from_le_bytes();
            lemma_auto_spec_u64_to_from_le_bytes();
            assert(body@ =~= spec_sb_body(*self, loc));
            assert(body@.len() == 508);
        }
        let csum = block_csum(SUPERBLOCK_CSUM_SEED, body.as_slice());
        let mut out: Vec<u8> = Vec::new();
        push_u32_le(&mut out, csum);
        out.append(&mut body);
        proof {
            assert(out@ =~= spec_superblock_bytes(*self, loc));
        }
        out
    }

    /// Validates and decodes a superblock read from address `loc`.
    ///
    /// The checks run in order: length, checksum, self-reference, magic,
    /// version; the first to fail names the error.
    pub fn unpack(data: &[u8], loc: u64) -> (r: Result<Superblock, MetadataError>)
        ensures
            data@.len() < 512 ==> r == Err::<Superblock, MetadataError>(MetadataError::ShortBuffer),
            data@.len() >= 512 ==> r == (if !spec_sb_csum_ok(data@) {
                Err::<Superblock, MetadataError>(MetadataError::BadChecksum(loc))
            } else if !spec_sb_blocknr_ok(data@, loc) {
                Err::<Superblock, MetadataError>(MetadataError::Corrupt)
            } else if !spec_sb_magic_ok(data@) {
                Err::<Superblock, MetadataError>(MetadataError::BadMagic)
            } else if !spec_sb_version_ok(data@) {
                Err::<Superblock, MetadataError>(MetadataError::VersionMismatch)
            } else {
                Ok::<Superblock, MetadataError>(spec_parse_superblock(data@))
            }),
    {
        proof {
            vstd::slice::axiom_spec_len(data);
        }
        if data.len() < 512 {
            return Err(MetadataError::ShortBuffer);
        }
        let stored = read_u32_at(data, 0);
        let body = vstd::slice::slice_subrange(data, 4, 512);
        let computed = block_csum(SUPERBLOCK_CSUM_SEED, body);
        if stored != computed {
            return Err(MetadataError::BadChecksum(loc));
        }
        let blocknr = read_u64_at(data, 8);
        if blocknr != loc {
            return Err(MetadataError::Corrupt);
        }
        let magic = read_u32_at(data, 16);
        if magic != SUPERBLOCK_MAGIC {
            return Err(MetadataError::BadMagic);
        }
        let version = read_u32_at(data, 20);
        if version != SUPERBLOCK_VERSION {
            return Err(MetadataError::VersionMismatch);
        }
        let flags_word = read_u32_at(data, 4);
        Ok(
            Superblock {
                flags: SuperblockFlags { needs_check: flags_word & 1 == 1 },
                version,
                time: read_u32_at(data, 24),
                transaction_id: read_u64_at(data, 32),
                metadata_snap: read_u64_at(data, 40),
                uuid_lo: read_u64_at(data, 48),
                uuid_hi: read_u64_at(data, 56),
                mapping_root: read_u64_at(data, 64),
                details_root: read_u64_at(data, 72),
                data_sm_root: read_u64_at(data, 80),
                metadata_sm_root: read_u64_at(data, 88),
                data_block_size: read_u32_at(data, 96),
                nr_metadata_blocks: read_u64_at(data, 100),
                compat_flags: read_u32_at(data, 108),
                incompat_flags: read_u32_at(data, 112),
            },
        )
    }

    /// The same superblock with the needs-check flag raised.
    pub fn with_needs_check(&self) -> (r: Superblock)
        ensures
            r == (Superblock { flags: SuperblockFlags { needs_check: true }, ..*self }),
    {
        Superblock { flags: SuperblockFlags { needs_check: true }, ..*self }
    }
}

/// Unpacking the packed form of any version-2 superblock yields it back,
/// and every validity check passes on the packed bytes.
pub proof fn lemma_superblock_round_trip(sb: Superblock, loc: u64)
    requires
        sb.version == SUPERBLOCK_VERSION,
    ensures
        spec_sb_well_formed(spec_superblock_bytes(sb, loc), loc),
        spec_parse_superblock(spec_superblock_bytes(sb, loc)) == sb,
{
    assert(spec_flags_word(sb.flags) < 2);
    lemma_auto_spec_u64_to_from_le_bytes();
    lemma_auto_spec_u32_to_from_le_bytes();
    let s = spec_superblock_bytes(sb, loc);
    let body = spec_sb_body(sb, loc);
    assert(s.subrange(0, 4) =~= spec_u32_to_le_bytes(
        spec_block_csum(SUPERBLOCK_CSUM_SEED, body),
    ));
    assert(s.subrange(4, 512) =~= body);
    assert(s.subrange(4, 8) =~= spec_u32_to_le_bytes(spec_flags_word(sb.flags)));
    assert(s.subrange(8, 16) =~= spec_u64_to_le_bytes(loc));
    assert(s.subrange(16, 20) =~= spec_u32_to_le_bytes(SUPERBLOCK_MAGIC));
    assert(s.subrange(20, 24) =~= spec_u32_to_le_bytes(sb.version));
    assert(s.subrange(24, 28) =~= spec_u32_to_le_bytes(sb.time));
    assert(s.subrange(28, 32) =~= Seq::new(4, |i: int| 0u8));
    assert(s.subrange(32, 40) =~= spec_u64_to_le_bytes(sb.transaction_id));
    assert(s.subrange(40, 48) =~= spec_u64_to_le_bytes(sb.metadata_snap));
    assert(s.subrange(48, 56) =~= spec_u64_to_le_bytes(sb.uuid_lo));
    assert(s.subrange(56, 64) =~= spec_u64_to_le_bytes(sb.uuid_hi));
    assert(s.subrange(64, 72) =~= spec_u64_to_le_bytes(sb.mapping_root));
    assert(s.subrange(72, 80) =~= spec_u64_to_le_bytes(sb.details_root));
    assert(s.subrange(80, 88) =~= spec_u64_to_le_bytes(sb.data_sm_root));
    assert(s.subrange(88, 96) =~= spec_u64_to_le_bytes(sb.metadata_sm_root));
    assert(s.subrange(96, 100) =~= spec_u32_to_le_bytes(sb.data_block_size));
    assert(s.subrange(100, 108) =~= spec_u64_to_le_bytes(sb.nr_metadata_blocks));
    assert(s.subrange(108, 112) =~= spec_u32_to_le_bytes(sb.compat_flags));
    assert(s.subrange(112, 116) =~= spec_u32_to_le_bytes(sb.incompat_flags));
    assert(s.subrange(116, 512) =~= Seq::new(396, |i: int| 0u8));
    if sb.flags.needs_check {
        assert(1u32 & 1 == 1) by (bit_vector);
    } else {
        assert(0u32 & 1 == 0) by (bit_vector);
    }
}

/// Reads the superblock out of a block's bytes, raises `needs_check`, and
/// serializes it again: the one-shot transition repair tools use. Raising
/// the flag twice writes the same bytes as raising it once, so the
/// operation is idempotent.
pub fn set_needs_check(data: &[u8], loc: u64) -> (r: Result<Vec<u8>, MetadataError>)
    ensures
        data@.len() < 512 ==> r == Err::<Vec<u8>, MetadataError>(MetadataError::ShortBuffer),
        data@.len() >= 512 && !spec_sb_csum_ok(data@) ==> r == Err::<Vec<u8>, MetadataError>(
            MetadataError::BadChecksum(loc),
        ),
        data@.len() >= 512 && spec_sb_csum_ok(data@) && !spec_sb_blocknr_ok(data@, loc) ==> r
            == Err::<Vec<u8>, MetadataError>(MetadataError::Corrupt),
        data@.len() >= 512 && spec_sb_csum_ok(data@) && spec_sb_blocknr_ok(data@, loc)
            && !spec_sb_magic_ok(data@) ==> r == Err::<Vec<u8>, MetadataError>(
            MetadataError::BadMagic,
        ),
        data@.len() >= 512 && spec_sb_csum_ok(data@) && spec_sb_blocknr_ok(data@, loc)
            && spec_sb_magic_ok(data@) && !spec_sb_version_ok(data@) ==> r == Err::<
            Vec<u8>,
            MetadataError,
        >(MetadataError::VersionMismatch),
        data@.len() >= 512 && spec_sb_csum_ok(data@) && spec_sb_blocknr_ok(data@, loc)
            && spec_sb_magic_ok(data@) && spec_sb_version_ok(data@) ==> (r matches Ok(v) && v@
            == spec_superblock_bytes(
            Superblock {
                flags: SuperblockFlags { needs_check: true },
                ..spec_parse_superblock(data@)
            },
            loc,
        )),
{
    match Superblock::unpack(data, loc) {
        Ok(sb) => Ok(sb.with_needs_check().pack(loc)),
        Err(e) => Err(e),
    }
}

} // verus!
