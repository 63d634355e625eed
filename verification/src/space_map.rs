//! Space maps: reference counts for every metadata or data block.
//!
//! The on-disk representation is two-tiered. A bitmap holds counts 0..=2 in
//! two bits per block; the value 3 is an escape sentinel meaning "the real
//! 32-bit count lives in the overflow B-tree". This module holds the on-disk
//! structs with their codecs, and the array-backed in-core space map used by
//! synthetic generation and checking.

use vstd::prelude::*;
use vstd::bytes::*;
use crate::codec::{read_u32_at, read_u64_at, push_u32_le, push_u64_le};
use crate::errors::MetadataError;

verus! {

/// Every metadata block is this many bytes.
pub const BLOCK_SIZE: usize = 4096;

/// Bytes of the header that starts a bitmap block.
pub const BITMAP_HEADER_SIZE: usize = 16;

/// 64-bit words of packed entries in one bitmap block.
pub const WORDS_PER_BITMAP: usize = 510;

/// 2-bit entries held by one bitmap block.
pub const ENTRIES_PER_BITMAP: usize = 16320;

//------------------------------------------
// Space-map root

/// Root record of a space map: 32 bytes inside the superblock.
#[derive(Clone, Copy, Debug, PartialEq, Eq, Structural)]
pub struct SMRoot {
    pub nr_blocks: u64,
    pub nr_allocated: u64,
    pub bitmap_root: u64,
    pub ref_count_root: u64,
}

/// On-disk bytes of a space-map root.
pub open spec fn spec_sm_root_bytes(v: SMRoot) -> Seq<u8> {
    spec_u64_to_le_bytes(v.nr_blocks) + spec_u64_to_le_bytes(v.nr_allocated)
        + spec_u64_to_le_bytes(v.bitmap_root) + spec_u64_to_le_bytes(v.ref_count_root)
}

/// Space-map root decoded from the first 32 bytes.
pub open spec fn spec_unpack_sm_root(data: Seq<u8>) -> SMRoot {
    SMRoot {
        nr_blocks: spec_u64_from_le_bytes(data.subrange(0, 8)),
        nr_allocated: spec_u64_from_le_bytes(data.subrange(8, 16)),
        bitmap_root: spec_u64_from_le_bytes(data.subrange(16, 24)),
        ref_count_root: spec_u64_from_le_bytes(data.subrange(24, 32)),
    }
}

impl SMRoot {
    /// Bytes this record takes on disk.
    pub fn disk_size() -> (r: u32)
        ensures
            r == 32,
    {
        32
    }

    /// Serializes the root to its 32-byte on-disk form.
    pub fn pack(&self) -> (r: Vec<u8>)
        ensures
            r@ == spec_sm_root_bytes(*self),
            r@.len() == 32,
    {
        let mut out: Vec<u8> = Vec::new();
        push_u64_le(&mut out, self.nr_blocks);
        push_u64_le(&mut out, self.nr_allocated);
        push_u64_le(&mut out, self.bitmap_root);
        push_u64_le(&mut out, self.ref_count_root);
        proof {
            lemma_auto_spec_u64_to_from_le_bytes();
        }
        out
    }

    /// Decodes the root from the front of `data`.
    pub fn unpack(data: &[u8]) -> (r: Result<SMRoot, MetadataError>)
        ensures
            data@.len() >= 32 ==> r == Ok::<SMRoot, MetadataError>(
                spec_unpack_sm_root(data@.subrange(0, 32)),
            ),
            data@.len() < 32 ==> r == Err::<SMRoot, MetadataError>(MetadataError::ShortBuffer),
    {
        if data.len() < 32 {
            return Err(MetadataError::ShortBuffer);
        }
        let nr_blocks = read_u64_at(data, 0);
        let nr_allocated = read_u64_at(data, 8);
        let bitmap_root = read_u64_at(data, 16);
        let ref_count_root = read_u64_at(data, 24);
        proof {
            assert(data@.subrange(0, 32).subrange(0, 8) =~= data@.subrange(0, 8));
            assert(data@.subrange(0, 32).subrange(8, 16) =~= data@.subrange(8, 16));
            assert(data@.subrange(0, 32).subrange(16, 24) =~= data@.subrange(16, 24));
            assert(data@.subrange(0, 32).subrange(24, 32) =~= data@.subrange(24, 32));
        }
        Ok(SMRoot { nr_blocks, nr_allocated, bitmap_root, ref_count_root })
    }
}

/// Decodes a space-map root, reporting a too-short buffer.
pub fn unpack_root(data: &[u8]) -> (r: Result<SMRoot, MetadataError>)
    ensures
        data@.len() >= 32 ==> r == Ok::<SMRoot, MetadataError>(
            spec_unpack_sm_root(data@.subrange(0, 32)),
        ),
        data@.len() < 32 ==> r == Err::<SMRoot, MetadataError>(MetadataError::ShortBuffer),
{
    SMRoot::unpack(data)
}

/// Unpacking the packed form of any root yields the root back.
pub proof fn lemma_sm_root_round_trip(v: SMRoot)
    ensures
        spec_sm_root_bytes(v).len() == 32,
        spec_unpack_sm_root(spec_sm_root_bytes(v)) == v,
{
    lemma_auto_spec_u64_to_from_le_bytes();
    let s = spec_sm_root_bytes(v);
    assert(s.subrange(0, 8) =~= spec_u64_to_le_bytes(v.nr_blocks));
    assert(s.subrange(8, 16) =~= spec_u64_to_le_bytes(v.nr_allocated));
    assert(s.subrange(16, 24) =~= spec_u64_to_le_bytes(v.bitmap_root));
    assert(s.subrange(24, 32) =~= spec_u64_to_le_bytes(v.ref_count_root));
}

/// Packing the decoded form of any 32 bytes yields the bytes back.
pub proof fn lemma_sm_root_bytes_round_trip(data: Seq<u8>)
    requires
        data.len() == 32,
    ensures
        spec_sm_root_bytes(spec_unpack_sm_root(data)) == data,
{
    lemma_auto_spec_u64_to_from_le_bytes();
    assert(spec_sm_root_bytes(spec_unpack_sm_root(data)) =~= data);
}

//------------------------------------------
// Index entry

/// Where one bitmap block lives and how full it is: 16 bytes on disk.
#[derive(Clone, Copy, Debug, PartialEq, Eq, Structural)]
pub struct IndexEntry {
    /// Block number of the bitmap block.
    pub blocknr: u64,
    /// How many entries of the bitmap hold count zero.
    pub nr_free: u32,
    /// No entry below this index within the bitmap is free.
    pub none_free_before: u32,
}

/// On-disk bytes of an index entry.
pub open spec fn spec_index_entry_bytes(v: IndexEntry) -> Seq<u8> {
    spec_u64_to_le_bytes(v.blocknr) + spec_u32_to_le_bytes(v.nr_free)
        + spec_u32_to_le_bytes(v.none_free_before)
}

/// Index entry decoded from the first 16 bytes.
pub open spec fn spec_unpack_index_entry(data: Seq<u8>) -> IndexEntry {
    IndexEntry {
        blocknr: spec_u64_from_le_bytes(data.subrange(0, 8)),
        nr_free: spec_u32_from_le_bytes(data.subrange(8, 12)),
        none_free_before: spec_u32_from_le_bytes(data.subrange(12, 16)),
    }
}

impl IndexEntry {
    /// Bytes this record takes on disk.
    pub fn disk_size() -> (r: u32)
        ensures
            r == 16,
    {
        16
    }

    /// Serializes the entry to its 16-byte on-disk form.
    pub fn pack(&self) -> (r: Vec<u8>)
        ensures
            r@ == spec_index_entry_bytes(*self),
            r@.len() == 16,
    {
        let mut out: Vec<u8> = Vec::new();
        push_u64_le(&mut out, self.blocknr);
        push_u32_le(&mut out, self.nr_free);
        push_u32_le(&mut out, self.none_free_before);
        proof {
            lemma_auto_spec_u64_to_from_le_bytes();
            lemma_auto_spec_u32_to_from_le_bytes();
        }
        out
    }

    /// Decodes an entry from the front of `data`.
    pub fn unpack(data: &[u8]) -> (r: Result<IndexEntry, MetadataError>)
        ensures
            data@.len() >= 16 ==> r == Ok::<IndexEntry, MetadataError>(
                spec_unpack_index_entry(data@.subrange(0, 16)),
            ),
            data@.len() < 16 ==> r == Err::<IndexEntry, MetadataError>(MetadataError::ShortBuffer),
    {
        if data.len() < 16 {
            return Err(MetadataError::ShortBuffer);
        }
        let blocknr = read_u64_at(data, 0);
        let nr_free = read_u32_at(data, 8);
        let none_free_before = read_u32_at(data, 12);
        proof {
            assert(data@.subrange(0, 16).subrange(0, 8) =~= data@.subrange(0, 8));
            assert(data@.subrange(0, 16).subrange(8, 12) =~= data@.subrange(8, 12));
            assert(data@.subrange(0, 16).subrange(12, 16) =~= data@.subrange(12, 16));
        }
        Ok(IndexEntry { blocknr, nr_free, none_free_before })
    }
}

/// Unpacking the packed form of any index entry yields the entry back.
pub proof fn lemma_index_entry_round_trip(v: IndexEntry)
    ensures
        spec_index_entry_bytes(v).len() == 16,
        spec_unpack_index_entry(spec_index_entry_bytes(v)) == v,
{
    lemma_auto_spec_u64_to_from_le_bytes();
    lemma_auto_spec_u32_to_from_le_bytes();
    let s = spec_index_entry_bytes(v);
    assert(s.subrange(0, 8) =~= spec_u64_to_le_bytes(v.blocknr));
    assert(s.subrange(8, 12) =~= spec_u32_to_le_bytes(v.nr_free));
    assert(s.subrange(12, 16) =~= spec_u32_to_le_bytes(v.none_free_before));
}

/// Packing the decoded form of any 16 bytes yields the bytes back.
pub proof fn lemma_index_entry_bytes_round_trip(data: Seq<u8>)
    requires
        data.len() == 16,
    ensures
        spec_index_entry_bytes(spec_unpack_index_entry(data)) == data,
{
    lemma_auto_spec_u64_to_from_le_bytes();
    lemma_auto_spec_u32_to_from_le_bytes();
    assert(spec_index_entry_bytes(spec_unpack_index_entry(data)) =~= data);
}

//------------------------------------------
// Bitmap header

/// Header that starts every bitmap block: 16 bytes on disk.
#[derive(Clone, Copy, Debug, PartialEq, Eq, Structural)]
pub struct BitmapHeader {
    /// Stored checksum of the block.
    pub csum: u32,
    /// Reserved flag word.
    pub not_used: u32,
    /// Self-reference: the block number this bitmap was written to.
    pub blocknr: u64,
}

/// On-disk bytes of a bitmap header.
pub open spec fn spec_bitmap_header_bytes(v: BitmapHeader) -> Seq<u8> {
    spec_u32_to_le_bytes(v.csum) + spec_u32_to_le_bytes(v.not_used)
        + spec_u64_to_le_bytes(v.blocknr)
}

/// Bitmap header decoded from the first 16 bytes.
pub open spec fn spec_unpack_bitmap_header(data: Seq<u8>) -> BitmapHeader {
    BitmapHeader {
        csum: spec_u32_from_le_bytes(data.subrange(0, 4)),
        not_used: spec_u32_from_le_bytes(data.subrange(4, 8)),
        blocknr: spec_u64_from_le_bytes(data.subrange(8, 16)),
    }
}

impl BitmapHeader {
    /// Bytes this record takes on disk.
    pub fn disk_size() -> (r: u32)
        ensures
            r == 16,
    {
        16
    }

    /// Serializes the header to its 16-byte on-disk form.
    pub fn pack(&self) -> (r: Vec<u8>)
        ensures
            r@ == spec_bitmap_header_bytes(*self),
            r@.len() == 16,
    {
        let mut out: Vec<u8> = Vec::new();
        push_u32_le(&mut out, self.csum);
        push_u32_le(&mut out, self.not_used);
        push_u64_le(&mut out, self.blocknr);
        proof {
            lemma_auto_spec_u64_to_from_le_bytes();
            lemma_auto_spec_u32_to_from_le_bytes();
        }
        out
    }

    /// Decodes a header from the front of `data`.
    pub fn unpack(data: &[u8]) -> (r: Result<BitmapHeader, MetadataError>)
        ensures
            data@.len() >= 16 ==> r == Ok::<BitmapHeader, MetadataError>(
                spec_unpack_bitmap_header(data@.subrange(0, 16)),
            ),
            data@.len() < 16 ==> r == Err::<BitmapHeader, MetadataError>(
                MetadataError::ShortBuffer,
            ),
    {
        if data.len() < 16 {
            return Err(MetadataError::ShortBuffer);
        }
        let csum = read_u32_at(data, 0);
        let not_used = read_u32_at(data, 4);
        let blocknr = read_u64_at(data, 8);
        proof {
            assert(data@.subrange(0, 16).subrange(0, 4) =~= data@.subrange(0, 4));
            assert(data@.subrange(0, 16).subrange(4, 8) =~= data@.subrange(4, 8));
            assert(data@.subrange(0, 16).subrange(8, 16) =~= data@.subrange(8, 16));
        }
        Ok(BitmapHeader { csum, not_used, blocknr })
    }
}

/// Unpacking the packed form of any bitmap header yields the header back.
pub proof fn lemma_bitmap_header_round_trip(v: BitmapHeader)
    ensures
        spec_bitmap_header_bytes(v).len() == 16,
        spec_unpack_bitmap_header(spec_bitmap_header_bytes(v)) == v,
{
    lemma_auto_spec_u64_to_from_le_bytes();
    lemma_auto_spec_u32_to_from_le_bytes();
    let s = spec_bitmap_header_bytes(v);
    assert(s.subrange(0, 4) =~= spec_u32_to_le_bytes(v.csum));
    assert(s.subrange(4, 8) =~= spec_u32_to_le_bytes(v.not_used));
    assert(s.subrange(8, 16) =~= spec_u64_to_le_bytes(v.blocknr));
}

/// Packing the decoded form of any 16 bytes yields the bytes back.
pub proof fn lemma_bitmap_header_bytes_round_trip(data: Seq<u8>)
    requires
        data.len() == 16,
    ensures
        spec_bitmap_header_bytes(spec_unpack_bitmap_header(data)) == data,
{
    lemma_auto_spec_u64_to_from_le_bytes();
    lemma_auto_spec_u32_to_from_le_bytes();
    assert(spec_bitmap_header_bytes(spec_unpack_bitmap_header(data)) =~= data);
}

//------------------------------------------
// Bitmap block

/// One 2-bit slot of a bitmap: the literal count, or the overflow sentinel.
#[derive(Clone, Copy, Debug, PartialEq, Eq, Structural)]
pub enum BitmapEntry {
    /// A reference count of 0, 1 or 2, stored literally.
    Small(u8),
    /// The stored value 3: the real count lives in the overflow tree.
    Overflow,
}

/// A decoded bitmap block: header plus one entry per block covered.
#[derive(Clone, Debug)]
pub struct Bitmap {
    pub header: BitmapHeader,
    pub entries: Vec<BitmapEntry>,
}

/// The 2-bit field at slot `b` of word `w`.
pub open spec fn spec_word_entry(w: u64, b: u64) -> u64 {
    (w >> ((2 * b) as u64)) & 3
}

/// The entry-holding word `j` of a bitmap block's bytes.
pub open spec fn spec_bitmap_word(data: Seq<u8>, j: int) -> u64 {
    spec_u64_from_le_bytes(data.subrange(16 + 8 * j, 24 + 8 * j))
}

/// How a stored 2-bit value reads as an entry.
pub open spec fn spec_entry_from_val(v: u64) -> BitmapEntry {
    if v < 3 {
        BitmapEntry::Small(v as u8)
    } else {
        BitmapEntry::Overflow
    }
}

/// The 2-bit value an entry is stored as.
pub open spec fn spec_entry_val(e: BitmapEntry) -> u64 {
    match e {
        BitmapEntry::Small(v) => v as u64,
        BitmapEntry::Overflow => 3,
    }
}

/// Entry `i` of a bitmap block's bytes.
pub open spec fn spec_bitmap_entry(data: Seq<u8>, i: int) -> BitmapEntry {
    spec_entry_from_val(spec_word_entry(spec_bitmap_word(data, i / 32), (i % 32) as u64))
}

/// A decoded bitmap that some block bytes can represent: full length, and
/// every literal count below the sentinel.
pub open spec fn wf_bitmap_entries(es: Seq<BitmapEntry>) -> bool {
    &&& es.len() == 16320
    &&& forall|i: int| 0 <= i < es.len() ==> spec_entry_val(#[trigger] es[i]) < 4
    &&& forall|i: int|
        0 <= i < es.len() ==> (#[trigger] es[i] matches BitmapEntry::Small(v) ==> v < 3)
}

/// Two words that agree on all 32 2-bit fields are equal.
pub proof fn lemma_word_entries_determine_word(w: u64, v: u64)
    requires
        forall|b: u64| b < 32 ==> #[trigger] spec_word_entry(w, b) == spec_word_entry(v, b),
    ensures
        w == v,
{
    assert(spec_word_entry(w, 0) == spec_word_entry(v, 0));
    assert(spec_word_entry(w, 1) == spec_word_entry(v, 1));
    assert(spec_word_entry(w, 2) == spec_word_entry(v, 2));
    assert(spec_word_entry(w, 3) == spec_word_entry(v, 3));
    assert(spec_word_entry(w, 4) == spec_word_entry(v, 4));
    assert(spec_word_entry(w, 5) == spec_word_entry(v, 5));
    assert(spec_word_entry(w, 6) == spec_word_entry(v, 6));
    assert(spec_word_entry(w, 7) == spec_word_entry(v, 7));
    assert(spec_word_entry(w, 8) == spec_word_entry(v, 8));
    assert(spec_word_entry(w, 9) == spec_word_entry(v, 9));
    assert(spec_word_entry(w, 10) == spec_word_entry(v, 10));
    assert(spec_word_entry(w, 11) == spec_word_entry(v, 11));
    assert(spec_word_entry(w, 12) == spec_word_entry(v, 12));
    assert(spec_word_entry(w, 13) == spec_word_entry(v, 13));
    assert(spec_word_entry(w, 14) == spec_word_entry(v, 14));
    assert(spec_word_entry(w, 15) == spec_word_entry(v, 15));
    assert(spec_word_entry(w, 16) == spec_word_entry(v, 16));
    assert(spec_word_entry(w, 17) == spec_word_entry(v, 17));
    assert(spec_word_entry(w, 18) == spec_word_entry(v, 18));
    assert(spec_word_entry(w, 19) == spec_word_entry(v, 19));
    assert(spec_word_entry(w, 20) == spec_word_entry(v, 20));
    assert(spec_word_entry(w, 21) == spec_word_entry(v, 21));
    assert(spec_word_entry(w, 22) == spec_word_entry(v, 22));
    assert(spec_word_entry(w, 23) == spec_word_entry(v, 23));
    assert(spec_word_entry(w, 24) == spec_word_entry(v, 24));
    assert(spec_word_entry(w, 25) == spec_word_entry(v, 25));
    assert(spec_word_entry(w, 26) == spec_word_entry(v, 26));
    assert(spec_word_entry(w, 27) == spec_word_entry(v, 27));
    assert(spec_word_entry(w, 28) == spec_word_entry(v, 28));
    assert(spec_word_entry(w, 29) == spec_word_entry(v, 29));
    assert(spec_word_entry(w, 30) == spec_word_entry(v, 30));
    assert(spec_word_entry(w, 31) == spec_word_entry(v, 31));
    assert(w == v) by (bit_vector)
        requires
            (w >> 0u64) & 3 == (v >> 0u64) & 3,
            (w >> 2u64) & 3 == (v >> 2u64) & 3,
            (w >> 4u64) & 3 == (v >> 4u64) & 3,
            (w >> 6u64) & 3 == (v >> 6u64) & 3,
            (w >> 8u64) & 3 == (v >> 8u64) & 3,
            (w >> 10u64) & 3 == (v >> 10u64) & 3,
            (w >> 12u64) & 3 == (v >> 12u64) & 3,
            (w >> 14u64) & 3 == (v >> 14u64) & 3,
            (w >> 16u64) & 3 == (v >> 16u64) & 3,
            (w >> 18u64) & 3 == (v >> 18u64) & 3,
            (w >> 20u64) & 3 == (v >> 20u64) & 3,
            (w >> 22u64) & 3 == (v >> 22u64) & 3,
            (w >> 24u64) & 3 == (v >> 24u64) & 3,
            (w >> 26u64) & 3 == (v >> 26u64) & 3,
            (w >> 28u64) & 3 == (v >> 28u64) & 3,
            (w >> 30u64) & 3 == (v >> 30u64) & 3,
            (w >> 32u64) & 3 == (v >> 32u64) & 3,
            (w >> 34u64) & 3 == (v >> 34u64) & 3,
            (w >> 36u64) & 3 == (v >> 36u64) & 3,
            (w >> 38u64) & 3 == (v >> 38u64) & 3,
            (w >> 40u64) & 3 == (v >> 40u64) & 3,
            (w >> 42u64) & 3 == (v >> 42u64) & 3,
            (w >> 44u64) & 3 == (v >> 44u64) & 3,
            (w >> 46u64) & 3 == (v >> 46u64) & 3,
            (w >> 48u64) & 3 == (v >> 48u64) & 3,
            (w >> 50u64) & 3 == (v >> 50u64) & 3,
            (w >> 52u64) & 3 == (v >> 52u64) & 3,
            (w >> 54u64) & 3 == (v >> 54u64) & 3,
            (w >> 56u64) & 3 == (v >> 56u64) & 3,
            (w >> 58u64) & 3 == (v >> 58u64) & 3,
            (w >> 60u64) & 3 == (v >> 60u64) & 3,
            (w >> 62u64) & 3 == (v >> 62u64) & 3,
    ;
}

impl Bitmap {
    /// Bytes this record takes on disk.
    pub fn disk_size() -> (r: u32)
        ensures
            r == 4096,
    {
        4096
    }

    /// Decodes a whole bitmap block: header, then 510 words of 32 2-bit
    /// entries each, lowest-addressed entry in the least-significant bits.
    pub fn unpack(data: &[u8]) -> (r: Result<Bitmap, MetadataError>)
        ensures
            data@.len() >= 4096 ==> (r matches Ok(bm) && bm.header == spec_unpack_bitmap_header(
                data@.subrange(0, 16),
            ) && bm.entries@.len() == 16320 && wf_bitmap_entries(bm.entries@) && (forall|i: int|
                0 <= i < 16320 ==> bm.entries@[i] == spec_bitmap_entry(data@, i))),
            data@.len() < 4096 ==> r == Err::<Bitmap, MetadataError>(MetadataError::ShortBuffer),
    {
        if data.len() < 4096 {
            return Err(MetadataError::ShortBuffer);
        }
        let header = match BitmapHeader::unpack(data) {
            Ok(h) => h,
            Err(e) => {
                proof {
                    assert(false);
                }
                return Err(e);
            },
        };
        let mut entries: Vec<BitmapEntry> = Vec::new();
        let mut j: usize = 0;
        while j < 510
            invariant
                j <= 510,
                data@.len() >= 4096,
                entries@.len() == 32 * j,
                forall|i: int| 0 <= i < 32 * j ==> entries@[i] == spec_bitmap_entry(data@, i),
                forall|i: int|
                    0 <= i < 32 * j ==> spec_entry_val(#[trigger] entries@[i]) < 4,
                forall|i: int|
                    0 <= i < 32 * j ==> (#[trigger] entries@[i] matches BitmapEntry::Small(v)
                        ==> v < 3),
            decreases 510 - j,
        {
            let w = read_u64_at(data, 16 + 8 * j);
            let ghost w0 = w;
            let mut wv: u64 = w;
            proof {
                assert(w0 >> 0u64 == w0) by (bit_vector);
            }
            let mut b: usize = 0;
            while b < 32
                invariant
                    b <= 32,
                    wv == w0 >> ((2 * (b as u64)) as u64),
                    entries@.len() == 32 * j + b,
                    j < 510,
                    data@.len() >= 4096,
                    w0 == spec_bitmap_word(data@, j as int),
                    forall|i: int|
                        0 <= i < 32 * j + b ==> entries@[i] == spec_bitmap_entry(data@, i),
                    forall|i: int|
                        0 <= i < 32 * j + b ==> spec_entry_val(#[trigger] entries@[i]) < 4,
                    forall|i: int|
                        0 <= i < 32 * j + b ==> (#[trigger] entries@[i]
                            matches BitmapEntry::Small(v) ==> v < 3),
                decreases 32 - b,
            {
                let val = wv & 3;
                proof {
                    let bb = b as u64;
                    assert(spec_word_entry(w0, bb) == ((w0 >> ((2 * bb) as u64)) & 3));
                    assert((32 * (j as int) + b) % 32 == b && (32 * (j as int) + b) / 32
                        == j as int) by (nonlinear_arith)
                        requires
                            0 <= b < 32,
                            0 <= j,
                    ;
                    assert(((w0 >> ((2 * bb) as u64)) & 3) < 4) by (bit_vector);
                }
                if val < 3 {
                    entries.push(BitmapEntry::Small(val as u8));
                } else {
                    entries.push(BitmapEntry::Overflow);
                }
                proof {
                    let bb = b as u64;
                    assert((w0 >> ((2 * bb) as u64)) >> 2 == w0 >> ((2 * (bb + 1)) as u64))
                        by (bit_vector)
                        requires
                            bb < 32,
                    ;
                }
                wv = wv >> 2;
                b = b + 1;
            }
            j = j + 1;
        }
        Ok(Bitmap { header, entries })
    }

    /// Serializes a bitmap block: header bytes, then each group of 32
    /// entries packed into one little-endian word.
    pub fn pack(&self) -> (r: Vec<u8>)
        requires
            wf_bitmap_entries(self.entries@),
        ensures
            r@.len() == 4096,
            r@.subrange(0, 16) == spec_bitmap_header_bytes(self.header),
            forall|j: int, b: u64|
                #![trigger spec_word_entry(spec_bitmap_word(r@, j), b)]
                0 <= j < 510 && b < 32 ==> spec_word_entry(spec_bitmap_word(r@, j), b)
                    == spec_entry_val(self.entries@[32 * j + b]),
    {
        let mut out: Vec<u8> = self.header.pack();
        let mut j: usize = 0;
        while j < 510
            invariant
                j <= 510,
                wf_bitmap_entries(self.entries@),
                out@.len() == 16 + 8 * j,
                out@.subrange(0, 16) == spec_bitmap_header_bytes(self.header),
                forall|jj: int, b: u64|
                    #![trigger spec_word_entry(spec_bitmap_word(out@, jj), b)]
                    0 <= jj < j && b < 32 ==> spec_word_entry(spec_bitmap_word(out@, jj), b)
                        == spec_entry_val(self.entries@[32 * jj + b]),
            decreases 510 - j,
        {
            let mut acc: u64 = 0;
            proof {
                assert(0u64 >> 0u64 == 0u64) by (bit_vector);
            }
            let mut b: usize = 0;
            while b < 32
                invariant
                    b <= 32,
                    j < 510,
                    wf_bitmap_entries(self.entries@),
                    acc >> ((2 * (b as u64)) as u64) == 0,
                    forall|k: u64|
                        k < b ==> #[trigger] spec_word_entry(acc, k) == spec_entry_val(
                            self.entries@[32 * (j as int) + k],
                        ),
                decreases 32 - b,
            {
                let e = self.entries[32 * j + b];
                let v: u64 = match e {
                    BitmapEntry::Small(x) => x as u64,
                    BitmapEntry::Overflow => 3,
                };
                proof {
                    assert(v == spec_entry_val(self.entries@[32 * (j as int) + b]));
                    assert(v < 4);
                }
                let ghost acc0 = acc;
                let bb: u64 = b as u64;
                let shifted: u64 = v << (2 * bb);
                acc = acc | shifted;
                proof {
                    assert(acc >> ((2 * (bb + 1)) as u64) == 0 && spec_word_entry(acc, bb) == v)
                        by (bit_vector)
                        requires
                            acc == acc0 | (v << ((2 * bb) as u64)),
                            acc0 >> ((2 * bb) as u64) == 0,
                            v < 4,
                            bb < 32,
                            shifted == v << ((2 * bb) as u64),
                    ;
                    assert forall|k: u64| k < bb implies #[trigger] spec_word_entry(acc, k)
                        == spec_word_entry(acc0, k) by {
                        assert(((acc0 | (v << ((2 * bb) as u64))) >> ((2 * k) as u64)) & 3 == ((
                        acc0 >> ((2 * k) as u64)) & 3)) by (bit_vector)
                            requires
                                k < bb,
                                bb < 32,
                                v < 4,
                        ;
                    }
                }
                b = b + 1;
            }
            let ghost out_before = out@;
            push_u64_le(&mut out, acc);
            proof {
                lemma_auto_spec_u64_to_from_le_bytes();
                assert(out@.subrange(0, 16) =~= out_before.subrange(0, 16));
                assert forall|jj: int| 0 <= jj < j + 1 implies spec_bitmap_word(out@, jj) == (
                if jj < j {
                    spec_bitmap_word(out_before, jj)
                } else {
                    acc
                }) by {
                    if jj < j {
                        assert(out@.subrange(16 + 8 * jj, 24 + 8 * jj) =~= out_before.subrange(
                            16 + 8 * jj,
                            24 + 8 * jj,
                        ));
                    } else {
                        assert(out@.subrange(16 + 8 * jj, 24 + 8 * jj) =~= spec_u64_to_le_bytes(
                            acc,
                        ));
                    }
                }
            }
            j = j + 1;
        }
        out
    }
}

/// Decoding then re-encoding any full bitmap block yields the same bytes.
///
/// `bm_entries` is what `Bitmap::unpack` returned for `data`; `packed` is
/// what `Bitmap::pack` then produced, characterized by their contracts.
pub proof fn lemma_bitmap_bytes_round_trip(data: Seq<u8>, bm_entries: Seq<BitmapEntry>, packed: Seq<u8>)
    requires
        data.len() == 4096,
        packed.len() == 4096,
        bm_entries.len() == 16320,
        forall|i: int| 0 <= i < 16320 ==> bm_entries[i] == spec_bitmap_entry(data, i),
        packed.subrange(0, 16) == spec_bitmap_header_bytes(
            spec_unpack_bitmap_header(data.subrange(0, 16)),
        ),
        forall|j: int, b: u64|
            #![trigger spec_word_entry(spec_bitmap_word(packed, j), b)]
            0 <= j < 510 && b < 32 ==> spec_word_entry(spec_bitmap_word(packed, j), b)
                == spec_entry_val(bm_entries[32 * j + b]),
    ensures
        packed == data,
{
    lemma_bitmap_header_bytes_round_trip(data.subrange(0, 16));
    assert forall|j: int| 0 <= j < 510 implies spec_bitmap_word(packed, j) == spec_bitmap_word(
        data,
        j,
    ) by {
        assert forall|b: u64| b < 32 implies #[trigger] spec_word_entry(
            spec_bitmap_word(packed, j),
            b,
        ) == spec_word_entry(spec_bitmap_word(data, j), b) by {
            let i = 32 * j + b;
            assert(0 <= i < 16320) by (nonlinear_arith)
                requires
                    0 <= j < 510,
                    b < 32,
                    i == 32 * j + b,
            ;
            assert(i % 32 == b as int && i / 32 == j) by (nonlinear_arith)
                requires
                    0 <= j,
                    0 <= b < 32,
                    i == 32 * j + b,
            ;
            assert(bm_entries[i] == spec_bitmap_entry(data, i));
            let wv = spec_word_entry(spec_bitmap_word(data, j), b);
            assert(wv < 4) by {
                let w = spec_bitmap_word(data, j);
                assert(((w >> ((2 * b) as u64)) & 3) < 4) by (bit_vector);
            }
            assert(spec_entry_val(spec_entry_from_val(wv)) == wv);
        }
        lemma_word_entries_determine_word(spec_bitmap_word(packed, j), spec_bitmap_word(data, j));
    }
    lemma_auto_spec_u64_to_from_le_bytes();
    assert forall|i: int| 0 <= i < 4096 implies packed[i] == data[i] by {
        if i < 16 {
            assert(packed[i] == packed.subrange(0, 16)[i]);
            assert(data[i] == data.subrange(0, 16)[i]);
        } else {
            let j = (i - 16) / 8;
            let o = (i - 16) % 8;
            assert(0 <= j < 510 && 0 <= o < 8 && i == 16 + 8 * j + o) by (nonlinear_arith)
                requires
                    16 <= i < 4096,
                    j == (i - 16) / 8,
                    o == (i - 16) % 8,
            ;
            assert(spec_bitmap_word(packed, j) == spec_bitmap_word(data, j));
            assert(spec_u64_to_le_bytes(spec_u64_from_le_bytes(packed.subrange(16 + 8 * j, 24 + 8
                * j))) == packed.subrange(16 + 8 * j, 24 + 8 * j));
            assert(spec_u64_to_le_bytes(spec_u64_from_le_bytes(data.subrange(16 + 8 * j, 24 + 8
                * j))) == data.subrange(16 + 8 * j, 24 + 8 * j));
            assert(packed.subrange(16 + 8 * j, 24 + 8 * j) == data.subrange(16 + 8 * j, 24 + 8
                * j));
            assert(packed[i] == packed.subrange(16 + 8 * j, 24 + 8 * j)[o]);
            assert(data[i] == data.subrange(16 + 8 * j, 24 + 8 * j)[o]);
        }
    }
    assert(packed =~= data);
}

/// Re-decoding the packed form of any well-formed bitmap yields its entries.
///
/// `packed` is what `Bitmap::pack` produced for `es`; `es2` is what
/// `Bitmap::unpack` then returned, characterized by their contracts.
pub proof fn lemma_bitmap_entries_round_trip(es: Seq<BitmapEntry>, packed: Seq<u8>, es2: Seq<BitmapEntry>)
    requires
        wf_bitmap_entries(es),
        packed.len() == 4096,
        forall|j: int, b: u64|
            #![trigger spec_word_entry(spec_bitmap_word(packed, j), b)]
            0 <= j < 510 && b < 32 ==> spec_word_entry(spec_bitmap_word(packed, j), b)
                == spec_entry_val(es[32 * j + b]),
        es2.len() == 16320,
        forall|i: int| 0 <= i < 16320 ==> es2[i] == spec_bitmap_entry(packed, i),
    ensures
        es2 == es,
{
    assert forall|i: int| 0 <= i < 16320 implies es2[i] == es[i] by {
        let j = i / 32;
        let b = i % 32;
        assert(0 <= j < 510 && 0 <= b < 32 && i == 32 * j + b) by (nonlinear_arith)
            requires
                0 <= i < 16320,
                j == i / 32,
                b == i % 32,
        ;
        assert(spec_word_entry(spec_bitmap_word(packed, j), b as u64) == spec_entry_val(
            es[32 * j + b],
        ));
        assert(spec_entry_val(es[i]) < 4);
        assert(es[i] matches BitmapEntry::Small(v) ==> v < 3);
        assert(spec_entry_from_val(spec_entry_val(es[i])) == es[i]);
    }
    assert(es2 =~= es);
}

//------------------------------------------
// The space-map interface

/// How many entries of `s` hold a positive count.
pub open spec fn count_allocated(s: Seq<u32>) -> nat
    decreases s.len(),
{
    if s.len() == 0 {
        0
    } else {
        count_allocated(s.drop_last()) + if s.last() > 0 {
            1nat
        } else {
            0nat
        }
    }
}

/// Law: changing one entry moves the allocated count exactly by the step
/// between "was zero" and "is zero". Together with the pointwise `inc` and
/// `dec` contracts this pins `nr_allocated` to the count of blocks whose
/// reference count is positive after any history of operations.
pub proof fn lemma_count_allocated_update(s: Seq<u32>, i: int, v: u32)
    requires
        0 <= i < s.len(),
    ensures
        count_allocated(s.update(i, v)) == count_allocated(s) + (if v > 0 {
            1int
        } else {
            0int
        }) - (if s[i] > 0 {
            1int
        } else {
            0int
        }),
    decreases s.len(),
{
    let t = s.update(i, v);
    if i == s.len() - 1 {
        assert(t.drop_last() =~= s.drop_last());
    } else {
        assert(t.drop_last() =~= s.drop_last().update(i, v));
        lemma_count_allocated_update(s.drop_last(), i, v);
    }
}

/// Appending one entry adds one to the allocated count exactly when it is
/// positive.
pub proof fn lemma_count_allocated_push(s: Seq<u32>, v: u32)
    ensures
        count_allocated(s.push(v)) == count_allocated(s) + (if v > 0 {
            1int
        } else {
            0int
        }),
{
    assert(s.push(v).drop_last() =~= s);
}

/// Reference counts for every block, viewed as one count per block.
///
/// `inc` and `dec` update counts pointwise; `alloc` hands out the first
/// block whose count is zero and marks it used.
pub trait SpaceMap: Sized {
    /// The reference count of every block.
    spec fn sm_view(&self) -> Seq<u32>;

    /// The largest count this map can represent.
    spec fn sm_cap(&self) -> u32;

    /// The reference count of block `b`.
    fn get(&self, b: u64) -> (r: Result<u32, MetadataError>)
        requires
            b < self.sm_view().len(),
        ensures
            r == Ok::<u32, MetadataError>(self.sm_view()[b as int]),
    ;

    /// Raises the count of every block in `begin .. begin + len` by one.
    fn inc(&mut self, begin: u64, len: u64) -> (r: Result<(), MetadataError>)
        requires
            begin + len <= old(self).sm_view().len(),
            forall|i: int|
                begin <= i < begin + len ==> old(self).sm_view()[i] < old(self).sm_cap(),
        ensures
            r == Ok::<(), MetadataError>(()),
            final(self).sm_cap() == old(self).sm_cap(),
            final(self).sm_view().len() == old(self).sm_view().len(),
            forall|i: int|
                0 <= i < old(self).sm_view().len() ==> final(self).sm_view()[i] == (if begin <= i
                    < begin + len {
                    old(self).sm_view()[i] + 1
                } else {
                    old(self).sm_view()[i] as int
                }),
    ;

    /// Lowers the count of every block in `begin .. begin + len` by one.
    fn dec(&mut self, begin: u64, len: u64) -> (r: Result<(), MetadataError>)
        requires
            begin + len <= old(self).sm_view().len(),
            forall|i: int| begin <= i < begin + len ==> old(self).sm_view()[i] > 0,
        ensures
            r == Ok::<(), MetadataError>(()),
            final(self).sm_cap() == old(self).sm_cap(),
            final(self).sm_view().len() == old(self).sm_view().len(),
            forall|i: int|
                0 <= i < old(self).sm_view().len() ==> final(self).sm_view()[i] == (if begin <= i
                    < begin + len {
                    old(self).sm_view()[i] - 1
                } else {
                    old(self).sm_view()[i] as int
                }),
    ;

    /// Hands out the first block whose count is zero, raising it to one.
    fn allocate(&mut self) -> (r: Result<u64, MetadataError>)
        ensures
            final(self).sm_cap() == old(self).sm_cap(),
            r matches Ok(b) ==> b < old(self).sm_view().len() && old(self).sm_view()[b as int]
                == 0 && (forall|i: int| 0 <= i < b ==> old(self).sm_view()[i] > 0)
                && final(self).sm_view() == old(self).sm_view().update(b as int, 1u32),
            r matches Err(e) ==> e == MetadataError::OutOfSpace && (forall|i: int|
                0 <= i < old(self).sm_view().len() ==> old(self).sm_view()[i] > 0)
                && final(self).sm_view() == old(self).sm_view(),
    ;

    /// How many blocks hold a positive count.
    fn nr_allocated(&self) -> (r: u64)
        requires
            self.sm_view().len() <= u64::MAX,
        ensures
            r == count_allocated(self.sm_view()),
    ;

    /// How many blocks the map covers.
    fn nr_blocks(&self) -> (r: u64)
        requires
            self.sm_view().len() <= u64::MAX,
        ensures
            r == self.sm_view().len(),
    ;
}

//------------------------------------------
// In-core space map

/// A `u8` count sequence read as 32-bit counts.
pub open spec fn widen_u8(s: Seq<u8>) -> Seq<u32> {
    s.map(|i: int, x: u8| x as u32)
}

/// A `u16` count sequence read as 32-bit counts.
pub open spec fn widen_u16(s: Seq<u16>) -> Seq<u32> {
    s.map(|i: int, x: u16| x as u32)
}

/// The array the in-core map counts in: width picked by the largest count
/// the caller will store.
#[derive(Clone, Debug)]
pub enum CoreCounts {
    U8(Vec<u8>),
    U16(Vec<u16>),
    U32(Vec<u32>),
}

/// Array-backed space map for synthetic generation and checking: the same
/// interface as the persistent maps, without persistence.
#[derive(Clone, Debug)]
pub struct CoreSpaceMap {
    counts: CoreCounts,
}

impl CoreSpaceMap {
    /// The counts this map holds.
    pub closed spec fn spec_counts(&self) -> Seq<u32> {
        match self.counts {
            CoreCounts::U8(v) => widen_u8(v@),
            CoreCounts::U16(v) => widen_u16(v@),
            CoreCounts::U32(v) => v@,
        }
    }

    /// The largest count the chosen width can hold.
    pub closed spec fn spec_cap(&self) -> u32 {
        match self.counts {
            CoreCounts::U8(_) => 255,
            CoreCounts::U16(_) => 65535,
            CoreCounts::U32(_) => 0xffff_ffffu32,
        }
    }

    /// Builds a map of `nr_entries` zero counts, wide enough for
    /// `max_count`.
    pub fn new(nr_entries: u64, max_count: u32) -> (r: CoreSpaceMap)
        requires
            nr_entries <= usize::MAX,
        ensures
            r.sm_view().len() == nr_entries,
            forall|i: int| 0 <= i < nr_entries ==> r.sm_view()[i] == 0,
            r.sm_cap() >= max_count,
            count_allocated(r.sm_view()) == 0,
    {
        let n = nr_entries as usize;
        let r = if max_count <= 255 {
            CoreSpaceMap { counts: CoreCounts::U8(vec![0u8; n]) }
        } else if max_count <= 65535 {
            CoreSpaceMap { counts: CoreCounts::U16(vec![0u16; n]) }
        } else {
            CoreSpaceMap { counts: CoreCounts::U32(vec![0u32; n]) }
        };
        proof {
            lemma_count_allocated_all_zero(r.sm_view());
        }
        r
    }

    /// Overwrites one block's count, within the chosen width.
    pub fn set_count(&mut self, b: u64, c: u32)
        requires
            b < old(self).sm_view().len(),
            c <= old(self).sm_cap(),
        ensures
            final(self).sm_cap() == old(self).sm_cap(),
            final(self).sm_view() == old(self).sm_view().update(b as int, c),
    {
        let ghost oldview = self.sm_view();
        match &mut self.counts {
            CoreCounts::U8(v) => {
                proof {
                    lemma_widen_u8_index(v@);
                }
                let n = v.len();
                v[b as usize] = c as u8;
                proof {
                    lemma_widen_u8_index(v@);
                }
            },
            CoreCounts::U16(v) => {
                proof {
                    lemma_widen_u16_index(v@);
                }
                let n = v.len();
                v[b as usize] = c as u16;
                proof {
                    lemma_widen_u16_index(v@);
                }
            },
            CoreCounts::U32(v) => {
                let n = v.len();
                v[b as usize] = c;
            },
        }
        proof {
            assert(self.sm_view() =~= oldview.update(b as int, c));
        }
    }
}

/// A sequence of zero counts has no allocated entries.
pub proof fn lemma_count_allocated_all_zero(s: Seq<u32>)
    requires
        forall|i: int| 0 <= i < s.len() ==> s[i] == 0,
    ensures
        count_allocated(s) == 0,
    decreases s.len(),
{
    if s.len() > 0 {
        lemma_count_allocated_all_zero(s.drop_last());
    }
}

/// Builds an in-core space map sized by the caller's largest count.
pub fn core_sm(nr_entries: u64, max_count: u32) -> (r: CoreSpaceMap)
    requires
        nr_entries <= usize::MAX,
    ensures
        r.sm_view().len() == nr_entries,
        forall|i: int| 0 <= i < nr_entries ==> r.sm_view()[i] == 0,
        r.sm_cap() >= max_count,
        count_allocated(r.sm_view()) == 0,
{
    CoreSpaceMap::new(nr_entries, max_count)
}

//------------------------------------------
// Count-array helpers

/// Widening preserves length and values of a u8-bit count array.
pub proof fn lemma_widen_u8_index(s: Seq<u8>)
    ensures
        widen_u8(s).len() == s.len(),
        forall|i: int| 0 <= i < s.len() ==> #[trigger] widen_u8(s)[i] == s[i] as u32,
{
}

/// Raises counts `begin .. begin + len` of a u8-bit array by one.
fn vec_inc_u8(v: &mut Vec<u8>, begin: u64, len: u64)
    requires
        begin + len <= old(v)@.len(),
        forall|i: int| begin <= i < begin + len ==> old(v)@[i] < u8::MAX,
    ensures
        final(v)@.len() == old(v)@.len(),
        forall|i: int|
            0 <= i < old(v)@.len() ==> final(v)@[i] == (if begin <= i < begin + len {
                old(v)@[i] + 1
            } else {
                old(v)@[i] as int
            }),
{
    let n = v.len();
    let b0 = begin as usize;
    let l0 = len as usize;
    let mut k: usize = 0;
    while k < l0
        invariant
            k <= l0,
            b0 == begin && l0 == len,
            b0 + l0 <= v@.len(),
            v@.len() <= usize::MAX,
            v@.len() == old(v)@.len(),
            forall|i: int| b0 + k <= i < b0 + l0 ==> v@[i] == old(v)@[i],
            forall|i: int| begin <= i < begin + len ==> old(v)@[i] < u8::MAX,
            forall|i: int| 0 <= i < b0 ==> v@[i] == old(v)@[i],
            forall|i: int| b0 + l0 <= i < v@.len() ==> v@[i] == old(v)@[i],
            forall|i: int| b0 <= i < b0 + k ==> v@[i] == old(v)@[i] + 1,
        decreases l0 - k,
    {
        let c = v[b0 + k];
        v[b0 + k] = c + 1;
        k = k + 1;
    }
}

/// Lowers counts `begin .. begin + len` of a u8-bit array by one.
fn vec_dec_u8(v: &mut Vec<u8>, begin: u64, len: u64)
    requires
        begin + len <= old(v)@.len(),
        forall|i: int| begin <= i < begin + len ==> old(v)@[i] > 0,
    ensures
        final(v)@.len() == old(v)@.len(),
        forall|i: int|
            0 <= i < old(v)@.len() ==> final(v)@[i] == (if begin <= i < begin + len {
                old(v)@[i] - 1
            } else {
                old(v)@[i] as int
            }),
{
    let n = v.len();
    let b0 = begin as usize;
    let l0 = len as usize;
    let mut k: usize = 0;
    while k < l0
        invariant
            k <= l0,
            b0 == begin && l0 == len,
            b0 + l0 <= v@.len(),
            v@.len() <= usize::MAX,
            v@.len() == old(v)@.len(),
            forall|i: int| b0 + k <= i < b0 + l0 ==> v@[i] == old(v)@[i],
            forall|i: int| begin <= i < begin + len ==> old(v)@[i] > 0,
            forall|i: int| 0 <= i < b0 ==> v@[i] == old(v)@[i],
            forall|i: int| b0 + l0 <= i < v@.len() ==> v@[i] == old(v)@[i],
            forall|i: int| b0 <= i < b0 + k ==> v@[i] == old(v)@[i] - 1,
        decreases l0 - k,
    {
        let c = v[b0 + k];
        v[b0 + k] = c - 1;
        k = k + 1;
    }
}

/// Finds the first zero count in a u8-bit array.
fn vec_first_zero_u8(v: &Vec<u8>) -> (r: Option<usize>)
    ensures
        r matches Some(b) ==> b < v@.len() && v@[b as int] == 0 && (forall|i: int|
            0 <= i < b ==> v@[i] > 0),
        r is None ==> forall|i: int| 0 <= i < v@.len() ==> v@[i] > 0,
{
    let mut k: usize = 0;
    while k < v.len()
        invariant
            k <= v@.len(),
            forall|i: int| 0 <= i < k ==> v@[i] > 0,
        decreases v@.len() - k,
    {
        if v[k] == 0 {
            return Some(k);
        }
        k = k + 1;
    }
    None
}

/// Counts the positive entries of a u8-bit array.
fn vec_count_allocated_u8(v: &Vec<u8>) -> (r: u64)
    requires
        v@.len() <= u64::MAX,
    ensures
        r == count_allocated(widen_u8(v@)),
{
    proof {
        lemma_widen_u8_index(v@);
    }
    let s = Ghost(widen_u8(v@));
    let mut cnt: u64 = 0;
    let mut k: usize = 0;
    while k < v.len()
        invariant
            k <= v@.len(),
            s@ == widen_u8(v@),
            s@.len() == v@.len(),
            v@.len() <= u64::MAX,
            forall|i: int| 0 <= i < s@.len() ==> #[trigger] s@[i] == v@[i] as u32,
            cnt == count_allocated(s@.subrange(0, k as int)),
            cnt <= k,
        decreases v@.len() - k,
    {
        proof {
            assert(s@.subrange(0, k as int + 1) =~= s@.subrange(0, k as int).push(s@[k as int]));
            lemma_count_allocated_push(s@.subrange(0, k as int), s@[k as int]);
        }
        if v[k] > 0 {
            cnt = cnt + 1;
        }
        k = k + 1;
    }
    proof {
        assert(s@.subrange(0, s@.len() as int) =~= s@);
    }
    cnt
}

/// Widening preserves length and values of a u16-bit count array.
pub proof fn lemma_widen_u16_index(s: Seq<u16>)
    ensures
        widen_u16(s).len() == s.len(),
        forall|i: int| 0 <= i < s.len() ==> #[trigger] widen_u16(s)[i] == s[i] as u32,
{
}

/// Raises counts `begin .. begin + len` of a u16-bit array by one.
fn vec_inc_u16(v: &mut Vec<u16>, begin: u64, len: u64)
    requires
        begin + len <= old(v)@.len(),
        forall|i: int| begin <= i < begin + len ==> old(v)@[i] < u16::MAX,
    ensures
        final(v)@.len() == old(v)@.len(),
        forall|i: int|
            0 <= i < old(v)@.len() ==> final(v)@[i] == (if begin <= i < begin + len {
                old(v)@[i] + 1
            } else {
                old(v)@[i] as int
            }),
{
    let n = v.len();
    let b0 = begin as usize;
    let l0 = len as usize;
    let mut k: usize = 0;
    while k < l0
        invariant
            k <= l0,
            b0 == begin && l0 == len,
            b0 + l0 <= v@.len(),
            v@.len() <= usize::MAX,
            v@.len() == old(v)@.len(),
            forall|i: int| b0 + k <= i < b0 + l0 ==> v@[i] == old(v)@[i],
            forall|i: int| begin <= i < begin + len ==> old(v)@[i] < u16::MAX,
            forall|i: int| 0 <= i < b0 ==> v@[i] == old(v)@[i],
            forall|i: int| b0 + l0 <= i < v@.len() ==> v@[i] == old(v)@[i],
            forall|i: int| b0 <= i < b0 + k ==> v@[i] == old(v)@[i] + 1,
        decreases l0 - k,
    {
        let c = v[b0 + k];
        v[b0 + k] = c + 1;
        k = k + 1;
    }
}

/// Lowers counts `begin .. begin + len` of a u16-bit array by one.
fn vec_dec_u16(v: &mut Vec<u16>, begin: u64, len: u64)
    requires
        begin + len <= old(v)@.len(),
        forall|i: int| begin <= i < begin + len ==> old(v)@[i] > 0,
    ensures
        final(v)@.len() == old(v)@.len(),
        forall|i: int|
            0 <= i < old(v)@.len() ==> final(v)@[i] == (if begin <= i < begin + len {
                old(v)@[i] - 1
            } else {
                old(v)@[i] as int
            }),
{
    let n = v.len();
    let b0 = begin as usize;
    let l0 = len as usize;
    let mut k: usize = 0;
    while k < l0
        invariant
            k <= l0,
            b0 == begin && l0 == len,
            b0 + l0 <= v@.len(),
            v@.len() <= usize::MAX,
            v@.len() == old(v)@.len(),
            forall|i: int| b0 + k <= i < b0 + l0 ==> v@[i] == old(v)@[i],
            forall|i: int| begin <= i < begin + len ==> old(v)@[i] > 0,
            forall|i: int| 0 <= i < b0 ==> v@[i] == old(v)@[i],
            forall|i: int| b0 + l0 <= i < v@.len() ==> v@[i] == old(v)@[i],
            forall|i: int| b0 <= i < b0 + k ==> v@[i] == old(v)@[i] - 1,
        decreases l0 - k,
    {
        let c = v[b0 + k];
        v[b0 + k] = c - 1;
        k = k + 1;
    }
}

/// Finds the first zero count in a u16-bit array.
fn vec_first_zero_u16(v: &Vec<u16>) -> (r: Option<usize>)
    ensures
        r matches Some(b) ==> b < v@.len() && v@[b as int] == 0 && (forall|i: int|
            0 <= i < b ==> v@[i] > 0),
        r is None ==> forall|i: int| 0 <= i < v@.len() ==> v@[i] > 0,
{
    let mut k: usize = 0;
    while k < v.len()
        invariant
            k <= v@.len(),
            forall|i: int| 0 <= i < k ==> v@[i] > 0,
        decreases v@.len() - k,
    {
        if v[k] == 0 {
            return Some(k);
        }
        k = k + 1;
    }
    None
}

/// Counts the positive entries of a u16-bit array.
fn vec_count_allocated_u16(v: &Vec<u16>) -> (r: u64)
    requires
        v@.len() <= u64::MAX,
    ensures
        r == count_allocated(widen_u16(v@)),
{
    proof {
        lemma_widen_u16_index(v@);
    }
    let s = Ghost(widen_u16(v@));
    let mut cnt: u64 = 0;
    let mut k: usize = 0;
    while k < v.len()
        invariant
            k <= v@.len(),
            s@ == widen_u16(v@),
            s@.len() == v@.len(),
            v@.len() <= u64::MAX,
            forall|i: int| 0 <= i < s@.len() ==> #[trigger] s@[i] == v@[i] as u32,
            cnt == count_allocated(s@.subrange(0, k as int)),
            cnt <= k,
        decreases v@.len() - k,
    {
        proof {
            assert(s@.subrange(0, k as int + 1) =~= s@.subrange(0, k as int).push(s@[k as int]));
            lemma_count_allocated_push(s@.subrange(0, k as int), s@[k as int]);
        }
        if v[k] > 0 {
            cnt = cnt + 1;
        }
        k = k + 1;
    }
    proof {
        assert(s@.subrange(0, s@.len() as int) =~= s@);
    }
    cnt
}

/// Raises counts `begin .. begin + len` of a u32-bit array by one.
fn vec_inc_u32(v: &mut Vec<u32>, begin: u64, len: u64)
    requires
        begin + len <= old(v)@.len(),
        forall|i: int| begin <= i < begin + len ==> old(v)@[i] < u32::MAX,
    ensures
        final(v)@.len() == old(v)@.len(),
        forall|i: int|
            0 <= i < old(v)@.len() ==> final(v)@[i] == (if begin <= i < begin + len {
                old(v)@[i] + 1
            } else {
                old(v)@[i] as int
            }),
{
    let n = v.len();
    let b0 = begin as usize;
    let l0 = len as usize;
    let mut k: usize = 0;
    while k < l0
        invariant
            k <= l0,
            b0 == begin && l0 == len,
            b0 + l0 <= v@.len(),
            v@.len() <= usize::MAX,
            v@.len() == old(v)@.len(),
            forall|i: int| b0 + k <= i < b0 + l0 ==> v@[i] == old(v)@[i],
            forall|i: int| begin <= i < begin + len ==> old(v)@[i] < u32::MAX,
            forall|i: int| 0 <= i < b0 ==> v@[i] == old(v)@[i],
            forall|i: int| b0 + l0 <= i < v@.len() ==> v@[i] == old(v)@[i],
            forall|i: int| b0 <= i < b0 + k ==> v@[i] == old(v)@[i] + 1,
        decreases l0 - k,
    {
        let c = v[b0 + k];
        v[b0 + k] = c + 1;
        k = k + 1;
    }
}

/// Lowers counts `begin .. begin + len` of a u32-bit array by one.
fn vec_dec_u32(v: &mut Vec<u32>, begin: u64, len: u64)
    requires
        begin + len <= old(v)@.len(),
        forall|i: int| begin <= i < begin + len ==> old(v)@[i] > 0,
    ensures
        final(v)@.len() == old(v)@.len(),
        forall|i: int|
            0 <= i < old(v)@.len() ==> final(v)@[i] == (if begin <= i < begin + len {
                old(v)@[i] - 1
            } else {
                old(v)@[i] as int
            }),
{
    let n = v.len();
    let b0 = begin as usize;
    let l0 = len as usize;
    let mut k: usize = 0;
    while k < l0
        invariant
            k <= l0,
            b0 == begin && l0 == len,
            b0 + l0 <= v@.len(),
            v@.len() <= usize::MAX,
            v@.len() == old(v)@.len(),
            forall|i: int| b0 + k <= i < b0 + l0 ==> v@[i] == old(v)@[i],
            forall|i: int| begin <= i < begin + len ==> old(v)@[i] > 0,
            forall|i: int| 0 <= i < b0 ==> v@[i] == old(v)@[i],
            forall|i: int| b0 + l0 <= i < v@.len() ==> v@[i] == old(v)@[i],
            forall|i: int| b0 <= i < b0 + k ==> v@[i] == old(v)@[i] - 1,
        decreases l0 - k,
    {
        let c = v[b0 + k];
        v[b0 + k] = c - 1;
        k = k + 1;
    }
}

/// Finds the first zero count in a u32-bit array.
fn vec_first_zero_u32(v: &Vec<u32>) -> (r: Option<usize>)
    ensures
        r matches Some(b) ==> b < v@.len() && v@[b as int] == 0 && (forall|i: int|
            0 <= i < b ==> v@[i] > 0),
        r is None ==> forall|i: int| 0 <= i < v@.len() ==> v@[i] > 0,
{
    let mut k: usize = 0;
    while k < v.len()
        invariant
            k <= v@.len(),
            forall|i: int| 0 <= i < k ==> v@[i] > 0,
        decreases v@.len() - k,
    {
        if v[k] == 0 {
            return Some(k);
        }
        k = k + 1;
    }
    None
}

/// Counts the positive entries of a u32-bit array.
fn vec_count_allocated_u32(v: &Vec<u32>) -> (r: u64)
    requires
        v@.len() <= u64::MAX,
    ensures
        r == count_allocated(v@),
{
    let s = Ghost(v@);
    let mut cnt: u64 = 0;
    let mut k: usize = 0;
    while k < v.len()
        invariant
            k <= v@.len(),
            s@ == v@,
            s@.len() == v@.len(),
            v@.len() <= u64::MAX,
            cnt == count_allocated(s@.subrange(0, k as int)),
            cnt <= k,
        decreases v@.len() - k,
    {
        proof {
            assert(s@.subrange(0, k as int + 1) =~= s@.subrange(0, k as int).push(s@[k as int]));
            lemma_count_allocated_push(s@.subrange(0, k as int), s@[k as int]);
        }
        if v[k] > 0 {
            cnt = cnt + 1;
        }
        k = k + 1;
    }
    proof {
        assert(s@.subrange(0, s@.len() as int) =~= s@);
    }
    cnt
}

impl SpaceMap for CoreSpaceMap {
    open spec fn sm_view(&self) -> Seq<u32> {
        self.spec_counts()
    }

    open spec fn sm_cap(&self) -> u32 {
        self.spec_cap()
    }

    fn get(&self, b: u64) -> (r: Result<u32, MetadataError>) {
        match &self.counts {
            CoreCounts::U8(v) => {
                proof {
                    lemma_widen_u8_index(v@);
                }
                let n = v.len();
                Ok(v[b as usize] as u32)
            },
            CoreCounts::U16(v) => {
                proof {
                    lemma_widen_u16_index(v@);
                }
                let n = v.len();
                Ok(v[b as usize] as u32)
            },
            CoreCounts::U32(v) => {
                let n = v.len();
                Ok(v[b as usize])
            },
        }
    }

    fn inc(&mut self, begin: u64, len: u64) -> (r: Result<(), MetadataError>) {
        match &mut self.counts {
            CoreCounts::U8(v) => {
                proof {
                    assert forall|i: int| begin <= i < begin + len implies v@[i] < u8::MAX by {
                        lemma_widen_u8_index(v@);
                        assert(old(self).sm_view()[i] == widen_u8(v@)[i]);
                        assert(old(self).sm_view()[i] < old(self).sm_cap());
                    }
                }
                vec_inc_u8(v, begin, len);
                proof {
                    lemma_widen_u8_index(v@);
                }
            },
            CoreCounts::U16(v) => {
                proof {
                    assert forall|i: int| begin <= i < begin + len implies v@[i] < u16::MAX by {
                        lemma_widen_u16_index(v@);
                        assert(old(self).sm_view()[i] == widen_u16(v@)[i]);
                        assert(old(self).sm_view()[i] < old(self).sm_cap());
                    }
                }
                vec_inc_u16(v, begin, len);
                proof {
                    lemma_widen_u16_index(v@);
                }
            },
            CoreCounts::U32(v) => {
                vec_inc_u32(v, begin, len);
            },
        }
        Ok(())
    }

    fn dec(&mut self, begin: u64, len: u64) -> (r: Result<(), MetadataError>) {
        match &mut self.counts {
            CoreCounts::U8(v) => {
                proof {
                    assert forall|i: int| begin <= i < begin + len implies v@[i] > 0 by {
                        lemma_widen_u8_index(v@);
                        assert(old(self).sm_view()[i] == widen_u8(v@)[i]);
                        assert(old(self).sm_view()[i] > 0);
                    }
                }
                vec_dec_u8(v, begin, len);
                proof {
                    lemma_widen_u8_index(v@);
                }
            },
            CoreCounts::U16(v) => {
                proof {
                    assert forall|i: int| begin <= i < begin + len implies v@[i] > 0 by {
                        lemma_widen_u16_index(v@);
                        assert(old(self).sm_view()[i] == widen_u16(v@)[i]);
                        assert(old(self).sm_view()[i] > 0);
                    }
                }
                vec_dec_u16(v, begin, len);
                proof {
                    lemma_widen_u16_index(v@);
                }
            },
            CoreCounts::U32(v) => {
                vec_dec_u32(v, begin, len);
            },
        }
        Ok(())
    }

    fn allocate(&mut self) -> (r: Result<u64, MetadataError>) {
        let ghost oldview = self.sm_view();
        let found: Option<usize> = match &self.counts {
            CoreCounts::U8(v) => {
                proof {
                    lemma_widen_u8_index(v@);
                }
                vec_first_zero_u8(v)
            },
            CoreCounts::U16(v) => {
                proof {
                    lemma_widen_u16_index(v@);
                }
                vec_first_zero_u16(v)
            },
            CoreCounts::U32(v) => vec_first_zero_u32(v),
        };
        match found {
            Some(b) => {
                match &mut self.counts {
                    CoreCounts::U8(v) => {
                        v[b] = 1;
                        proof {
                            lemma_widen_u8_index(v@);
                        }
                    },
                    CoreCounts::U16(v) => {
                        v[b] = 1;
                        proof {
                            lemma_widen_u16_index(v@);
                        }
                    },
                    CoreCounts::U32(v) => {
                        v[b] = 1;
                    },
                }
                proof {
                    assert(self.sm_view() =~= oldview.update(b as int, 1u32));
                }
                Ok(b as u64)
            },
            None => Err(MetadataError::OutOfSpace),
        }
    }

    fn nr_allocated(&self) -> (r: u64) {
        match &self.counts {
            CoreCounts::U8(v) => vec_count_allocated_u8(v),
            CoreCounts::U16(v) => vec_count_allocated_u16(v),
            CoreCounts::U32(v) => vec_count_allocated_u32(v),
        }
    }

    fn nr_blocks(&self) -> (r: u64) {
        match &self.counts {
            CoreCounts::U8(v) => v.len() as u64,
            CoreCounts::U16(v) => v.len() as u64,
            CoreCounts::U32(v) => v.len() as u64,
        }
    }
}

} // verus!
