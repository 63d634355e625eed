//! The values the thin-pool B-trees store in their leaves: packed
//! block-time mappings and per-device detail records.

use vstd::prelude::*;
use vstd::bytes::*;
use crate::codec::{read_u32_at, read_u64_at, push_u32_le, push_u64_le};
use crate::errors::MetadataError;

verus! {

/// A thin mapping: logical block K maps to this data block, stamped with
/// the transaction time it was written.
#[derive(Clone, Copy, Debug, PartialEq, Eq, Structural)]
pub struct BlockTime {
    /// The data block, at most 40 bits wide.
    pub block: u64,
    /// The time stamp, at most 24 bits wide.
    pub time: u32,
}

/// The packed 64-bit form: the block in the upper 40 bits, the time in
/// the lower 24.
pub open spec fn spec_block_time_word(v: BlockTime) -> u64 {
    ((v.block << 24u64) | (v.time as u64)) as u64
}

/// The mapping a packed word denotes.
pub open spec fn spec_unpack_block_time(w: u64) -> BlockTime {
    BlockTime { block: w >> 24u64, time: (w & 0xff_ffffu64) as u32 }
}

impl BlockTime {
    /// Packs the mapping into its 64-bit leaf value.
    pub fn pack(&self) -> (r: u64)
        requires
            self.block < 0x100_0000_0000u64,
            self.time < 0x100_0000u32,
        ensures
            r == spec_block_time_word(*self),
            spec_unpack_block_time(r) == *self,
    {
        let ghost b = self.block;
        let ghost t = self.time;
        proof {
            assert(((b << 24u64) | (t as u64)) >> 24u64 == b && (((b << 24u64) | (t as u64))
                & 0xff_ffffu64) == t as u64) by (bit_vector)
                requires
                    b < 0x100_0000_0000u64,
                    t < 0x100_0000u32,
            ;
        }
        (self.block << 24u64) | (self.time as u64)
    }

    /// Unpacks a 64-bit leaf value into the mapping it denotes.
    pub fn unpack(w: u64) -> (r: BlockTime)
        ensures
            r == spec_unpack_block_time(w),
            r.block < 0x100_0000_0000u64,
            r.time < 0x100_0000u32,
            spec_block_time_word(r) == w,
    {
        proof {
            assert(w >> 24u64 < 0x100_0000_0000u64 && (w & 0xff_ffffu64) < 0x100_0000u64 && ((
            w >> 24u64) << 24u64 | (w & 0xff_ffffu64)) == w) by (bit_vector);
        }
        BlockTime { block: w >> 24, time: (w & 0xff_ffff) as u32 }
    }
}

/// Per-thin-device record stored in the details tree: 24 bytes on disk.
#[derive(Clone, Copy, Debug, PartialEq, Eq, Structural)]
pub struct DeviceDetail {
    /// How many blocks the device has mapped.
    pub mapped_blocks: u64,
    /// The transaction the device was created or last snapshotted in.
    pub transaction_id: u64,
    /// When the device was created.
    pub creation_time: u32,
    /// When the device was last snapshotted.
    pub snapshotted_time: u32,
}

/// On-disk bytes of a device detail record.
pub open spec fn spec_device_detail_bytes(v: DeviceDetail) -> Seq<u8> {
    spec_u64_to_le_bytes(v.mapped_blocks) + spec_u64_to_le_bytes(v.transaction_id)
        + spec_u32_to_le_bytes(v.creation_time) + spec_u32_to_le_bytes(v.snapshotted_time)
}

/// Device detail decoded from the first 24 bytes.
pub open spec fn spec_unpack_device_detail(data: Seq<u8>) -> DeviceDetail {
    DeviceDetail {
        mapped_blocks: spec_u64_from_le_bytes(data.subrange(0, 8)),
        transaction_id: spec_u64_from_le_bytes(data.subrange(8, 16)),
        creation_time: spec_u32_from_le_bytes(data.subrange(16, 20)),
        snapshotted_time: spec_u32_from_le_bytes(data.subrange(20, 24)),
    }
}

impl DeviceDetail {
    /// Bytes this record takes on disk.
    pub fn disk_size() -> (r: u32)
        ensures
            r == 24,
    {
        24
    }

    /// Serializes the record to its 24-byte on-disk form.
    pub fn pack(&self) -> (r: Vec<u8>)
        ensures
            r@ == spec_device_detail_bytes(*self),
            r@.len() == 24,
    {
        let mut out: Vec<u8> = Vec::new();
        push_u64_le(&mut out, self.mapped_blocks);
        push_u64_le(&mut out, self.transaction_id);
        push_u32_le(&mut out, self.creation_time);
        push_u32_le(&mut out, self.snapshotted_time);
        proof {
            lemma_auto_spec_u64_to_from_le_bytes();
            lemma_auto_spec_u32_to_from_le_bytes();
        }
        out
    }

    /// Decodes a record from the front of `data`.
    pub fn unpack(data: &[u8]) -> (r: Result<DeviceDetail, MetadataError>)
        ensures
            data@.len() >= 24 ==> r == Ok::<DeviceDetail, MetadataError>(
                spec_unpack_device_detail(data@.subrange(0, 24)),
            ),
            data@.len() < 24 ==> r == Err::<DeviceDetail, MetadataError>(
                MetadataError::ShortBuffer,
            ),
    {
        if data.len() < 24 {
            return Err(MetadataError::ShortBuffer);
        }
        let mapped_blocks = read_u64_at(data, 0);
        let transaction_id = read_u64_at(data, 8);
        let creation_time = read_u32_at(data, 16);
        let snapshotted_time = read_u32_at(data, 20);
        proof {
            assert(data@.subrange(0, 24).subrange(0, 8) =~= data@.subrange(0, 8));
            assert(data@.subrange(0, 24).subrange(8, 16) =~= data@.subrange(8, 16));
            assert(data@.subrange(0, 24).subrange(16, 20) =~= data@.subrange(16, 20));
            assert(data@.subrange(0, 24).subrange(20, 24) =~= data@.subrange(20, 24));
        }
        Ok(DeviceDetail { mapped_blocks, transaction_id, creation_time, snapshotted_time })
    }
}

/// Unpacking the packed form of any device detail yields the record back.
pub proof fn lemma_device_detail_round_trip(v: DeviceDetail)
    ensures
        spec_device_detail_bytes(v).len() == 24,
        spec_unpack_device_detail(spec_device_detail_bytes(v)) == v,
{
    lemma_auto_spec_u64_to_from_le_bytes();
    lemma_auto_spec_u32_to_from_le_bytes();
    let s = spec_device_detail_bytes(v);
    assert(s.subrange(0, 8) =~= spec_u64_to_le_bytes(v.mapped_blocks));
    assert(s.subrange(8, 16) =~= spec_u64_to_le_bytes(v.transaction_id));
    assert(s.subrange(16, 20) =~= spec_u32_to_le_bytes(v.creation_time));
    assert(s.subrange(20, 24) =~= spec_u32_to_le_bytes(v.snapshotted_time));
}

/// Packing the decoded form of any 24 bytes yields the bytes back.
pub proof fn lemma_device_detail_bytes_round_trip(data: Seq<u8>)
    requires
        data.len() == 24,
    ensures
        spec_device_detail_bytes(spec_unpack_device_detail(data)) == data,
{
    lemma_auto_spec_u64_to_from_le_bytes();
    lemma_auto_spec_u32_to_from_le_bytes();
    assert(spec_device_detail_bytes(spec_unpack_device_detail(data)) =~= data);
}

} // verus!
