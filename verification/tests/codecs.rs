//! On-disk codec behaviour: exact encodings, round trips, and the error
//! for each way a block can be malformed.

use thinp::codec::{crc32c, block_csum};
use thinp::errors::MetadataError;
use thinp::mapping::{BlockTime, DeviceDetail};
use thinp::space_map::{
    SMRoot, IndexEntry, BitmapHeader, Bitmap, BitmapEntry, unpack_root, ENTRIES_PER_BITMAP,
};
use thinp::superblock::{
    Superblock, SuperblockFlags, set_needs_check, SUPERBLOCK_LOCATION, SUPERBLOCK_SIZE,
};

fn sample_superblock() -> Superblock {
    Superblock {
        flags: SuperblockFlags { needs_check: false },
        version: 2,
        time: 7,
        transaction_id: 42,
        metadata_snap: 0,
        uuid_lo: 0x0123_4567_89ab_cdef,
        uuid_hi: 0xfedc_ba98_7654_3210,
        mapping_root: 5,
        details_root: 6,
        data_sm_root: 8,
        metadata_sm_root: 9,
        data_block_size: 128,
        nr_metadata_blocks: 1000,
        compat_flags: 0,
        incompat_flags: 0,
    }
}

#[test]
fn crc32c_known_vector() {
    // the standard CRC-32C check value for the digits one through nine
    let digits = b"123456789";
    assert_eq!(crc32c(digits), 0xE3069283);
    assert_eq!(crc32c(b""), 0);
}

#[test]
fn block_csum_folds_seed() {
    let body = vec![0u8; 16];
    let plain = crc32c(&body);
    assert_eq!(block_csum(0, &body), plain);
    assert_eq!(block_csum(160774, &body), plain ^ 160774);
}

#[test]
fn sm_root_round_trip() {
    let v = SMRoot { nr_blocks: 1000, nr_allocated: 17, bitmap_root: 3, ref_count_root: 4 };
    let bytes = v.pack();
    assert_eq!(bytes.len(), 32);
    // little-endian field layout: nr_blocks first
    assert_eq!(&bytes[0..8], &1000u64.to_le_bytes());
    assert_eq!(&bytes[8..16], &17u64.to_le_bytes());
    let back = SMRoot::unpack(&bytes).unwrap();
    assert_eq!(back, v);
    let again = unpack_root(&bytes).unwrap();
    assert_eq!(again, v);
}

#[test]
fn sm_root_short_buffer() {
    let bytes = [0u8; 31];
    assert_eq!(SMRoot::unpack(&bytes), Err(MetadataError::ShortBuffer));
}

#[test]
fn index_entry_round_trip() {
    let v = IndexEntry { blocknr: 123, nr_free: 456, none_free_before: 7 };
    let bytes = v.pack();
    assert_eq!(bytes.len(), 16);
    let back = IndexEntry::unpack(&bytes).unwrap();
    assert_eq!(back, v);
    assert_eq!(IndexEntry::unpack(&bytes[0..15]), Err(MetadataError::ShortBuffer));
}

#[test]
fn bitmap_header_round_trip() {
    let v = BitmapHeader { csum: 0xdead_beef, not_used: 0, blocknr: 9 };
    let bytes = v.pack();
    assert_eq!(bytes.len(), 16);
    let back = BitmapHeader::unpack(&bytes).unwrap();
    assert_eq!(back, v);
}

#[test]
fn bitmap_round_trip() {
    // every fourth slot overflows, the rest cycle through the small counts
    let mut entries = Vec::with_capacity(ENTRIES_PER_BITMAP);
    for i in 0..ENTRIES_PER_BITMAP {
        if i % 4 == 3 {
            entries.push(BitmapEntry::Overflow);
        } else {
            entries.push(BitmapEntry::Small((i % 3) as u8));
        }
    }
    let bm = Bitmap { header: BitmapHeader { csum: 1, not_used: 0, blocknr: 2 }, entries };
    let bytes = bm.pack();
    assert_eq!(bytes.len(), 4096);
    let back = Bitmap::unpack(&bytes).unwrap();
    assert_eq!(back.header, bm.header);
    assert_eq!(back.entries, bm.entries);
    // and the byte-level round trip: packing the decoded form is identity
    let bytes2 = back.pack();
    assert_eq!(bytes2, bytes);
}

#[test]
fn bitmap_short_buffer() {
    let bytes = [0u8; 4095];
    assert!(matches!(Bitmap::unpack(&bytes), Err(MetadataError::ShortBuffer)));
}

#[test]
fn superblock_round_trip() {
    let sb = sample_superblock();
    let bytes = sb.pack(SUPERBLOCK_LOCATION);
    assert_eq!(bytes.len(), SUPERBLOCK_SIZE);
    let back = Superblock::unpack(&bytes, SUPERBLOCK_LOCATION).unwrap();
    assert_eq!(back, sb);
}

#[test]
fn superblock_rejects_damage() {
    let sb = sample_superblock();
    let good = sb.pack(0);

    // too short
    assert_eq!(Superblock::unpack(&good[0..511], 0), Err(MetadataError::ShortBuffer));

    // a torn (zeroed) superblock fails its checksum
    let torn = vec![0u8; 4096];
    assert_eq!(Superblock::unpack(&torn, 0), Err(MetadataError::BadChecksum(0)));

    // read back from the wrong address: self-reference mismatch
    let misplaced = sb.pack(1);
    assert_eq!(Superblock::unpack(&misplaced, 0), Err(MetadataError::Corrupt));

    // flip the magic and repair the checksum so only the magic is wrong
    let mut bad_magic = good.clone();
    bad_magic[16] ^= 0xff;
    let c = block_csum(160774, &bad_magic[4..]);
    bad_magic[0..4].copy_from_slice(&c.to_le_bytes());
    assert_eq!(Superblock::unpack(&bad_magic, 0), Err(MetadataError::BadMagic));

    // same for the version field
    let mut bad_version = good.clone();
    bad_version[20] = 99;
    let c = block_csum(160774, &bad_version[4..]);
    bad_version[0..4].copy_from_slice(&c.to_le_bytes());
    assert_eq!(Superblock::unpack(&bad_version, 0), Err(MetadataError::VersionMismatch));
}

#[test]
fn set_needs_check_is_idempotent() {
    let sb = sample_superblock();
    assert!(!sb.flags.needs_check);
    let bytes = sb.pack(SUPERBLOCK_LOCATION);

    let once = set_needs_check(&bytes, SUPERBLOCK_LOCATION).unwrap();
    let back = Superblock::unpack(&once, SUPERBLOCK_LOCATION).unwrap();
    assert!(back.flags.needs_check);
    assert_eq!(back.transaction_id, sb.transaction_id);

    let twice = set_needs_check(&once, SUPERBLOCK_LOCATION).unwrap();
    assert_eq!(twice, once);
}

#[test]
fn set_needs_check_rejects_torn_superblock() {
    let torn = vec![0u8; 4096];
    assert_eq!(
        set_needs_check(&torn, SUPERBLOCK_LOCATION),
        Err(MetadataError::BadChecksum(0))
    );
}

#[test]
fn block_time_round_trip() {
    let v = BlockTime { block: 0x12_3456_789a, time: 0x00ab_cdef };
    let w = v.pack();
    // the block sits in the upper forty bits, the time in the lower
    // twenty-four
    assert_eq!(w, (0x12_3456_789au64 << 24) | 0x00ab_cdef);
    let back = BlockTime::unpack(w);
    assert_eq!(back, v);
}

#[test]
fn device_detail_round_trip() {
    let v = DeviceDetail {
        mapped_blocks: 12345,
        transaction_id: 2,
        creation_time: 3,
        snapshotted_time: 4,
    };
    let bytes = v.pack();
    assert_eq!(bytes.len(), 24);
    assert_eq!(&bytes[0..8], &12345u64.to_le_bytes());
    let back = DeviceDetail::unpack(&bytes).unwrap();
    assert_eq!(back, v);
    assert_eq!(DeviceDetail::unpack(&bytes[0..23]), Err(MetadataError::ShortBuffer));
}
