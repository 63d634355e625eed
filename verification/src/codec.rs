//! Little-endian primitive codecs and the per-block checksum.
//!
//! Every on-disk integer is little-endian. The checksum is a CRC-32C over
//! the block's bytes from offset 4 onward, folded with a per-block-kind
//! seed so that a block of one schema never validates as another.

use vstd::prelude::*;
use vstd::bytes::*;
use vstd::slice::*;

verus! {

/// Reads the little-endian `u32` stored at `off`.
pub fn read_u32_at(data: &[u8], off: usize) -> (r: u32)
    requires
        off + 4 <= data@.len(),
    ensures
        r == spec_u32_from_le_bytes(data@.subrange(off as int, off + 4)),
{
    proof {
        vstd::slice::axiom_spec_len(data);
    }
    let s = slice_subrange(data, off, off + 4);
    u32_from_le_bytes(s)
}

/// Reads the little-endian `u64` stored at `off`.
pub fn read_u64_at(data: &[u8], off: usize) -> (r: u64)
    requires
        off + 8 <= data@.len(),
    ensures
        r == spec_u64_from_le_bytes(data@.subrange(off as int, off + 8)),
{
    proof {
        vstd::slice::axiom_spec_len(data);
    }
    let s = slice_subrange(data, off, off + 8);
    u64_from_le_bytes(s)
}

/// Appends the four little-endian bytes of `x`.
pub fn push_u32_le(out: &mut Vec<u8>, x: u32)
    ensures
        final(out)@ == old(out)@ + spec_u32_to_le_bytes(x),
{
    let bs = u32_to_le_bytes(x);
    out.extend_from_slice(bs.as_slice());
}

/// Appends the eight little-endian bytes of `x`.
pub fn push_u64_le(out: &mut Vec<u8>, x: u64)
    ensures
        final(out)@ == old(out)@ + spec_u64_to_le_bytes(x),
{
    let bs = u64_to_le_bytes(x);
    out.extend_from_slice(bs.as_slice());
}

/// The reflected CRC-32C polynomial.
pub const CRC32C_POLY: u32 = 0x82F63B78;

/// One shift-and-conditionally-xor step of the bitwise CRC-32C.
pub open spec fn crc_bit_step(c: u32) -> u32 {
    if c & 1 == 1 {
        (c >> 1) ^ CRC32C_POLY
    } else {
        c >> 1
    }
}

/// `n` bit steps applied to `c`.
pub open spec fn crc_bit_steps(c: u32, n: nat) -> u32
    decreases n,
{
    if n == 0 {
        c
    } else {
        crc_bit_step(crc_bit_steps(c, (n - 1) as nat))
    }
}

/// Folds one byte into a running CRC-32C state.
pub open spec fn crc_byte(c: u32, b: u8) -> u32 {
    crc_bit_steps(c ^ (b as u32), 8)
}

/// Folds a whole byte sequence, front to back.
pub open spec fn crc_fold(c: u32, s: Seq<u8>) -> u32
    decreases s.len(),
{
    if s.len() == 0 {
        c
    } else {
        crc_fold(crc_byte(c, s[0]), s.subrange(1, s.len() as int))
    }
}

/// CRC-32C of `s`: all-ones initial state, final complement.
pub open spec fn spec_crc32c(s: Seq<u8>) -> u32 {
    crc_fold(0xffff_ffffu32, s) ^ 0xffff_ffffu32
}

/// Folding distributes over appending one byte at the back.
pub proof fn lemma_crc_fold_push(c: u32, s: Seq<u8>, b: u8)
    ensures
        crc_fold(c, s.push(b)) == crc_byte(crc_fold(c, s), b),
    decreases s.len(),
{
    if s.len() == 0 {
        reveal_with_fuel(crc_fold, 3);
        assert(s.push(b)[0] == b);
        assert(s.push(b).subrange(1, 1) =~= Seq::<u8>::empty());
    } else {
        assert(s.push(b)[0] == s[0]);
        assert(s.push(b).subrange(1, s.len() as int + 1) =~= s.subrange(1, s.len() as int).push(b));
        lemma_crc_fold_push(crc_byte(c, s[0]), s.subrange(1, s.len() as int), b);
    }
}

/// Computes `spec_crc32c` of a slice by the bitwise algorithm.
pub fn crc32c(data: &[u8]) -> (r: u32)
    ensures
        r == spec_crc32c(data@),
{
    let mut c: u32 = 0xffff_ffff;
    let mut i: usize = 0;
    while i < data.len()
        invariant
            i <= data@.len(),
            c == crc_fold(0xffff_ffffu32, data@.subrange(0, i as int)),
        decreases data@.len() - i,
    {
        let b = *slice_index_get(data, i);
        let c0 = c ^ (b as u32);
        let mut j: usize = 0;
        let mut cc: u32 = c0;
        while j < 8
            invariant
                j <= 8,
                cc == crc_bit_steps(c0, j as nat),
            decreases 8 - j,
        {
            if cc & 1 == 1 {
                cc = (cc >> 1) ^ CRC32C_POLY;
            } else {
                cc = cc >> 1;
            }
            j = j + 1;
        }
        proof {
            assert(crc_bit_steps(c0, 8) == crc_byte(c, b));
            assert(data@.subrange(0, i + 1) =~= data@.subrange(0, i as int).push(data@[i as int]));
            lemma_crc_fold_push(0xffff_ffffu32, data@.subrange(0, i as int), b);
        }
        c = cc;
        i = i + 1;
    }
    proof {
        assert(data@.subrange(0, data@.len() as int) =~= data@);
    }
    c ^ 0xffff_ffff
}

/// Checksum stored in a block of the given kind: CRC-32C of the bytes from
/// offset 4 onward, xor-folded with the kind's seed.
pub open spec fn spec_block_csum(seed: u32, body: Seq<u8>) -> u32 {
    spec_crc32c(body) ^ seed
}

/// Computes the stored checksum for a block body (bytes from offset 4 on).
pub fn block_csum(seed: u32, body: &[u8]) -> (r: u32)
    ensures
        r == spec_block_csum(seed, body@),
{
    crc32c(body) ^ seed
}

} // verus!
