//! Little-endian integer fields, read and written through `byteorder`.
use byteorder::{ByteOrder, LittleEndian};
use vstd::prelude::*;
use vstd::bytes::{spec_u32_from_le_bytes, spec_u32_to_le_bytes, spec_u64_from_le_bytes, spec_u64_to_le_bytes};

verus! {

/// `LittleEndian::write_u32` stores `n` in the first four bytes of the buffer, least
/// significant byte first (it copies `n.to_le_bytes()`).
#[verifier::external_body]
fn le_u32(n: u32) -> (b: [u8; 4])
    ensures
        b@ == spec_u32_to_le_bytes(n),
{
    let mut b = [0u8; 4];
    LittleEndian::write_u32(&mut b, n);
    b
}

/// `LittleEndian::write_u64` stores `n` in the first eight bytes of the buffer, least
/// significant byte first (it copies `n.to_le_bytes()`).
#[verifier::external_body]
fn le_u64(n: u64) -> (b: [u8; 8])
    ensures
        b@ == spec_u64_to_le_bytes(n),
{
    let mut b = [0u8; 8];
    LittleEndian::write_u64(&mut b, n);
    b
}

/// `LittleEndian::read_u32` reads the first four bytes of a buffer of at least four bytes as a
/// little-endian number (it is `u32::from_le_bytes` of them; a shorter buffer panics).
#[verifier::external_body]
fn read_le_u32(buf: &[u8]) -> (n: u32)
    requires
        buf@.len() >= 4,
    ensures
        n == spec_u32_from_le_bytes(buf@.subrange(0, 4)),
{
    LittleEndian::read_u32(buf)
}

/// `LittleEndian::read_u64` reads the first eight bytes of a buffer of at least eight bytes as
/// a little-endian number (it is `u64::from_le_bytes` of them; a shorter buffer panics).
#[verifier::external_body]
fn read_le_u64(buf: &[u8]) -> (n: u64)
    requires
        buf@.len() >= 8,
    ensures
        n == spec_u64_from_le_bytes(buf@.subrange(0, 8)),
{
    LittleEndian::read_u64(buf)
}

/// Append `n` as four little-endian bytes.
pub fn put_u32(buf: &mut Vec<u8>, n: u32)
    ensures
        final(buf)@ == old(buf)@ + spec_u32_to_le_bytes(n),
{
    let b = le_u32(n);
    buf.extend_from_slice(&b);
}

/// Append `n` as eight little-endian bytes.
pub fn put_u64(buf: &mut Vec<u8>, n: u64)
    ensures
        final(buf)@ == old(buf)@ + spec_u64_to_le_bytes(n),
{
    let b = le_u64(n);
    buf.extend_from_slice(&b);
}

/// Append `n` as the four little-endian bytes of its two's-complement pattern.
pub fn put_i32(buf: &mut Vec<u8>, n: i32)
    ensures
        final(buf)@ == old(buf)@ + spec_u32_to_le_bytes(n as u32),
{
    put_u32(buf, n as u32);
}

/// The little-endian `u32` at `pos`, if four bytes are left there.
pub fn get_u32(buf: &[u8], pos: usize) -> (r: Option<u32>)
    ensures
        match r {
            Some(n) => pos + 4 <= buf@.len() && n == spec_u32_from_le_bytes(
                buf@.subrange(pos as int, pos + 4),
            ),
            None => pos + 4 > buf@.len(),
        },
{
    if pos > buf.len() || buf.len() - pos < 4 {
        return None;
    }
    let rest = slice_from(buf, pos);
    proof {
        assert(rest@.subrange(0, 4) == buf@.subrange(pos as int, pos + 4));
    }
    Some(read_le_u32(rest))
}

/// The little-endian `u64` at `pos`, if eight bytes are left there.
pub fn get_u64(buf: &[u8], pos: usize) -> (r: Option<u64>)
    ensures
        match r {
            Some(n) => pos + 8 <= buf@.len() && n == spec_u64_from_le_bytes(
                buf@.subrange(pos as int, pos + 8),
            ),
            None => pos + 8 > buf@.len(),
        },
{
    if pos > buf.len() || buf.len() - pos < 8 {
        return None;
    }
    let rest = slice_from(buf, pos);
    proof {
        assert(rest@.subrange(0, 8) == buf@.subrange(pos as int, pos + 8));
    }
    Some(read_le_u64(rest))
}

/// The bytes of `buf` from `pos` on.
fn slice_from(buf: &[u8], pos: usize) -> (rest: &[u8])
    requires
        pos <= buf@.len(),
    ensures
        rest@ == buf@.subrange(pos as int, buf@.len() as int),
{
    &buf[pos..buf.len()]
}

} // verus!
