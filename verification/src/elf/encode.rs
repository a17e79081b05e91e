//! Little-endian encoding of the integers an ELF file is made of.

use vstd::prelude::*;
use vstd::bytes::*;
use byteorder::{ByteOrder, LittleEndian};

verus! {

/// byteorder's `LittleEndian::write_u16`, on a buffer of two bytes: it
/// stores the two bytes of `n`, least significant first.
#[verifier::external_body]
fn le_u16(n: u16) -> (bytes: [u8; 2])
    ensures
        bytes@ == spec_u16_to_le_bytes(n),
{
    let mut bytes: [u8; 2] = [0; 2];
    LittleEndian::write_u16(&mut bytes, n);
    bytes
}

/// byteorder's `LittleEndian::write_u32`, on a buffer of four bytes: it
/// stores the four bytes of `n`, least significant first.
#[verifier::external_body]
fn le_u32(n: u32) -> (bytes: [u8; 4])
    ensures
        bytes@ == spec_u32_to_le_bytes(n),
{
    let mut bytes: [u8; 4] = [0; 4];
    LittleEndian::write_u32(&mut bytes, n);
    bytes
}

/// byteorder's `LittleEndian::write_u64`, on a buffer of eight bytes: it
/// stores the eight bytes of `n`, least significant first.
#[verifier::external_body]
fn le_u64(n: u64) -> (bytes: [u8; 8])
    ensures
        bytes@ == spec_u64_to_le_bytes(n),
{
    let mut bytes: [u8; 8] = [0; 8];
    LittleEndian::write_u64(&mut bytes, n);
    bytes
}

/// Appends `bytes` to `out`.
pub fn put_bytes(out: &mut Vec<u8>, bytes: &[u8])
    ensures
        final(out)@ == old(out)@ + bytes@,
{
    let mut i: usize = 0;
    while i < bytes.len()
        invariant
            i <= bytes.len(),
            out@ == old(out)@ + bytes@.take(i as int),
        decreases bytes.len() - i,
    {
        out.push(bytes[i]);
        i += 1;
    }
    assert(bytes@.take(bytes.len() as int) == bytes@);
}

/// Appends the two bytes of `n`, least significant first.
pub fn put_u16(out: &mut Vec<u8>, n: u16)
    ensures
        final(out)@ == old(out)@ + spec_u16_to_le_bytes(n),
{
    let bytes = le_u16(n);
    put_bytes(out, bytes.as_slice());
}

/// Appends the four bytes of `n`, least significant first.
pub fn put_u32(out: &mut Vec<u8>, n: u32)
    ensures
        final(out)@ == old(out)@ + spec_u32_to_le_bytes(n),
{
    let bytes = le_u32(n);
    put_bytes(out, bytes.as_slice());
}

/// Appends the eight bytes of `n`, least significant first.
pub fn put_u64(out: &mut Vec<u8>, n: u64)
    ensures
        final(out)@ == old(out)@ + spec_u64_to_le_bytes(n),
{
    let bytes = le_u64(n);
    put_bytes(out, bytes.as_slice());
}

} // verus!
