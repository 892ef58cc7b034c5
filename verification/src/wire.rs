//! Big-endian integers as they stand on the wire. The conversions are those
//! of the crate `byteorder`, which `structure` hands on.

use structure::byteorder::{BigEndian, ByteOrder};
use vstd::prelude::*;

verus! {

/// The two bytes of a 16-bit integer, most significant first.
pub open spec fn be16(v: u16) -> Seq<u8> {
    seq![(v / 256) as u8, (v % 256) as u8]
}

/// The four bytes of a 32-bit integer, most significant first.
pub open spec fn be32(v: u32) -> Seq<u8> {
    seq![
        (v / 0x100_0000) as u8,
        (v / 0x1_0000 % 256) as u8,
        (v / 256 % 256) as u8,
        (v % 256) as u8,
    ]
}

/// The 16-bit integer whose big-endian bytes stand at `pos` in `data`.
pub open spec fn u16_at(data: Seq<u8>, pos: int) -> u16 {
    (data[pos] as int * 256 + data[pos + 1] as int) as u16
}

/// The 32-bit integer whose big-endian bytes stand at `pos` in `data`.
pub open spec fn u32_at(data: Seq<u8>, pos: int) -> u32 {
    (data[pos] as int * 0x100_0000 + data[pos + 1] as int * 0x1_0000 + data[pos + 2] as int * 256
        + data[pos + 3] as int) as u32
}

/// `byteorder::BigEndian::read_u16`: the first two bytes of `bytes`, read as a
/// big-endian integer. The call panics on fewer than two bytes.
#[verifier::external_body]
pub(crate) fn read_be16(bytes: &[u8]) -> (v: u16)
    requires
        bytes@.len() >= 2,
    ensures
        v == u16_at(bytes@, 0),
{
    BigEndian::read_u16(bytes)
}

/// `byteorder::BigEndian::read_u32`: the first four bytes of `bytes`, read as a
/// big-endian integer. The call panics on fewer than four bytes.
#[verifier::external_body]
pub(crate) fn read_be32(bytes: &[u8]) -> (v: u32)
    requires
        bytes@.len() >= 4,
    ensures
        v == u32_at(bytes@, 0),
{
    BigEndian::read_u32(bytes)
}

/// `byteorder::BigEndian::write_u16`: fills a two-byte buffer with the
/// big-endian bytes of `v`.
#[verifier::external_body]
pub(crate) fn write_be16(v: u16) -> (bytes: [u8; 2])
    ensures
        bytes@ == be16(v),
{
    let mut bytes = [0u8; 2];
    BigEndian::write_u16(&mut bytes, v);
    bytes
}

/// `byteorder::BigEndian::write_u32`: fills a four-byte buffer with the
/// big-endian bytes of `v`.
#[verifier::external_body]
pub(crate) fn write_be32(v: u32) -> (bytes: [u8; 4])
    ensures
        bytes@ == be32(v),
{
    let mut bytes = [0u8; 4];
    BigEndian::write_u32(&mut bytes, v);
    bytes
}

/// Appends `bytes` to `writer`.
pub fn put_bytes(writer: &mut Vec<u8>, bytes: &[u8])
    ensures
        final(writer)@ == old(writer)@ + bytes@,
{
    let mut i: usize = 0;
    while i < bytes.len()
        invariant
            i <= bytes@.len(),
            writer@ == old(writer)@ + bytes@.take(i as int),
        decreases bytes@.len() - i,
    {
        writer.push(bytes[i]);
        i = i + 1;
        assert(bytes@.take(i as int) =~= bytes@.take(i - 1).push(bytes@[i - 1]));
    }
    assert(bytes@.take(i as int) =~= bytes@);
}

/// Appends the big-endian bytes of `v` to `writer`.
pub fn put_u16(writer: &mut Vec<u8>, v: u16)
    ensures
        final(writer)@ == old(writer)@ + be16(v),
{
    let bytes = write_be16(v);
    put_bytes(writer, bytes.as_slice());
}

/// Appends the big-endian bytes of `v` to `writer`.
pub fn put_u32(writer: &mut Vec<u8>, v: u32)
    ensures
        final(writer)@ == old(writer)@ + be32(v),
{
    let bytes = write_be32(v);
    put_bytes(writer, bytes.as_slice());
}

/// Bytes written one run behind the other are the runs joined.
pub proof fn lemma_concat_assoc(a: Seq<u8>, b: Seq<u8>, c: Seq<u8>)
    ensures
        (a + b) + c == a + (b + c),
{
    assert((a + b) + c =~= a + (b + c));
}

/// Reading back what was written gives the integer.
pub proof fn lemma_be16_roundtrip(v: u16)
    ensures
        be16(v).len() == 2,
        u16_at(be16(v), 0) == v,
{
}

/// Reading back what was written gives the integer.
pub proof fn lemma_be32_roundtrip(v: u32)
    ensures
        be32(v).len() == 4,
        u32_at(be32(v), 0) == v,
{
}

} // verus!
