//! Little-endian integer fields, as they appear in the byte streams of the
//! container and of the legacy bitmap sub-format.

use vstd::prelude::*;

verus! {

/// The `u16` stored little-endian at offset `off` of `data`.
pub open spec fn le16_at(data: Seq<u8>, off: int) -> u16 {
    (data[off] + data[off + 1] * 0x100) as u16
}

/// The `u32` stored little-endian at offset `off` of `data`.
pub open spec fn le32_at(data: Seq<u8>, off: int) -> u32 {
    (data[off] + data[off + 1] * 0x100 + data[off + 2] * 0x1_0000 + data[off + 3] * 0x100_0000)
        as u32
}

/// The two bytes of `v`, little-endian.
pub open spec fn u16_bytes(v: u16) -> Seq<u8> {
    seq![(v % 0x100) as u8, (v / 0x100) as u8]
}

/// The four bytes of `v`, little-endian.
pub open spec fn u32_bytes(v: u32) -> Seq<u8> {
    seq![
        (v % 0x100) as u8,
        ((v / 0x100) % 0x100) as u8,
        ((v / 0x1_0000) % 0x100) as u8,
        ((v / 0x100_0000) % 0x100) as u8,
    ]
}

/// Byte `k` of `v` little-endian, for stating single output bytes.
pub open spec fn u32_byte(v: u32, k: int) -> u8 {
    u32_bytes(v)[k]
}

/// Reading back the two little-endian bytes of a `u16` yields that `u16`.
pub proof fn lemma_u16_bytes_round_trip(v: u16, data: Seq<u8>, off: int)
    requires
        0 <= off,
        off + 2 <= data.len(),
        data.subrange(off, off + 2) == u16_bytes(v),
    ensures
        le16_at(data, off) == v,
{
    assert(data[off] == u16_bytes(v)[0]);
    assert(data[off + 1] == u16_bytes(v)[1]);
}

/// Reading back the four little-endian bytes of a `u32` yields that `u32`.
pub proof fn lemma_u32_bytes_round_trip(v: u32, data: Seq<u8>, off: int)
    requires
        0 <= off,
        off + 4 <= data.len(),
        data.subrange(off, off + 4) == u32_bytes(v),
    ensures
        le32_at(data, off) == v,
{
    assert(data[off] == u32_bytes(v)[0]);
    assert(data[off + 1] == u32_bytes(v)[1]);
    assert(data[off + 2] == u32_bytes(v)[2]);
    assert(data[off + 3] == u32_bytes(v)[3]);
}

/// Reads the `u16` stored little-endian at offset `off`.
pub fn get_u16(data: &[u8], off: usize) -> (r: u16)
    requires
        off + 2 <= data@.len(),
    ensures
        r == le16_at(data@, off as int),
{
    let b0 = data[off];
    let b1 = data[off + 1];
    (b0 as u16) + (b1 as u16) * 0x100
}

/// Reads the `u32` stored little-endian at offset `off`.
pub fn get_u32(data: &[u8], off: usize) -> (r: u32)
    requires
        off + 4 <= data@.len(),
    ensures
        r == le32_at(data@, off as int),
{
    let b0 = data[off];
    let b1 = data[off + 1];
    let b2 = data[off + 2];
    let b3 = data[off + 3];
    (b0 as u32) + (b1 as u32) * 0x100 + (b2 as u32) * 0x1_0000 + (b3 as u32) * 0x100_0000
}

/// Appends the two little-endian bytes of `v` to `out`.
pub fn put_u16(out: &mut Vec<u8>, v: u16)
    ensures
        final(out)@ == old(out)@ + u16_bytes(v),
{
    out.push((v % 0x100) as u8);
    out.push((v / 0x100) as u8);
    assert(out@ =~= old(out)@ + u16_bytes(v));
}

/// Appends the four little-endian bytes of `v` to `out`.
pub fn put_u32(out: &mut Vec<u8>, v: u32)
    ensures
        final(out)@ == old(out)@ + u32_bytes(v),
{
    out.push((v % 0x100) as u8);
    out.push(((v / 0x100) % 0x100) as u8);
    out.push(((v / 0x1_0000) % 0x100) as u8);
    out.push(((v / 0x100_0000) % 0x100) as u8);
    assert(out@ =~= old(out)@ + u32_bytes(v));
}

} // verus!
