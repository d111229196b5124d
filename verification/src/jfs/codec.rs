use vstd::prelude::*;

verus! {

/// The little-endian `u16` stored at `off` in `s`.
pub open spec fn get_u16(s: Seq<u8>, off: int) -> u16 {
    (s[off] + 256 * s[off + 1]) as u16
}

/// The little-endian `u32` stored at `off` in `s`.
pub open spec fn get_u32(s: Seq<u8>, off: int) -> u32 {
    (s[off] + 256 * s[off + 1] + 65536 * s[off + 2] + 16777216 * s[off + 3]) as u32
}

/// `s` with the little-endian bytes of `x` stored at `off`.
pub open spec fn put_u16(s: Seq<u8>, off: int, x: u16) -> Seq<u8> {
    s.update(off, (x % 256) as u8).update(off + 1, (x / 256) as u8)
}

/// `s` with the little-endian bytes of `x` stored at `off`.
pub open spec fn put_u32(s: Seq<u8>, off: int, x: u32) -> Seq<u8> {
    s.update(off, (x % 256) as u8).update(off + 1, ((x / 256) % 256) as u8).update(
        off + 2,
        ((x / 65536) % 256) as u8,
    ).update(off + 3, (x / 16777216) as u8)
}

/// `s` with `bytes` stored from `off` on.
pub open spec fn put_bytes(s: Seq<u8>, off: int, bytes: Seq<u8>) -> Seq<u8> {
    s.subrange(0, off) + bytes + s.subrange(off + bytes.len(), s.len() as int)
}

pub proof fn lemma_u32_digits(x: u32)
    ensures
        x == (x % 256) + 256 * ((x / 256) % 256) + 65536 * ((x / 65536) % 256) + 16777216 * (x
            / 16777216),
        x / 16777216 < 256,
{
    assert(x == (x % 256) + 256 * ((x / 256) % 256) + 65536 * ((x / 65536) % 256) + 16777216 * (x
        / 16777216)) by (nonlinear_arith);
}

pub proof fn lemma_u16_digits(x: u16)
    ensures
        x == (x % 256) + 256 * (x / 256),
        x / 256 < 256,
{
}

/// Storing then loading a `u32` at the same place gives it back.
pub proof fn lemma_get_put_u32(s: Seq<u8>, off: int, x: u32)
    requires
        0 <= off,
        off + 4 <= s.len(),
    ensures
        get_u32(put_u32(s, off, x), off) == x,
        put_u32(s, off, x).len() == s.len(),
{
    lemma_u32_digits(x);
}

/// Storing then loading a `u16` at the same place gives it back.
pub proof fn lemma_get_put_u16(s: Seq<u8>, off: int, x: u16)
    requires
        0 <= off,
        off + 2 <= s.len(),
    ensures
        get_u16(put_u16(s, off, x), off) == x,
        put_u16(s, off, x).len() == s.len(),
{
    lemma_u16_digits(x);
}

/// Stores `x` little-endian at `off` in `buf`.
pub fn write_u32(buf: &mut [u8], off: usize, x: u32)
    requires
        off + 4 <= old(buf)@.len(),
    ensures
        final(buf)@ == put_u32(old(buf)@, off as int, x),
{
    buf[off] = (x % 256) as u8;
    buf[off + 1] = ((x / 256) % 256) as u8;
    buf[off + 2] = ((x / 65536) % 256) as u8;
    buf[off + 3] = (x / 16777216) as u8;
}

/// Stores `x` little-endian at `off` in `buf`.
pub fn write_u16(buf: &mut [u8], off: usize, x: u16)
    requires
        off + 2 <= old(buf)@.len(),
    ensures
        final(buf)@ == put_u16(old(buf)@, off as int, x),
{
    buf[off] = (x % 256) as u8;
    buf[off + 1] = (x / 256) as u8;
}

/// Loads the little-endian `u32` at `off` in `buf`.
pub fn read_u32(buf: &[u8], off: usize) -> (x: u32)
    requires
        off + 4 <= buf@.len(),
    ensures
        x == get_u32(buf@, off as int),
{
    buf[off] as u32 + 256 * (buf[off + 1] as u32) + 65536 * (buf[off + 2] as u32) + 16777216 * (
    buf[off + 3] as u32)
}

/// Loads the little-endian `u16` at `off` in `buf`.
pub fn read_u16(buf: &[u8], off: usize) -> (x: u16)
    requires
        off + 2 <= buf@.len(),
    ensures
        x == get_u16(buf@, off as int),
{
    buf[off] as u16 + 256 * (buf[off + 1] as u16)
}

} // verus!
