//! Fixed-width little-endian integers in byte buffers.

use vstd::prelude::*;

verus! {

/// The 16-bit word whose little-endian bytes are `b0`, `b1`.
pub open spec fn le_u16(b0: u8, b1: u8) -> u16 {
    (b0 as u16) | ((b1 as u16) << 8)
}

/// The 32-bit word whose little-endian bytes are `b0` .. `b3`.
pub open spec fn le_u32(b0: u8, b1: u8, b2: u8, b3: u8) -> u32 {
    (b0 as u32) | ((b1 as u32) << 8) | ((b2 as u32) << 16) | ((b3 as u32) << 24)
}

/// Little-endian bytes of a 16-bit word.
pub open spec fn u16_le(v: u16) -> Seq<u8> {
    seq![(v & 0xff) as u8, ((v >> 8) & 0xff) as u8]
}

/// Little-endian bytes of a 32-bit word.
pub open spec fn u32_le(v: u32) -> Seq<u8> {
    seq![
        (v & 0xff) as u8,
        ((v >> 8) & 0xff) as u8,
        ((v >> 16) & 0xff) as u8,
        ((v >> 24) & 0xff) as u8,
    ]
}

/// The 16-bit word stored little-endian at offset `at` of `s`.
pub open spec fn u16_at(s: Seq<u8>, at: int) -> u16
    recommends
        0 <= at,
        at + 2 <= s.len(),
{
    le_u16(s[at], s[at + 1])
}

/// The 32-bit word stored little-endian at offset `at` of `s`.
pub open spec fn u32_at(s: Seq<u8>, at: int) -> u32
    recommends
        0 <= at,
        at + 4 <= s.len(),
{
    le_u32(s[at], s[at + 1], s[at + 2], s[at + 3])
}

/// `s` with the bytes of `part` laid over it from offset `at` on.
pub open spec fn overlay(s: Seq<u8>, at: int, part: Seq<u8>) -> Seq<u8> {
    Seq::new(
        s.len(),
        |i: int|
            if at <= i < at + part.len() {
                part[i - at]
            } else {
                s[i]
            },
    )
}

/// Reading back what `u16_le` wrote gives the word.
pub proof fn lemma_u16_le_round_trip(v: u16)
    ensures
        u16_le(v).len() == 2,
        le_u16(u16_le(v)[0], u16_le(v)[1]) == v,
{
    assert(((v & 0xff) as u8 as u16) | ((((v >> 8) & 0xff) as u8 as u16) << 8) == v)
        by (bit_vector);
}

/// Reading back what `u32_le` wrote gives the word.
pub proof fn lemma_u32_le_round_trip(v: u32)
    ensures
        u32_le(v).len() == 4,
        le_u32(u32_le(v)[0], u32_le(v)[1], u32_le(v)[2], u32_le(v)[3]) == v,
{
    assert(((v & 0xff) as u8 as u32) | ((((v >> 8) & 0xff) as u8 as u32) << 8) | ((((v >> 16)
        & 0xff) as u8 as u32) << 16) | ((((v >> 24) & 0xff) as u8 as u32) << 24) == v)
        by (bit_vector);
}

/// Writing the bytes that were read gives the bytes back.
pub proof fn lemma_le_u32_bytes(b0: u8, b1: u8, b2: u8, b3: u8)
    ensures
        u32_le(le_u32(b0, b1, b2, b3)) == seq![b0, b1, b2, b3],
{
    let v = le_u32(b0, b1, b2, b3);
    assert((v & 0xff) as u8 == b0 && ((v >> 8) & 0xff) as u8 == b1 && ((v >> 16) & 0xff) as u8
        == b2 && ((v >> 24) & 0xff) as u8 == b3) by (bit_vector)
        requires
            v == (b0 as u32) | ((b1 as u32) << 8) | ((b2 as u32) << 16) | ((b3 as u32) << 24),
    ;
    assert(u32_le(v) =~= seq![b0, b1, b2, b3]);
}

/// Reads the 16-bit word stored little-endian at offset `at`.
pub fn read_u16_at(src: &[u8], at: usize) -> (v: u16)
    requires
        at + 2 <= src@.len(),
    ensures
        v == u16_at(src@, at as int),
{
    (src[at] as u16) | ((src[at + 1] as u16) << 8)
}

/// Reads the 32-bit word stored little-endian at offset `at`.
pub fn read_u32_at(src: &[u8], at: usize) -> (v: u32)
    requires
        at + 4 <= src@.len(),
    ensures
        v == u32_at(src@, at as int),
{
    (src[at] as u32) | ((src[at + 1] as u32) << 8) | ((src[at + 2] as u32) << 16) | ((src[at
        + 3] as u32) << 24)
}

/// Stores `value` little-endian at offset `at`, leaving the other bytes alone.
pub fn write_u16_at(dst: &mut [u8], at: usize, value: u16)
    requires
        at + 2 <= old(dst)@.len(),
    ensures
        final(dst)@ == overlay(old(dst)@, at as int, u16_le(value)),
{
    dst[at] = (value & 0xff) as u8;
    dst[at + 1] = ((value >> 8) & 0xff) as u8;
    assert(dst@ =~= overlay(old(dst)@, at as int, u16_le(value)));
}

/// Stores `value` little-endian at offset `at`, leaving the other bytes alone.
pub fn write_u32_at(dst: &mut [u8], at: usize, value: u32)
    requires
        at + 4 <= old(dst)@.len(),
    ensures
        final(dst)@ == overlay(old(dst)@, at as int, u32_le(value)),
{
    dst[at] = (value & 0xff) as u8;
    dst[at + 1] = ((value >> 8) & 0xff) as u8;
    dst[at + 2] = ((value >> 16) & 0xff) as u8;
    dst[at + 3] = ((value >> 24) & 0xff) as u8;
    assert(dst@ =~= overlay(old(dst)@, at as int, u32_le(value)));
}

/// Reads a little-endian 16-bit word from the first two bytes of `src`.
pub fn read_u16_from_slice(src: &[u8]) -> (v: u16)
    requires
        src@.len() >= 2,
    ensures
        v == u16_at(src@, 0),
{
    read_u16_at(src, 0)
}

/// Reads a little-endian 32-bit word from the first four bytes of `src`.
pub fn read_u32_from_slice(src: &[u8]) -> (v: u32)
    requires
        src@.len() >= 4,
    ensures
        v == u32_at(src@, 0),
{
    read_u32_at(src, 0)
}

/// Writes `value` little-endian into the first two bytes of `dst`.
pub fn write_u16_to_slice(dst: &mut [u8], value: u16)
    requires
        old(dst)@.len() >= 2,
    ensures
        final(dst)@ == overlay(old(dst)@, 0, u16_le(value)),
{
    write_u16_at(dst, 0, value)
}

/// Writes `value` little-endian into the first four bytes of `dst`.
pub fn write_u32_to_slice(dst: &mut [u8], value: u32)
    requires
        old(dst)@.len() >= 4,
    ensures
        final(dst)@ == overlay(old(dst)@, 0, u32_le(value)),
{
    write_u32_at(dst, 0, value)
}

/// Copies `src` into `dst` from offset `at` on, leaving the other bytes alone.
pub fn copy_to_slice(dst: &mut [u8], at: usize, src: &[u8])
    requires
        at + src@.len() <= old(dst)@.len(),
    ensures
        final(dst)@ == overlay(old(dst)@, at as int, src@),
{
    let ghost before = dst@;
    let size = dst.len();
    let mut i: usize = 0;
    while i < src.len()
        invariant
            i <= src@.len(),
            at + src@.len() <= size,
            dst@.len() == size,
            before.len() == size,
            forall|j: int| 0 <= j < dst@.len() ==> dst@[j] == (if at <= j < at + i {
                src@[j - at]
            } else {
                before[j]
            }),
        decreases src@.len() - i,
    {
        dst[at + i] = src[i];
        i += 1;
    }
    assert(dst@ =~= overlay(before, at as int, src@));
}

} // verus!
