//! Little-endian field access on byte buffers.

use vstd::bytes::*;
use vstd::prelude::*;
use vstd::slice::*;

verus! {

/// `buf` with `src` written over it starting at `offset`.
pub open spec fn splice(buf: Seq<u8>, offset: int, src: Seq<u8>) -> Seq<u8> {
    buf.subrange(0, offset) + src + buf.subrange(offset + src.len(), buf.len() as int)
}

/// A sequence of `n` zero bytes.
pub open spec fn zeros(n: nat) -> Seq<u8> {
    Seq::new(n, |i: int| 0u8)
}

/// The two bytes of a u16, low byte first.
pub closed spec fn le16(x: u16) -> Seq<u8> {
    seq![(x & 0xff) as u8, ((x >> 8) & 0xff) as u8]
}

/// The u16 whose low byte is `s[0]` and whose high byte is `s[1]`.
pub closed spec fn u16_le(s: Seq<u8>) -> u16 {
    (s[0] as u16) | ((s[1] as u16) << 8)
}

/// The four bytes of a u32, low byte first.
pub open spec fn le32(x: u32) -> Seq<u8> {
    spec_u32_to_le_bytes(x)
}

/// The eight bytes of a u64, low byte first.
pub open spec fn le64(x: u64) -> Seq<u8> {
    spec_u64_to_le_bytes(x)
}

/// The u16 stored little-endian at `offset`.
pub open spec fn get16(b: Seq<u8>, offset: int) -> u16 {
    u16_le(b.subrange(offset, offset + 2))
}

/// The u32 stored little-endian at `offset`.
pub open spec fn get32(b: Seq<u8>, offset: int) -> u32 {
    spec_u32_from_le_bytes(b.subrange(offset, offset + 4))
}

/// The u64 stored little-endian at `offset`.
pub open spec fn get64(b: Seq<u8>, offset: int) -> u64 {
    spec_u64_from_le_bytes(b.subrange(offset, offset + 8))
}

/// Encoding then decoding a little-endian integer gives it back, and every
/// encoding has the integer's width.
pub proof fn lemma_le_roundtrip()
    ensures
        forall|x: u16| #[trigger] le16(x).len() == 2 && u16_le(le16(x)) == x,
        forall|x: u32| #[trigger] le32(x).len() == 4 && spec_u32_from_le_bytes(le32(x)) == x,
        forall|x: u64| #[trigger] le64(x).len() == 8 && spec_u64_from_le_bytes(le64(x)) == x,
{
    assert forall|x: u16| #[trigger] le16(x).len() == 2 && u16_le(le16(x)) == x by {
        let lo = (x & 0xff) as u8;
        let hi = ((x >> 8) & 0xff) as u8;
        assert((lo as u16) | ((hi as u16) << 8) == x) by (bit_vector)
            requires
                lo == (x & 0xff) as u8,
                hi == ((x >> 8) & 0xff) as u8,
        ;
    }
    lemma_auto_spec_u32_to_from_le_bytes();
    lemma_auto_spec_u64_to_from_le_bytes();
}

/// Reading a field out of a buffer that holds `prefix + enc + rest` gives the
/// encoded value back.
pub proof fn lemma_get64_at(prefix: Seq<u8>, x: u64, rest: Seq<u8>)
    ensures
        get64(prefix + le64(x) + rest, prefix.len() as int) == x,
{
    lemma_le_roundtrip();
    assert((prefix + le64(x) + rest).subrange(prefix.len() as int, prefix.len() + 8int) =~= le64(x));
}

/// Reading a u32 back from where it was encoded gives it.
pub proof fn lemma_get32_at(prefix: Seq<u8>, x: u32, rest: Seq<u8>)
    ensures
        get32(prefix + le32(x) + rest, prefix.len() as int) == x,
{
    lemma_le_roundtrip();
    assert((prefix + le32(x) + rest).subrange(prefix.len() as int, prefix.len() + 4int) =~= le32(x));
}

/// Reading a u16 back from where it was encoded gives it.
pub proof fn lemma_get16_at(prefix: Seq<u8>, x: u16, rest: Seq<u8>)
    ensures
        get16(prefix + le16(x) + rest, prefix.len() as int) == x,
{
    lemma_le_roundtrip();
    assert((prefix + le16(x) + rest).subrange(prefix.len() as int, prefix.len() + 2int) =~= le16(x));
}

/// A vector of `n` zero bytes.
pub fn zero_bytes(n: usize) -> (res: Vec<u8>)
    ensures
        res@ == zeros(n as nat),
{
    let res = vec![0u8; n];
    assert(res@ =~= zeros(n as nat));
    res
}

/// Writes `src` into `buf` starting at `offset`.
pub fn write_at(buf: &mut Vec<u8>, offset: usize, src: &[u8])
    requires
        offset + src@.len() <= old(buf)@.len(),
    ensures
        final(buf)@ == splice(old(buf)@, offset as int, src@),
        final(buf)@.len() == old(buf)@.len(),
{
    let ghost start = buf@;
    let n = buf.len();
    let mut i: usize = 0;
    while i < src.len()
        invariant
            n == start.len(),
            offset + src@.len() <= start.len(),
            buf@.len() == start.len(),
            i <= src@.len(),
            forall|j: int| 0 <= j < offset ==> buf@[j] == start[j],
            forall|j: int| offset + src@.len() <= j < start.len() ==> buf@[j] == start[j],
            forall|j: int| offset <= j < offset + i ==> buf@[j] == src@[j - offset],
            forall|j: int| offset + i <= j < offset + src@.len() ==> buf@[j] == start[j],
        decreases src@.len() - i,
    {
        buf.set(offset + i, src[i]);
        i += 1;
    }
    assert(buf@ =~= splice(start, offset as int, src@));
}

/// Writes `n` zero bytes into `buf` starting at `offset`.
pub fn fill_zero(buf: &mut Vec<u8>, offset: usize, n: usize)
    requires
        offset + n <= old(buf)@.len(),
    ensures
        final(buf)@ == splice(old(buf)@, offset as int, zeros(n as nat)),
        final(buf)@.len() == old(buf)@.len(),
{
    let z = zero_bytes(n);
    write_at(buf, offset, z.as_slice());
}

/// Writes `x` little-endian at `offset`.
pub fn put16(buf: &mut Vec<u8>, offset: usize, x: u16)
    requires
        offset + 2 <= old(buf)@.len(),
    ensures
        final(buf)@ == splice(old(buf)@, offset as int, le16(x)),
        final(buf)@.len() == old(buf)@.len(),
{
    proof {
        lemma_le_roundtrip();
    }
    let b: Vec<u8> = vec![(x & 0xff) as u8, ((x >> 8) & 0xff) as u8];
    assert(b@ =~= le16(x));
    write_at(buf, offset, b.as_slice());
}

/// Writes `x` little-endian at `offset`.
pub fn put32(buf: &mut Vec<u8>, offset: usize, x: u32)
    requires
        offset + 4 <= old(buf)@.len(),
    ensures
        final(buf)@ == splice(old(buf)@, offset as int, le32(x)),
        final(buf)@.len() == old(buf)@.len(),
{
    proof {
        lemma_le_roundtrip();
    }
    let b = u32_to_le_bytes(x);
    write_at(buf, offset, b.as_slice());
}

/// Writes `x` little-endian at `offset`.
pub fn put64(buf: &mut Vec<u8>, offset: usize, x: u64)
    requires
        offset + 8 <= old(buf)@.len(),
    ensures
        final(buf)@ == splice(old(buf)@, offset as int, le64(x)),
        final(buf)@.len() == old(buf)@.len(),
{
    proof {
        lemma_le_roundtrip();
    }
    let b = u64_to_le_bytes(x);
    write_at(buf, offset, b.as_slice());
}

/// Appends `x` little-endian.
pub fn push16(buf: &mut Vec<u8>, x: u16)
    ensures
        final(buf)@ == old(buf)@ + le16(x),
{
    proof {
        lemma_le_roundtrip();
    }
    let mut b: Vec<u8> = vec![(x & 0xff) as u8, ((x >> 8) & 0xff) as u8];
    assert(b@ =~= le16(x));
    buf.append(&mut b);
}

/// Appends `x` little-endian.
pub fn push32(buf: &mut Vec<u8>, x: u32)
    ensures
        final(buf)@ == old(buf)@ + le32(x),
{
    proof {
        lemma_le_roundtrip();
    }
    let mut b = u32_to_le_bytes(x);
    buf.append(&mut b);
}

/// Appends `x` little-endian.
pub fn push64(buf: &mut Vec<u8>, x: u64)
    ensures
        final(buf)@ == old(buf)@ + le64(x),
{
    proof {
        lemma_le_roundtrip();
    }
    let mut b = u64_to_le_bytes(x);
    buf.append(&mut b);
}

/// Appends the bytes of `src`.
pub fn push_bytes(buf: &mut Vec<u8>, src: &[u8])
    ensures
        final(buf)@ == old(buf)@ + src@,
{
    let ghost start = buf@;
    let mut i: usize = 0;
    while i < src.len()
        invariant
            i <= src@.len(),
            buf@ == start + src@.subrange(0, i as int),
        decreases src@.len() - i,
    {
        buf.push(src[i]);
        i += 1;
        assert(buf@ =~= start + src@.subrange(0, i as int));
    }
    assert(src@.subrange(0, src@.len() as int) =~= src@);
}

/// The u16 stored little-endian at `offset`.
pub fn get16_at(buf: &[u8], offset: usize) -> (x: u16)
    requires
        offset + 2 <= buf@.len(),
    ensures
        x == get16(buf@, offset as int),
{
    let lo = buf[offset];
    let hi = buf[offset + 1];
    assert(buf@.subrange(offset as int, offset + 2)[0] == lo);
    assert(buf@.subrange(offset as int, offset + 2)[1] == hi);
    (lo as u16) | ((hi as u16) << 8)
}

/// The u32 stored little-endian at `offset`.
pub fn get32_at(buf: &[u8], offset: usize) -> (x: u32)
    requires
        offset + 4 <= buf@.len(),
    ensures
        x == get32(buf@, offset as int),
{
    u32_from_le_bytes({
        let n = buf.len();
        slice_subrange(buf, offset, offset + 4)
    })
}

/// The u64 stored little-endian at `offset`.
pub fn get64_at(buf: &[u8], offset: usize) -> (x: u64)
    requires
        offset + 8 <= buf@.len(),
    ensures
        x == get64(buf@, offset as int),
{
    u64_from_le_bytes({
        let n = buf.len();
        slice_subrange(buf, offset, offset + 8)
    })
}

/// A copy of `buf[start..end]`.
pub fn copy_range(buf: &[u8], start: usize, end: usize) -> (res: Vec<u8>)
    requires
        start <= end <= buf@.len(),
    ensures
        res@ == buf@.subrange(start as int, end as int),
{
    slice_to_vec(slice_subrange(buf, start, end))
}


/// Two zero bytes hold the u16 zero.
pub proof fn lemma_get16_zero(b: Seq<u8>, offset: int)
    requires
        0 <= offset,
        offset + 2 <= b.len(),
        b[offset] == 0,
        b[offset + 1] == 0,
    ensures
        get16(b, offset) == 0,
{
    let lo = b[offset];
    let hi = b[offset + 1];
    assert(b.subrange(offset, offset + 2)[0] == lo);
    assert(b.subrange(offset, offset + 2)[1] == hi);
    assert((lo as u16) | ((hi as u16) << 8) == 0) by (bit_vector)
        requires
            lo == 0,
            hi == 0,
    ;
}

} // verus!
