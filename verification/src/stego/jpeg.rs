//! JPEG carriers: one bit in the magnitude of each usable quantized DCT
//! coefficient. A coefficient is usable when it is not the DC term of its
//! block and its magnitude is at least 2; writing a bit keeps it usable, so
//! the same positions are found again when the chunk is read back.

use super::bits::{byte_from_bits, lemma_assemble, lemma_byte_from_bits_eq, msb_bit, payload_bit};
use super::png::sat_sub;
use super::{
    decode_header, decode_header_spec, encode_header, fault_of, header_bytes, lemma_header_len,
    lemma_header_roundtrip, lemma_reorder_keeps_items, order_positions, order_spec, ChunkMeta,
    ChunkRead, ChunkWrite, CodecError, CodecFault, CHUNK_HEADER_LEN,
};
use vstd::prelude::*;

verus! {

/// The quantized DCT coefficients of a JPEG image: the blocks of every
/// component one after another, 64 coefficients per block in natural order,
/// and how many blocks each component has.
#[derive(Debug, Clone)]
pub struct JpegImage {
    pub component_blocks: Vec<usize>,
    pub coefficients: Vec<i16>,
}

/// What a JPEG image holds, as mathematical values.
pub struct JpegView {
    pub component_blocks: Seq<usize>,
    pub coefficients: Seq<i16>,
}

impl View for JpegImage {
    type V = JpegView;

    open spec fn view(&self) -> JpegView {
        JpegView { component_blocks: self.component_blocks@, coefficients: self.coefficients@ }
    }
}

/// The codec for JPEG carriers.
pub struct JpegCodec;

pub open spec fn abs16(v: i16) -> int {
    if v < 0 {
        -v
    } else {
        v as int
    }
}

/// Coefficient `p` may carry a bit: it is an AC term and its magnitude is at
/// least 2.
pub open spec fn coef_usable(c: Seq<i16>, p: int) -> bool {
    p % 64 != 0 && abs16(c[p]) >= 2
}

/// The usable positions below `n`, in increasing order.
pub open spec fn usable_upto(c: Seq<i16>, n: nat) -> Seq<usize>
    decreases n,
{
    if n == 0 {
        Seq::empty()
    } else {
        let prev = usable_upto(c, (n - 1) as nat);
        if coef_usable(c, n - 1) {
            prev.push((n - 1) as usize)
        } else {
            prev
        }
    }
}

/// All usable positions of the image, in increasing order.
pub open spec fn usable_positions(c: Seq<i16>) -> Seq<usize> {
    usable_upto(c, c.len())
}

/// Bytes that one bit per usable coefficient can hold.
pub open spec fn jpeg_raw_capacity(c: Seq<i16>) -> u64 {
    (usable_positions(c).len() / 8) as u64
}

/// The bit a coefficient carries: the low bit of its magnitude.
pub open spec fn coef_bit(v: i16) -> u8 {
    (abs16(v) % 2) as u8
}

/// The coefficient with the low bit of its magnitude set to `bit` and its
/// sign kept, as a 16-bit value (where the magnitude 32769 does not fit, it
/// wraps to 32767).
pub open spec fn set_coef_bit(v: i16, bit: u8) -> i16 {
    let m = abs16(v);
    let e = m - m % 2 + bit;
    let r = if v < 0 {
        -e
    } else {
        e
    };
    if r < -32768 {
        32767
    } else {
        r as i16
    }
}

/// The coefficients after the first `k` bits of `data` are written, bit `t`
/// into the coefficient at `order[t]`.
pub open spec fn jpeg_embed(c: Seq<i16>, order: Seq<usize>, data: Seq<u8>, k: nat) -> Seq<i16>
    decreases k,
{
    if k == 0 {
        c
    } else {
        let prev = jpeg_embed(c, order, data, (k - 1) as nat);
        let p = order[k - 1] as int;
        prev.update(p, set_coef_bit(prev[p], msb_bit(data, k - 1)))
    }
}

/// The `n` bytes read from the coefficients at `order[off ..]`, eight per
/// byte.
pub open spec fn jpeg_extract(c: Seq<i16>, order: Seq<usize>, off: int, n: nat) -> Seq<u8> {
    Seq::new(n, |k: int| byte_from_bits(|j: int| coef_bit(c[order[off + 8 * k + j] as int])))
}

/// Every entry of `order` names a usable coefficient.
pub open spec fn order_usable(order: Seq<usize>, c: Seq<i16>) -> bool {
    forall|t: int|
        0 <= t < order.len() ==> #[trigger] order[t] < c.len() && coef_usable(c, order[t] as int)
}

/// Two coefficient sequences of one length with the same usable positions.
pub open spec fn same_usable(a: Seq<i16>, b: Seq<i16>) -> bool {
    &&& a.len() == b.len()
    &&& forall|p: int| 0 <= p < a.len() ==> #[trigger] coef_usable(a, p) == coef_usable(b, p)
}

proof fn lemma_set_coef_bit(v: i16, bit: u8)
    requires
        bit <= 1,
        abs16(v) >= 2,
    ensures
        coef_bit(set_coef_bit(v, bit)) == bit,
        abs16(set_coef_bit(v, bit)) >= 2,
{
}

/// The usable positions below `n` are increasing, below `n` and usable,
/// and every usable position below `n` is among them.
proof fn lemma_usable_upto(c: Seq<i16>, n: nat)
    requires
        n <= c.len(),
        n <= usize::MAX + 1,
    ensures
        usable_upto(c, n).len() <= n,
        forall|i: int, j: int|
            0 <= i < j < usable_upto(c, n).len() ==> #[trigger] usable_upto(c, n)[i]
                < #[trigger] usable_upto(c, n)[j],
        order_usable(usable_upto(c, n), c),
        forall|i: int| 0 <= i < usable_upto(c, n).len() ==> #[trigger] usable_upto(c, n)[i] < n,
    decreases n,
{
    if n > 0 {
        lemma_usable_upto(c, (n - 1) as nat);
    }
}

proof fn lemma_usable_no_duplicates(c: Seq<i16>)
    requires
        c.len() <= usize::MAX,
    ensures
        usable_positions(c).no_duplicates(),
        order_usable(usable_positions(c), c),
        usable_positions(c).len() <= c.len(),
{
    lemma_usable_upto(c, c.len());
    let u = usable_positions(c);
    assert forall|i: int, j: int| 0 <= i < u.len() && 0 <= j < u.len() && i != j implies u[i]
        != u[j] by {
        if i < j {
            assert(u[i] < u[j]);
        } else {
            assert(u[j] < u[i]);
        }
    }
}

/// Images with the same usable positions below `n` list the same positions.
proof fn lemma_usable_upto_eq(a: Seq<i16>, b: Seq<i16>, n: nat)
    requires
        n <= a.len(),
        same_usable(a, b),
    ensures
        usable_upto(a, n) == usable_upto(b, n),
    decreases n,
{
    if n > 0 {
        lemma_usable_upto_eq(a, b, (n - 1) as nat);
        assert(coef_usable(a, n - 1) == coef_usable(b, n - 1));
    }
}

/// Writing bits into usable coefficients keeps the length and the usable
/// positions; coefficients not named are left alone, and a coefficient
/// named once holds its bit afterwards.
pub proof fn lemma_jpeg_embed(c: Seq<i16>, order: Seq<usize>, data: Seq<u8>, k: nat)
    requires
        k <= order.len(),
        k <= 8 * data.len(),
        order_usable(order, c),
    ensures
        same_usable(c, jpeg_embed(c, order, data, k)),
        order_usable(order, jpeg_embed(c, order, data, k)),
        forall|p: int|
            0 <= p < c.len() && (forall|t: int| 0 <= t < k ==> order[t] != p) ==> #[trigger] jpeg_embed(
                c,
                order,
                data,
                k,
            )[p] == c[p],
        order.take(k as int).no_duplicates() ==> forall|t: int|
            0 <= t < k ==> #[trigger] coef_bit(jpeg_embed(c, order, data, k)[order[t] as int])
                == msb_bit(data, t),
    decreases k,
{
    if k > 0 {
        let j = (k - 1) as nat;
        lemma_jpeg_embed(c, order, data, j);
        let prev = jpeg_embed(c, order, data, j);
        let p = order[j as int] as int;
        let bit = msb_bit(data, j as int);
        assert(bit <= 1) by {
            let x = data[j as int / 8];
            let s = (7 - j as int % 8) as u8;
            assert((x >> s) & 1 <= 1) by (bit_vector);
        }
        assert(coef_usable(prev, p));
        lemma_set_coef_bit(prev[p], bit);
        let next = jpeg_embed(c, order, data, k);
        assert(same_usable(c, next)) by {
            assert forall|q: int| 0 <= q < c.len() implies #[trigger] coef_usable(c, q)
                == coef_usable(next, q) by {
                assert(coef_usable(c, q) == coef_usable(prev, q));
            }
        }
        assert(order_usable(order, next)) by {
            assert forall|t: int| 0 <= t < order.len() implies #[trigger] order[t] < next.len()
                && coef_usable(next, order[t] as int) by {
                assert(coef_usable(c, order[t] as int));
                assert(coef_usable(c, order[t] as int) == coef_usable(next, order[t] as int));
            }
        }
        if order.take(k as int).no_duplicates() {
            assert(order.take(j as int) =~= order.take(k as int).take(j as int));
            assert forall|t: int| 0 <= t < k implies #[trigger] coef_bit(
                jpeg_embed(c, order, data, k)[order[t] as int],
            ) == msb_bit(data, t) by {
                if t < j {
                    assert(order.take(k as int)[t] != order.take(k as int)[j as int]);
                }
            }
        }
    }
}

proof fn lemma_jpeg_embed_len(c: Seq<i16>, order: Seq<usize>, data: Seq<u8>, k: nat)
    requires
        k <= order.len(),
        forall|t: int| 0 <= t < order.len() ==> #[trigger] order[t] < c.len(),
    ensures
        jpeg_embed(c, order, data, k).len() == c.len(),
    decreases k,
{
    if k > 0 {
        lemma_jpeg_embed_len(c, order, data, (k - 1) as nat);
    }
}

/// Bits written into distinct usable coefficients read back as the bytes
/// that were written.
pub proof fn lemma_jpeg_roundtrip(c: Seq<i16>, order: Seq<usize>, data: Seq<u8>, off: int, n: nat)
    requires
        8 * data.len() <= order.len(),
        order_usable(order, c),
        order.take(8 * data.len() as int).no_duplicates(),
        0 <= off,
        off % 8 == 0,
        off + 8 * n <= 8 * data.len(),
    ensures
        jpeg_extract(jpeg_embed(c, order, data, (8 * data.len()) as nat), order, off, n)
            == data.subrange(off / 8, off / 8 + n),
{
    let k = (8 * data.len()) as nat;
    lemma_jpeg_embed(c, order, data, k);
    let e = jpeg_embed(c, order, data, k);
    assert forall|i: int| 0 <= i < n implies #[trigger] jpeg_extract(e, order, off, n)[i]
        == data.subrange(off / 8, off / 8 + n)[i] by {
        let q = off / 8 + i;
        lemma_assemble(data, q);
        let f = |j: int| coef_bit(e[order[off + 8 * i + j] as int]);
        let g = |j: int| msb_bit(data, 8 * q + j);
        assert forall|j: int| 0 <= j < 8 implies #[trigger] f(j) == g(j) by {
            assert(off + 8 * i + j == 8 * q + j);
        }
        lemma_byte_from_bits_eq(f, g);
    }
    assert(jpeg_extract(e, order, off, n) =~= data.subrange(off / 8, off / 8 + n));
}

/// What writing a chunk into an image leaves in its coefficients, or why
/// the write is refused.
pub open spec fn jpeg_write_spec(
    img: JpegView,
    mode: ChunkWrite,
    payload: Seq<u8>,
    order_key: Seq<u8>,
) -> Result<Seq<i16>, CodecFault> {
    let c = img.coefficients;
    let positions = usable_positions(c);
    let raw = jpeg_raw_capacity(c);
    match mode {
        ChunkWrite::Framed(meta) => if order_key.len() != 0 {
            Err(CodecFault::InvalidMode)
        } else if payload.len() > u32::MAX || CHUNK_HEADER_LEN + payload.len() > raw {
            Err(
                CodecFault::PayloadTooLarge {
                    payload: payload.len() as u64,
                    capacity: sat_sub(raw, CHUNK_HEADER_LEN as u64),
                },
            )
        } else {
            let data = header_bytes(meta, payload.len() as u32) + payload;
            Ok(jpeg_embed(c, positions, data, (8 * data.len()) as nat))
        },
        ChunkWrite::Markerless { chunk_index } => if payload.len() > raw {
            Err(CodecFault::PayloadTooLarge { payload: payload.len() as u64, capacity: raw })
        } else if order_key.len() != 32 {
            Err(CodecFault::InvalidMode)
        } else {
            Ok(
                jpeg_embed(
                    c,
                    order_spec(positions, order_key, chunk_index),
                    payload,
                    (8 * payload.len()) as nat,
                ),
            )
        },
    }
}

/// What reading a chunk out of an image gives, or why it fails.
pub open spec fn jpeg_read_spec(img: JpegView, mode: ChunkRead, order_key: Seq<u8>) -> Result<
    (ChunkMeta, Seq<u8>),
    CodecFault,
> {
    let c = img.coefficients;
    let positions = usable_positions(c);
    let raw = jpeg_raw_capacity(c);
    match mode {
        ChunkRead::Framed => if order_key.len() != 0 {
            Err(CodecFault::InvalidMode)
        } else if positions.len() < 8 * CHUNK_HEADER_LEN {
            Err(CodecFault::NotACarrier)
        } else {
            match decode_header_spec(jpeg_extract(c, positions, 0, CHUNK_HEADER_LEN as nat)) {
                Err(f) => Err(f),
                Ok((meta, len)) => if len > sat_sub(raw, CHUNK_HEADER_LEN as u64) {
                    Err(CodecFault::NotACarrier)
                } else {
                    Ok((meta, jpeg_extract(c, positions, 8 * CHUNK_HEADER_LEN, len as nat)))
                },
            }
        },
        ChunkRead::Markerless { chunk_index, payload_len } => if payload_len > raw {
            Err(CodecFault::NotACarrier)
        } else if order_key.len() != 32 {
            Err(CodecFault::InvalidMode)
        } else {
            Ok(
                (
                    ChunkMeta { chunk_index, flags: 0 },
                    jpeg_extract(
                        c,
                        order_spec(positions, order_key, chunk_index),
                        0,
                        payload_len as nat,
                    ),
                ),
            )
        },
    }
}

/// What writing bytes at the front of the usable positions leaves in the
/// image.
pub open spec fn jpeg_write_prefix_spec(img: JpegView, bytes: Seq<u8>) -> Result<Seq<i16>, CodecFault> {
    let c = img.coefficients;
    let raw = jpeg_raw_capacity(c);
    if bytes.len() > raw {
        Err(CodecFault::PayloadTooLarge { payload: bytes.len() as u64, capacity: raw })
    } else {
        Ok(jpeg_embed(c, usable_positions(c), bytes, (8 * bytes.len()) as nat))
    }
}

/// The first `length` bytes of the usable positions.
pub open spec fn jpeg_read_prefix_spec(img: JpegView, length: usize) -> Result<Seq<u8>, CodecFault> {
    let c = img.coefficients;
    if length > jpeg_raw_capacity(c) {
        Err(CodecFault::NotACarrier)
    } else {
        Ok(jpeg_extract(c, usable_positions(c), 0, length as nat))
    }
}

/// The keyed order of an image's usable positions holds each of them once;
/// the shuffle that produces it promises as much.
pub open spec fn keyed_usable_order_is_permutation(
    c: Seq<i16>,
    order_key: Seq<u8>,
    chunk_index: u32,
) -> bool {
    order_spec(usable_positions(c), order_key, chunk_index).to_multiset() == usable_positions(
        c,
    ).to_multiset()
}

/// A keyed order that is a permutation of the usable positions names each
/// of them at most once and nothing else.
proof fn lemma_keyed_usable_order(c: Seq<i16>, order_key: Seq<u8>, chunk_index: u32)
    requires
        c.len() <= usize::MAX,
        keyed_usable_order_is_permutation(c, order_key, chunk_index),
    ensures
        order_spec(usable_positions(c), order_key, chunk_index).no_duplicates(),
        order_spec(usable_positions(c), order_key, chunk_index).len() == usable_positions(c).len(),
        order_usable(order_spec(usable_positions(c), order_key, chunk_index), c),
{
    let u = usable_positions(c);
    let o = order_spec(u, order_key, chunk_index);
    lemma_usable_no_duplicates(c);
    lemma_reorder_keeps_items(u, o);
    assert forall|t: int| 0 <= t < o.len() implies #[trigger] o[t] < c.len() && coef_usable(
        c,
        o[t] as int,
    ) by {
        assert(u.contains(o[t]));
        let j = choose|j: int| 0 <= j < u.len() && u[j] == o[t];
        assert(u[j] < c.len() && coef_usable(c, u[j] as int));
    }
}

fn coef_bit_at(c: &[i16], p: usize) -> (bit: u8)
    requires
        p < c@.len(),
    ensures
        bit == coef_bit(c@[p as int]),
{
    let v = c[p] as i32;
    let m: i32 = if v < 0 {
        -v
    } else {
        v
    };
    (m % 2) as u8
}

fn set_coef(v: i16, bit: u8) -> (r: i16)
    requires
        bit <= 1,
    ensures
        r == set_coef_bit(v, bit),
{
    let s = v as i32;
    let m: i32 = if s < 0 {
        -s
    } else {
        s
    };
    let e: i32 = m - m % 2 + bit as i32;
    let r: i32 = if s < 0 {
        -e
    } else {
        e
    };
    if r < -32768 {
        32767
    } else {
        r as i16
    }
}

/// The usable positions of the coefficients, in increasing order.
fn find_usable(c: &[i16]) -> (v: Vec<usize>)
    ensures
        v@ == usable_positions(c@),
{
    let n = c.len();
    let mut v: Vec<usize> = Vec::new();
    let mut p: usize = 0;
    while p < n
        invariant
            n == c@.len(),
            p <= n,
            v@ == usable_upto(c@, p as nat),
        decreases n - p,
    {
        let x = c[p] as i32;
        let m: i32 = if x < 0 {
            -x
        } else {
            x
        };
        if p % 64 != 0 && m >= 2 {
            v.push(p);
        }
        p += 1;
    }
    v
}

/// Writes the bits of `first ++ second` into the coefficients at
/// `order[0 ..]`.
fn embed_coefficients(c: &mut Vec<i16>, order: &[usize], first: &[u8], second: &[u8])
    requires
        8 * (first@.len() + second@.len()) <= order@.len(),
        order_usable(order@, old(c)@),
    ensures
        final(c)@ == jpeg_embed(old(c)@, order@, first@ + second@, (8 * (first@.len() + second@.len())) as nat),
{
    let ghost start = c@;
    let ghost data = first@ + second@;
    let olen = order.len();
    let total = (first.len() + second.len()) * 8;
    let mut t: usize = 0;
    while t < total
        invariant
            total == 8 * (first@.len() + second@.len()),
            total <= order@.len(),
            order_usable(order@, start),
            data == first@ + second@,
            t <= total,
            c@ == jpeg_embed(start, order@, data, t as nat),
        decreases total - t,
    {
        proof {
            lemma_jpeg_embed(start, order@, data, t as nat);
        }
        let p = order[t];
        let bit = payload_bit(first, second, t);
        let v = c[p];
        c.set(p, set_coef(v, bit));
        t += 1;
    }
}

/// Reads `n` bytes from the coefficients at `order[off ..]`.
fn extract_coefficients(c: &[i16], order: &[usize], off: usize, n: usize) -> (v: Vec<u8>)
    requires
        off + 8 * n <= order@.len(),
        forall|t: int| 0 <= t < order@.len() ==> #[trigger] order@[t] < c@.len(),
    ensures
        v@ == jpeg_extract(c@, order@, off as int, n as nat),
{
    let olen = order.len();
    let mut v: Vec<u8> = Vec::new();
    let mut k: usize = 0;
    while k < n
        invariant
            off + 8 * n <= order@.len(),
            order@.len() == olen,
            forall|t: int| 0 <= t < order@.len() ==> #[trigger] order@[t] < c@.len(),
            k <= n,
            v@ == jpeg_extract(c@, order@, off as int, k as nat),
        decreases n - k,
    {
        let base = off + 8 * k;
        let b0 = coef_bit_at(c, order[base]);
        let b1 = coef_bit_at(c, order[base + 1]);
        let b2 = coef_bit_at(c, order[base + 2]);
        let b3 = coef_bit_at(c, order[base + 3]);
        let b4 = coef_bit_at(c, order[base + 4]);
        let b5 = coef_bit_at(c, order[base + 5]);
        let b6 = coef_bit_at(c, order[base + 6]);
        let b7 = coef_bit_at(c, order[base + 7]);
        let mut byte = (b0 << 1u8) | b1;
        byte = (byte << 1u8) | b2;
        byte = (byte << 1u8) | b3;
        byte = (byte << 1u8) | b4;
        byte = (byte << 1u8) | b5;
        byte = (byte << 1u8) | b6;
        byte = (byte << 1u8) | b7;
        let ghost f = |j: int| coef_bit(c@[order@[off + 8 * k + j] as int]);
        assert(f(0) == b0 && f(1) == b1 && f(2) == b2 && f(3) == b3);
        assert(f(4) == b4 && f(5) == b5 && f(6) == b6 && f(7) == b7);
        assert(byte == byte_from_bits(f));
        v.push(byte);
        k += 1;
        assert(v@ =~= jpeg_extract(c@, order@, off as int, k as nat));
    }
    v
}

/// The keyed order of the usable positions, with what the shuffle promises
/// turned into facts about the image.
fn keyed_order(c: &[i16], positions: Vec<usize>, order_key: &[u8], chunk_index: u32) -> (res: Result<Vec<usize>, CodecError>)
    requires
        positions@ == usable_positions(c@),
    ensures
        order_key@.len() != 32 ==> res matches Err(CodecError::InvalidMode(_)),
        res matches Ok(o) ==> o@ == order_spec(usable_positions(c@), order_key@, chunk_index)
            && o@.no_duplicates() && o@.len() == usable_positions(c@).len() && order_usable(o@, c@)
            && keyed_usable_order_is_permutation(c@, order_key@, chunk_index),
        order_key@.len() == 32 ==> res is Ok,
{
    let n = c.len();
    let order = order_positions(positions, order_key, chunk_index)?;
    proof {
        let u = usable_positions(c@);
        lemma_usable_no_duplicates(c@);
        lemma_reorder_keeps_items(u, order@);
        assert forall|t: int| 0 <= t < order@.len() implies #[trigger] order@[t] < c@.len()
            && coef_usable(c@, order@[t] as int) by {
            assert(u.contains(order@[t]));
            let j = choose|j: int| 0 <= j < u.len() && u[j] == order@[t];
            assert(u[j] < c@.len() && coef_usable(c@, u[j] as int));
        }
    }
    Ok(order)
}

impl JpegCodec {
    /// Bytes the image can carry: one bit per usable coefficient.
    pub fn raw_capacity_bytes(&self, img: &JpegImage) -> (res: Result<u64, CodecError>)
        ensures
            res == Ok::<u64, CodecError>(jpeg_raw_capacity(img@.coefficients)),
    {
        let n = img.coefficients.len();
        let positions = find_usable(img.coefficients.as_slice());
        proof {
            lemma_usable_no_duplicates(img@.coefficients);
        }
        Ok((positions.len() / 8) as u64)
    }

    /// Bytes of payload a framed chunk can carry behind its header.
    pub fn capacity_bytes(&self, img: &JpegImage) -> (res: Result<u64, CodecError>)
        ensures
            res == Ok::<u64, CodecError>(
                sat_sub(jpeg_raw_capacity(img@.coefficients), CHUNK_HEADER_LEN as u64),
            ),
    {
        let raw = self.raw_capacity_bytes(img)?;
        Ok(raw.saturating_sub(CHUNK_HEADER_LEN as u64))
    }

    /// Hides `payload` in the image as one chunk.
    pub fn write_chunk(&self, img: &mut JpegImage, mode: ChunkWrite, payload: &[u8], order_key: &[u8]) -> (res:
        Result<(), CodecError>)
        ensures
            final(img).component_blocks@ == old(img).component_blocks@,
            jpeg_write_spec(old(img)@, mode, payload@, order_key@) == match res {
                Ok(_) => Ok(final(img).coefficients@),
                Err(e) => Err(fault_of(e)),
            },
            res is Err ==> final(img).coefficients@ == old(img).coefficients@,
            old(img).coefficients@.len() <= usize::MAX,
            res is Ok ==> (mode matches ChunkWrite::Markerless { chunk_index }
                ==> keyed_usable_order_is_permutation(old(img)@.coefficients, order_key@, chunk_index)),
    {
        let n = img.coefficients.len();
        let positions = find_usable(img.coefficients.as_slice());
        proof {
            lemma_usable_no_duplicates(img@.coefficients);
        }
        let raw = (positions.len() / 8) as u64;
        let len = payload.len();
        match mode {
            ChunkWrite::Framed(meta) => {
                if order_key.len() != 0 {
                    return Err(CodecError::InvalidMode("framed mode requires an empty order key".to_string()));
                }
                if len as u64 > u32::MAX as u64 || CHUNK_HEADER_LEN as u64 + len as u64 > raw {
                    return Err(
                        CodecError::PayloadTooLarge {
                            payload: len as u64,
                            capacity: raw.saturating_sub(CHUNK_HEADER_LEN as u64),
                        },
                    );
                }
                let header = encode_header(meta, len as u32);
                embed_coefficients(&mut img.coefficients, positions.as_slice(), header.as_slice(), payload);
                Ok(())
            },
            ChunkWrite::Markerless { chunk_index } => {
                if len as u64 > raw {
                    return Err(CodecError::PayloadTooLarge { payload: len as u64, capacity: raw });
                }
                let order = keyed_order(img.coefficients.as_slice(), positions, order_key, chunk_index)?;
                let empty: Vec<u8> = Vec::new();
                embed_coefficients(&mut img.coefficients, order.as_slice(), empty.as_slice(), payload);
                assert(empty@ + payload@ =~= payload@);
                Ok(())
            },
        }
    }

    /// Reads the chunk hidden in the image.
    pub fn read_chunk(&self, img: &JpegImage, mode: ChunkRead, order_key: &[u8]) -> (res: Result<
        (ChunkMeta, Vec<u8>),
        CodecError,
    >)
        ensures
            jpeg_read_spec(img@, mode, order_key@) == match res {
                Ok((meta, bytes)) => Ok((meta, bytes@)),
                Err(e) => Err(fault_of(e)),
            },
    {
        let n = img.coefficients.len();
        let positions = find_usable(img.coefficients.as_slice());
        proof {
            lemma_usable_no_duplicates(img@.coefficients);
        }
        let count = positions.len();
        let raw = (count / 8) as u64;
        match mode {
            ChunkRead::Framed => {
                if order_key.len() != 0 {
                    return Err(CodecError::InvalidMode("framed mode requires an empty order key".to_string()));
                }
                if count < 8 * CHUNK_HEADER_LEN {
                    return Err(CodecError::NotACarrier);
                }
                let header = extract_coefficients(img.coefficients.as_slice(), positions.as_slice(), 0, CHUNK_HEADER_LEN);
                let (meta, payload_len) = decode_header(header.as_slice())?;
                if payload_len as u64 > raw.saturating_sub(CHUNK_HEADER_LEN as u64) {
                    return Err(CodecError::NotACarrier);
                }
                let payload = extract_coefficients(
                    img.coefficients.as_slice(),
                    positions.as_slice(),
                    8 * CHUNK_HEADER_LEN,
                    payload_len as usize,
                );
                Ok((meta, payload))
            },
            ChunkRead::Markerless { chunk_index, payload_len } => {
                if payload_len as u64 > raw {
                    return Err(CodecError::NotACarrier);
                }
                let order = keyed_order(img.coefficients.as_slice(), positions, order_key, chunk_index)?;
                let payload = extract_coefficients(img.coefficients.as_slice(), order.as_slice(), 0, payload_len);
                Ok((ChunkMeta { chunk_index, flags: 0 }, payload))
            },
        }
    }

    /// Writes `bytes` at the front of the usable positions, with no header.
    pub fn write_prefix(&self, img: &mut JpegImage, bytes: &[u8]) -> (res: Result<(), CodecError>)
        ensures
            final(img).component_blocks@ == old(img).component_blocks@,
            jpeg_write_prefix_spec(old(img)@, bytes@) == match res {
                Ok(_) => Ok(final(img).coefficients@),
                Err(e) => Err(fault_of(e)),
            },
            res is Err ==> final(img).coefficients@ == old(img).coefficients@,
    {
        let n = img.coefficients.len();
        let positions = find_usable(img.coefficients.as_slice());
        proof {
            lemma_usable_no_duplicates(img@.coefficients);
        }
        let raw = (positions.len() / 8) as u64;
        if bytes.len() as u64 > raw {
            return Err(CodecError::PayloadTooLarge { payload: bytes.len() as u64, capacity: raw });
        }
        let empty: Vec<u8> = Vec::new();
        embed_coefficients(&mut img.coefficients, positions.as_slice(), empty.as_slice(), bytes);
        assert(empty@ + bytes@ =~= bytes@);
        Ok(())
    }

    /// Reads `length` bytes from the front of the usable positions.
    pub fn read_prefix(&self, img: &JpegImage, length: usize) -> (res: Result<Vec<u8>, CodecError>)
        ensures
            jpeg_read_prefix_spec(img@, length) == match res {
                Ok(bytes) => Ok(bytes@),
                Err(e) => Err(fault_of(e)),
            },
    {
        let n = img.coefficients.len();
        let positions = find_usable(img.coefficients.as_slice());
        proof {
            lemma_usable_no_duplicates(img@.coefficients);
        }
        let raw = (positions.len() / 8) as u64;
        if length as u64 > raw {
            return Err(CodecError::NotACarrier);
        }
        Ok(extract_coefficients(img.coefficients.as_slice(), positions.as_slice(), 0, length))
    }
}

/// A framed chunk reads back as the metadata and payload it was written
/// with.
pub proof fn lemma_jpeg_framed_roundtrip(img: JpegView, meta: ChunkMeta, payload: Seq<u8>)
    requires
        img.coefficients.len() <= usize::MAX,
        jpeg_write_spec(img, ChunkWrite::Framed(meta), payload, Seq::empty()) is Ok,
    ensures
        jpeg_read_spec(
            JpegView {
                coefficients: jpeg_write_spec(img, ChunkWrite::Framed(meta), payload, Seq::empty())->Ok_0,
                ..img
            },
            ChunkRead::Framed,
            Seq::empty(),
        ) == Ok::<(ChunkMeta, Seq<u8>), CodecFault>((meta, payload)),
{
    let c = img.coefficients;
    let u = usable_positions(c);
    lemma_usable_no_duplicates(c);
    lemma_header_len(meta, payload.len() as u32);
    let data = header_bytes(meta, payload.len() as u32) + payload;
    let k = (8 * data.len()) as nat;
    let written = jpeg_embed(c, u, data, k);
    lemma_jpeg_embed(c, u, data, k);
    lemma_usable_upto_eq(c, written, c.len());
    assert(usable_positions(written) == u);
    assert(u.take(k as int).no_duplicates());
    lemma_jpeg_roundtrip(c, u, data, 0, CHUNK_HEADER_LEN as nat);
    assert(data.subrange(0, 16) =~= header_bytes(meta, payload.len() as u32));
    lemma_header_roundtrip(meta, payload.len() as u32);
    lemma_jpeg_roundtrip(c, u, data, 128, payload.len());
    assert(data.subrange(16, 16 + payload.len() as int) =~= payload);
}

/// Bytes written at the front of the usable positions read back unchanged.
pub proof fn lemma_jpeg_prefix_roundtrip(img: JpegView, bytes: Seq<u8>)
    requires
        img.coefficients.len() <= usize::MAX,
        jpeg_write_prefix_spec(img, bytes) is Ok,
    ensures
        jpeg_read_prefix_spec(
            JpegView { coefficients: jpeg_write_prefix_spec(img, bytes)->Ok_0, ..img },
            bytes.len() as usize,
        ) == Ok::<Seq<u8>, CodecFault>(bytes),
{
    let c = img.coefficients;
    let u = usable_positions(c);
    lemma_usable_no_duplicates(c);
    let k = (8 * bytes.len()) as nat;
    let written = jpeg_embed(c, u, bytes, k);
    lemma_jpeg_embed(c, u, bytes, k);
    lemma_usable_upto_eq(c, written, c.len());
    assert(u.take(k as int).no_duplicates());
    lemma_jpeg_roundtrip(c, u, bytes, 0, bytes.len());
    assert(bytes.subrange(0, bytes.len() as int) =~= bytes);
}

/// A markerless chunk reads back, with the same key and chunk index and its
/// length, as the payload it was written with.
pub proof fn lemma_jpeg_markerless_roundtrip(
    img: JpegView,
    chunk_index: u32,
    payload: Seq<u8>,
    order_key: Seq<u8>,
)
    requires
        img.coefficients.len() <= usize::MAX,
        jpeg_write_spec(img, ChunkWrite::Markerless { chunk_index }, payload, order_key) is Ok,
        keyed_usable_order_is_permutation(img.coefficients, order_key, chunk_index),
    ensures
        jpeg_read_spec(
            JpegView {
                coefficients: jpeg_write_spec(
                    img,
                    ChunkWrite::Markerless { chunk_index },
                    payload,
                    order_key,
                )->Ok_0,
                ..img
            },
            ChunkRead::Markerless { chunk_index, payload_len: payload.len() as usize },
            order_key,
        ) == Ok::<(ChunkMeta, Seq<u8>), CodecFault>((ChunkMeta { chunk_index, flags: 0 }, payload)),
{
    let c = img.coefficients;
    let u = usable_positions(c);
    lemma_usable_no_duplicates(c);
    lemma_keyed_usable_order(c, order_key, chunk_index);
    let order = order_spec(u, order_key, chunk_index);
    let k = (8 * payload.len()) as nat;
    let written = jpeg_embed(c, order, payload, k);
    assert(jpeg_write_spec(img, ChunkWrite::Markerless { chunk_index }, payload, order_key) == Ok::<
        Seq<i16>,
        CodecFault,
    >(written));
    assert(same_usable(c, written)) by {
        lemma_jpeg_embed(c, order, payload, k);
    }
    lemma_usable_upto_eq(c, written, c.len());
    assert(usable_positions(written) == u);
    assert(jpeg_raw_capacity(written) == jpeg_raw_capacity(c));
    assert(payload.len() <= jpeg_raw_capacity(c));
    assert(u.len() <= c.len());
    assert(payload.len() <= usize::MAX);
    assert((payload.len() as usize) as nat == payload.len());
    assert(jpeg_extract(written, order, 0, payload.len()) == payload) by {
        assert(order.take(k as int).no_duplicates());
        lemma_jpeg_roundtrip(c, order, payload, 0, payload.len());
        assert(payload.subrange(0, payload.len() as int) =~= payload);
    }
}

/// A write keeps the number of coefficients, the sign-independent
/// usability of every position and every coefficient it does not carry a
/// bit in; so the capacity is the same before and after.
pub proof fn lemma_jpeg_write_keeps_capacity(
    img: JpegView,
    mode: ChunkWrite,
    payload: Seq<u8>,
    order_key: Seq<u8>,
)
    requires
        img.coefficients.len() <= usize::MAX,
        jpeg_write_spec(img, mode, payload, order_key) is Ok,
        mode matches ChunkWrite::Markerless { chunk_index } ==> keyed_usable_order_is_permutation(
            img.coefficients,
            order_key,
            chunk_index,
        ),
    ensures
        same_usable(img.coefficients, jpeg_write_spec(img, mode, payload, order_key)->Ok_0),
        usable_positions(jpeg_write_spec(img, mode, payload, order_key)->Ok_0) == usable_positions(
            img.coefficients,
        ),
        jpeg_raw_capacity(jpeg_write_spec(img, mode, payload, order_key)->Ok_0) == jpeg_raw_capacity(
            img.coefficients,
        ),
{
    let c = img.coefficients;
    let u = usable_positions(c);
    lemma_usable_no_duplicates(c);
    match mode {
        ChunkWrite::Framed(meta) => {
            lemma_header_len(meta, payload.len() as u32);
            let data = header_bytes(meta, payload.len() as u32) + payload;
            let k = (8 * data.len()) as nat;
            lemma_jpeg_embed(c, u, data, k);
            lemma_usable_upto_eq(c, jpeg_embed(c, u, data, k), c.len());
        },
        ChunkWrite::Markerless { chunk_index } => {
            lemma_keyed_usable_order(c, order_key, chunk_index);
            let order = order_spec(u, order_key, chunk_index);
            let k = (8 * payload.len()) as nat;
            lemma_jpeg_embed(c, order, payload, k);
            lemma_usable_upto_eq(c, jpeg_embed(c, order, payload, k), c.len());
        },
    }
}

} // verus!
