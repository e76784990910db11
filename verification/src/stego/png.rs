//! PNG carriers: one bit in the least significant bit of each red, green and
//! blue channel, in raster order or in a keyed order. Alpha is never touched.

use super::bits::{byte_from_bits, lemma_assemble, lemma_byte_from_bits_eq, msb_bit, msb_bit2, payload_bit};
use super::{
    decode_header, decode_header_spec, encode_header, fault_of, header_bytes,
    lemma_header_len, lemma_header_roundtrip, lemma_reorder_keeps_items, natural, natural_positions,
    order_positions, order_spec, ChunkMeta, ChunkRead, ChunkWrite, CodecError, CodecFault,
    CHUNK_HEADER_LEN,
};
use vstd::prelude::*;

verus! {

/// A decoded RGBA image: `rgba` holds four bytes per pixel in raster order.
#[derive(Debug, Clone)]
pub struct PngImage {
    pub width: u32,
    pub height: u32,
    pub rgba: Vec<u8>,
}

/// What a PNG image holds, as mathematical values.
pub struct PngView {
    pub width: u32,
    pub height: u32,
    pub rgba: Seq<u8>,
}

impl View for PngImage {
    type V = PngView;

    open spec fn view(&self) -> PngView {
        PngView { width: self.width, height: self.height, rgba: self.rgba@ }
    }
}

/// The image that the `image` crate decodes from the bytes of a PNG file,
/// as RGBA; `None` where it cannot decode them.
pub uninterp spec fn png_decoded(bytes: Seq<u8>) -> Option<PngView>;

/// The bytes of the PNG file that the `image` crate encodes for an RGBA
/// image; `None` where it refuses to encode it.
pub uninterp spec fn png_encoded(img: PngView) -> Option<Seq<u8>>;

/// Calls `image::load_from_memory_with_format` for PNG and `to_rgba8`.
/// Claims that the result is the image named by `png_decoded`, and that it
/// holds four bytes per pixel, as an RGBA buffer of the crate does.
#[verifier::external_body]
pub(crate) fn decode_png(bytes: &[u8]) -> (res: Option<PngImage>)
    ensures
        match res {
            Some(i) => png_decoded(bytes@) == Some(i@) && png_shape_ok(i@),
            None => png_decoded(bytes@) is None,
        },
{
    let decoded = image::load_from_memory_with_format(bytes, image::ImageFormat::Png).ok()?;
    let rgba = decoded.to_rgba8();
    let (width, height) = rgba.dimensions();
    Some(PngImage { width, height, rgba: rgba.into_raw() })
}

/// Calls `image::RgbaImage::from_raw` and `write_to` with the PNG format
/// into memory. Claims that the result is the one named by `png_encoded`.
#[verifier::external_body]
pub(crate) fn encode_png(img: &PngImage) -> (res: Option<Vec<u8>>)
    requires
        png_shape_ok(img@),
    ensures
        match res {
            Some(b) => png_encoded(img@) == Some(b@),
            None => png_encoded(img@) is None,
        },
{
    let buffer = image::RgbaImage::from_raw(img.width, img.height, img.rgba.clone())?;
    let mut out = std::io::Cursor::new(Vec::new());
    buffer.write_to(&mut out, image::ImageFormat::Png).ok()?;
    Some(out.into_inner())
}

/// The codec for PNG carriers.
pub struct PngCodec;

/// The image's byte vector has exactly four bytes per pixel.
pub open spec fn png_shape_ok(img: PngView) -> bool {
    img.rgba.len() == 4 * (img.width as int) * (img.height as int)
}

/// Number of usable channels: red, green and blue of every pixel.
pub open spec fn channel_count(img: PngView) -> int {
    3 * (img.width as int) * (img.height as int)
}

/// The byte of channel `c` (0, 1 or 2 of pixel `c / 3`) in the RGBA vector.
pub open spec fn channel_byte(c: int) -> int {
    (c / 3) * 4 + c % 3
}

/// Bytes that one bit per channel can hold.
pub open spec fn png_raw_capacity(img: PngView) -> u64 {
    (channel_count(img) / 8) as u64
}

pub open spec fn set_lsb(v: u8, bit: u8) -> u8 {
    (v & 0xfe) | bit
}

/// The RGBA bytes after the first `k` bits of `first ++ second` are written,
/// bit `t` into the channel `order[t]`.
pub open spec fn png_embed(rgba: Seq<u8>, order: Seq<usize>, data: Seq<u8>, k: nat) -> Seq<u8>
    decreases k,
{
    if k == 0 {
        rgba
    } else {
        let prev = png_embed(rgba, order, data, (k - 1) as nat);
        let b = channel_byte(order[k - 1] as int);
        prev.update(b, set_lsb(prev[b], msb_bit(data, k - 1)))
    }
}

/// The `n` bytes read from the channels `order[off ..]`, eight per byte.
pub open spec fn png_extract(rgba: Seq<u8>, order: Seq<usize>, off: int, n: nat) -> Seq<u8> {
    Seq::new(
        n,
        |k: int| byte_from_bits(|j: int| rgba[channel_byte(order[off + 8 * k + j] as int)] & 1),
    )
}

/// Every entry of `order` names a channel of the image.
pub open spec fn order_in_range(order: Seq<usize>, channels: int) -> bool {
    forall|t: int| 0 <= t < order.len() ==> #[trigger] order[t] < channels
}

proof fn lemma_set_lsb(v: u8, bit: u8)
    by (bit_vector)
    requires
        bit <= 1,
    ensures
        set_lsb(v, bit) & 1 == bit,
        set_lsb(v, bit) >> 1u8 == v >> 1u8,
{
}

proof fn lemma_channel_byte(c: int, channels: int)
    requires
        0 <= c < channels,
        channels % 3 == 0,
    ensures
        0 <= channel_byte(c) < channels / 3 * 4,
        channel_byte(c) % 4 != 3,
        forall|d: int| 0 <= d && channel_byte(d) == channel_byte(c) ==> d == c,
{
}

proof fn lemma_png_embed_len(rgba: Seq<u8>, order: Seq<usize>, data: Seq<u8>, k: nat, channels: int)
    requires
        channels % 3 == 0,
        rgba.len() == channels / 3 * 4,
        k <= order.len(),
        order_in_range(order, channels),
    ensures
        png_embed(rgba, order, data, k).len() == rgba.len(),
    decreases k,
{
    if k > 0 {
        lemma_png_embed_len(rgba, order, data, (k - 1) as nat, channels);
        lemma_channel_byte(order[k - 1] as int, channels);
    }
}

/// Writing bits only ever changes the least significant bit of a colour
/// channel, and channels not named in the first `k` entries of the order
/// are left alone; a channel named once holds its bit afterwards.
pub proof fn lemma_png_embed(rgba: Seq<u8>, order: Seq<usize>, data: Seq<u8>, k: nat, channels: int)
    requires
        channels % 3 == 0,
        rgba.len() == channels / 3 * 4,
        k <= order.len(),
        k <= 8 * data.len(),
        order_in_range(order, channels),
    ensures
        png_embed(rgba, order, data, k).len() == rgba.len(),
        forall|b: int| 0 <= b < rgba.len() ==> #[trigger] png_embed(rgba, order, data, k)[b] >> 1u8
            == rgba[b] >> 1u8,
        forall|b: int| 0 <= b < rgba.len() && b % 4 == 3 ==> #[trigger] png_embed(rgba, order, data, k)[b] == rgba[b],
        forall|b: int|
            0 <= b < rgba.len() && (forall|t: int| 0 <= t < k ==> channel_byte(order[t] as int) != b)
                ==> #[trigger] png_embed(rgba, order, data, k)[b] == rgba[b],
        order.take(k as int).no_duplicates() ==> forall|t: int|
            0 <= t < k ==> #[trigger] png_embed(rgba, order, data, k)[channel_byte(order[t] as int)]
                & 1 == msb_bit(data, t),
    decreases k,
{
    if k > 0 {
        let j = (k - 1) as nat;
        lemma_png_embed(rgba, order, data, j, channels);
        let prev = png_embed(rgba, order, data, j);
        let c = order[j as int] as int;
        let b = channel_byte(c);
        lemma_channel_byte(c, channels);
        let bit = msb_bit(data, j as int);
        assert(bit <= 1) by {
            let x = data[j as int / 8];
            let s = (7 - j as int % 8) as u8;
            assert((x >> s) & 1 <= 1) by (bit_vector);
        }
        lemma_set_lsb(prev[b], bit);
        if order.take(k as int).no_duplicates() {
            assert(order.take(j as int) =~= order.take(k as int).take(j as int));
            assert forall|t: int| 0 <= t < k implies #[trigger] png_embed(
                rgba,
                order,
                data,
                k,
            )[channel_byte(order[t] as int)] & 1 == msb_bit(data, t) by {
                if t < j {
                    assert(order.take(k as int)[t] != order.take(k as int)[j as int]);
                    lemma_channel_byte(order[t] as int, channels);
                }
            }
        }
    }
}

/// Bits written into distinct channels read back as the bytes that were
/// written.
pub proof fn lemma_png_roundtrip(rgba: Seq<u8>, order: Seq<usize>, data: Seq<u8>, off: int, n: nat, channels: int)
    requires
        channels % 3 == 0,
        rgba.len() == channels / 3 * 4,
        8 * data.len() <= order.len(),
        order_in_range(order, channels),
        order.take(8 * data.len() as int).no_duplicates(),
        0 <= off,
        off % 8 == 0,
        off + 8 * n <= 8 * data.len(),
    ensures
        png_extract(png_embed(rgba, order, data, (8 * data.len()) as nat), order, off, n)
            == data.subrange(off / 8, off / 8 + n),
{
    let k = (8 * data.len()) as nat;
    lemma_png_embed(rgba, order, data, k, channels);
    let e = png_embed(rgba, order, data, k);
    assert forall|i: int| 0 <= i < n implies #[trigger] png_extract(e, order, off, n)[i]
        == data.subrange(off / 8, off / 8 + n)[i] by {
        let q = off / 8 + i;
        lemma_assemble(data, q);
        let f = |j: int| e[channel_byte(order[off + 8 * i + j] as int)] & 1;
        let g = |j: int| msb_bit(data, 8 * q + j);
        assert forall|j: int| 0 <= j < 8 implies #[trigger] f(j) == g(j) by {
            assert(off + 8 * i + j == 8 * q + j);
        }
        lemma_byte_from_bits_eq(f, g);
    }
    assert(png_extract(e, order, off, n) =~= data.subrange(off / 8, off / 8 + n));
}


/// `x - y`, or 0 where `y` is larger.
pub open spec fn sat_sub(x: u64, y: u64) -> u64 {
    if x >= y {
        (x - y) as u64
    } else {
        0
    }
}

/// What writing a chunk into an image leaves in its RGBA bytes, or why the
/// write is refused. Framed chunks go behind their header in raster order;
/// markerless chunks go bare into the keyed order of all channels.
pub open spec fn png_write_spec(img: PngView, mode: ChunkWrite, payload: Seq<u8>, order_key: Seq<u8>) -> Result<
    Seq<u8>,
    CodecFault,
> {
    let raw = png_raw_capacity(img);
    if !png_shape_ok(img) {
        Err(CodecFault::Image)
    } else {
        match mode {
            ChunkWrite::Framed(meta) => if order_key.len() != 0 {
                Err(CodecFault::InvalidMode)
            } else if payload.len() > u32::MAX || CHUNK_HEADER_LEN + payload.len() > raw {
                Err(
                    CodecFault::PayloadTooLarge {
                        payload: payload.len() as u64,
                        capacity: sat_sub(raw, CHUNK_HEADER_LEN as u64),
                    },
                )
            } else {
                let data = header_bytes(meta, payload.len() as u32) + payload;
                let k = (8 * data.len()) as nat;
                Ok(png_embed(img.rgba, natural(k), data, k))
            },
            ChunkWrite::Markerless { chunk_index } => if payload.len() > raw {
                Err(CodecFault::PayloadTooLarge { payload: payload.len() as u64, capacity: raw })
            } else if order_key.len() != 32 {
                Err(CodecFault::InvalidMode)
            } else {
                Ok(
                    png_embed(
                        img.rgba,
                        order_spec(natural(channel_count(img) as nat), order_key, chunk_index),
                        payload,
                        (8 * payload.len()) as nat,
                    ),
                )
            },
        }
    }
}

/// What reading a chunk out of an image gives, or why it fails.
pub open spec fn png_read_spec(img: PngView, mode: ChunkRead, order_key: Seq<u8>) -> Result<
    (ChunkMeta, Seq<u8>),
    CodecFault,
> {
    let raw = png_raw_capacity(img);
    let channels = channel_count(img);
    if !png_shape_ok(img) {
        Err(CodecFault::Image)
    } else {
        match mode {
            ChunkRead::Framed => if order_key.len() != 0 {
                Err(CodecFault::InvalidMode)
            } else if channels < 8 * CHUNK_HEADER_LEN {
                Err(CodecFault::NotACarrier)
            } else {
                match decode_header_spec(
                    png_extract(img.rgba, natural(channels as nat), 0, CHUNK_HEADER_LEN as nat),
                ) {
                    Err(f) => Err(f),
                    Ok((meta, len)) => if len > sat_sub(raw, CHUNK_HEADER_LEN as u64) {
                        Err(CodecFault::NotACarrier)
                    } else {
                        Ok(
                            (
                                meta,
                                png_extract(
                                    img.rgba,
                                    natural(channels as nat),
                                    8 * CHUNK_HEADER_LEN,
                                    len as nat,
                                ),
                            ),
                        )
                    },
                }
            },
            ChunkRead::Markerless { chunk_index, payload_len } => if payload_len > raw {
                Err(CodecFault::NotACarrier)
            } else if order_key.len() != 32 {
                Err(CodecFault::InvalidMode)
            } else {
                Ok(
                    (
                        ChunkMeta { chunk_index, flags: 0 },
                        png_extract(
                            img.rgba,
                            order_spec(natural(channels as nat), order_key, chunk_index),
                            0,
                            payload_len as nat,
                        ),
                    ),
                )
            },
        }
    }
}

/// What writing bytes at the front of the raster order leaves in the image.
pub open spec fn png_write_prefix_spec(img: PngView, bytes: Seq<u8>) -> Result<Seq<u8>, CodecFault> {
    let raw = png_raw_capacity(img);
    if !png_shape_ok(img) {
        Err(CodecFault::Image)
    } else if bytes.len() > raw {
        Err(CodecFault::PayloadTooLarge { payload: bytes.len() as u64, capacity: raw })
    } else {
        let k = (8 * bytes.len()) as nat;
        Ok(png_embed(img.rgba, natural(k), bytes, k))
    }
}

/// The first `length` bytes of the raster order.
pub open spec fn png_read_prefix_spec(img: PngView, length: usize) -> Result<Seq<u8>, CodecFault> {
    if !png_shape_ok(img) {
        Err(CodecFault::Image)
    } else if length > png_raw_capacity(img) {
        Err(CodecFault::NotACarrier)
    } else {
        Ok(png_extract(img.rgba, natural(channel_count(img) as nat), 0, length as nat))
    }
}

/// The keyed order of an image's `n` channels holds each channel once; the
/// shuffle that produces it promises as much.
pub open spec fn keyed_order_is_permutation(n: nat, order_key: Seq<u8>, chunk_index: u32) -> bool {
    order_spec(natural(n), order_key, chunk_index).to_multiset() == natural(n).to_multiset()
}

/// The natural order names positions `0 .. n`, each once.
proof fn lemma_natural(n: nat, channels: int)
    requires
        n <= usize::MAX + 1,
        n <= channels,
    ensures
        natural(n).no_duplicates(),
        natural(n).take(n as int) == natural(n),
        order_in_range(natural(n), channels),
        forall|t: int| 0 <= t < n ==> #[trigger] natural(n)[t] == t,
{
    assert(natural(n).take(n as int) =~= natural(n));
}

proof fn lemma_shape(img: PngView)
    requires
        png_shape_ok(img),
        img.rgba.len() <= usize::MAX,
    ensures
        channel_count(img) <= img.rgba.len(),
        channel_count(img) % 3 == 0,
        img.rgba.len() == channel_count(img) / 3 * 4,
        channel_count(img) >= 0,
        png_raw_capacity(img) == channel_count(img) / 8,
{
    let wh = (img.width as int) * (img.height as int);
    assert(wh >= 0) by (nonlinear_arith)
        requires
            wh == (img.width as int) * (img.height as int),
    ;
    assert(3 * (img.width as int) * (img.height as int) == 3 * wh) by (nonlinear_arith)
        requires
            wh == (img.width as int) * (img.height as int),
    ;
    assert(4 * (img.width as int) * (img.height as int) == 4 * wh) by (nonlinear_arith)
        requires
            wh == (img.width as int) * (img.height as int),
    ;
    assert((3 * wh) / 3 == wh);
}

/// A keyed order that is a permutation of the channels names every channel
/// at most once and only channels of the image.
proof fn lemma_keyed_order(n: nat, order_key: Seq<u8>, chunk_index: u32)
    requires
        keyed_order_is_permutation(n, order_key, chunk_index),
        n <= usize::MAX + 1,
    ensures
        order_spec(natural(n), order_key, chunk_index).no_duplicates(),
        order_spec(natural(n), order_key, chunk_index).len() == n,
        order_in_range(order_spec(natural(n), order_key, chunk_index), n as int),
{
    let o = order_spec(natural(n), order_key, chunk_index);
    lemma_natural(n, n as int);
    lemma_reorder_keeps_items(natural(n), o);
    assert forall|t: int| 0 <= t < o.len() implies #[trigger] o[t] < n by {
        assert(natural(n).contains(o[t]));
        let j = choose|j: int| 0 <= j < natural(n).len() && natural(n)[j] == o[t];
    }
}

/// Reads only look at the first entries of an order.
proof fn lemma_extract_prefix(rgba: Seq<u8>, a: Seq<usize>, b: Seq<usize>, off: int, n: nat)
    requires
        0 <= off,
        off + 8 * n <= a.len(),
        off + 8 * n <= b.len(),
        forall|i: int| 0 <= i < off + 8 * n ==> a[i] == b[i],
    ensures
        png_extract(rgba, a, off, n) == png_extract(rgba, b, off, n),
{
    assert forall|k: int| 0 <= k < n implies #[trigger] png_extract(rgba, a, off, n)[k]
        == png_extract(rgba, b, off, n)[k] by {
        let f = |j: int| rgba[channel_byte(a[off + 8 * k + j] as int)] & 1;
        let g = |j: int| rgba[channel_byte(b[off + 8 * k + j] as int)] & 1;
        assert forall|j: int| 0 <= j < 8 implies #[trigger] f(j) == g(j) by {
            assert(off + 8 * k + j < off + 8 * n);
        }
        lemma_byte_from_bits_eq(f, g);
    }
    assert(png_extract(rgba, a, off, n) =~= png_extract(rgba, b, off, n));
}

/// Whether the image's byte vector matches its dimensions.
pub(crate) fn shape_ok(img: &PngImage) -> (r: bool)
    ensures
        r == png_shape_ok(img@),
{
    let w = img.width as u64;
    let h = img.height as u64;
    assert(w * h <= 0xffff_fffe_0000_0001u64) by (nonlinear_arith)
        requires
            w <= 0xffff_ffffu64,
            h <= 0xffff_ffffu64,
    ;
    let wh = w * h;
    let len = img.rgba.len() as u64;
    match wh.checked_mul(4) {
        Some(n) => {
            assert(4 * (img.width as int) * (img.height as int) == 4 * (wh as int)) by (nonlinear_arith)
                requires
                    wh == w * h,
                    w == img.width,
                    h == img.height,
            ;
            n == len
        },
        None => {
            assert(4 * (img.width as int) * (img.height as int) == 4 * (wh as int)) by (nonlinear_arith)
                requires
                    wh == w * h,
                    w == img.width,
                    h == img.height,
            ;
            false
        },
    }
}

/// Writes the bits of `first ++ second` into the channels `order[0 ..]`.
fn embed_bits(rgba: &mut Vec<u8>, order: &[usize], first: &[u8], second: &[u8], channels: usize)
    requires
        channels % 3 == 0,
        old(rgba)@.len() == channels / 3 * 4,
        8 * (first@.len() + second@.len()) <= order@.len(),
        order_in_range(order@, channels as int),
    ensures
        final(rgba)@ == png_embed(
            old(rgba)@,
            order@,
            first@ + second@,
            (8 * (first@.len() + second@.len())) as nat,
        ),
{
    let ghost start = rgba@;
    let ghost data = first@ + second@;
    let olen = order.len();
    let rlen = rgba.len();
    let total = (first.len() + second.len()) * 8;
    let mut t: usize = 0;
    while t < total
        invariant
            channels % 3 == 0,
            start.len() == channels / 3 * 4,
            total == 8 * (first@.len() + second@.len()),
            total <= order@.len(),
            order_in_range(order@, channels as int),
            data == first@ + second@,
            t <= total,
            start.len() <= usize::MAX,
            rgba@ == png_embed(start, order@, data, t as nat),
        decreases total - t,
    {
        proof {
            lemma_png_embed(start, order@, data, t as nat, channels as int);
        }
        let c = order[t];
        proof {
            lemma_channel_byte(c as int, channels as int);
        }
        let b = (c / 3) * 4 + c % 3;
        let bit = payload_bit(first, second, t);
        let v = rgba[b];
        rgba.set(b, (v & 0xfe) | bit);
        t += 1;
    }
}

/// The low bit of channel `order[i]`.
fn channel_bit(rgba: &[u8], order: &[usize], i: usize, channels: usize) -> (bit: u8)
    requires
        channels % 3 == 0,
        rgba@.len() == channels / 3 * 4,
        i < order@.len(),
        order_in_range(order@, channels as int),
    ensures
        bit == rgba@[channel_byte(order@[i as int] as int)] & 1,
{
    let rlen = rgba.len();
    let c = order[i];
    proof {
        lemma_channel_byte(c as int, channels as int);
    }
    rgba[(c / 3) * 4 + c % 3] & 1
}

/// Reads `n` bytes from the channels `order[off ..]`.
fn extract_bits(rgba: &[u8], order: &[usize], off: usize, n: usize, channels: usize) -> (v: Vec<u8>)
    requires
        channels % 3 == 0,
        rgba@.len() == channels / 3 * 4,
        off + 8 * n <= order@.len(),
        order_in_range(order@, channels as int),
    ensures
        v@ == png_extract(rgba@, order@, off as int, n as nat),
{
    let olen = order.len();
    let mut v: Vec<u8> = Vec::new();
    let mut k: usize = 0;
    while k < n
        invariant
            channels % 3 == 0,
            rgba@.len() == channels / 3 * 4,
            off + 8 * n <= order@.len(),
            order@.len() == olen,
            order_in_range(order@, channels as int),
            k <= n,
            v@ == png_extract(rgba@, order@, off as int, k as nat),
        decreases n - k,
    {
        let base = off + 8 * k;
        let b0 = channel_bit(rgba, order, base, channels);
        let b1 = channel_bit(rgba, order, base + 1, channels);
        let b2 = channel_bit(rgba, order, base + 2, channels);
        let b3 = channel_bit(rgba, order, base + 3, channels);
        let b4 = channel_bit(rgba, order, base + 4, channels);
        let b5 = channel_bit(rgba, order, base + 5, channels);
        let b6 = channel_bit(rgba, order, base + 6, channels);
        let b7 = channel_bit(rgba, order, base + 7, channels);
        let mut byte = (b0 << 1u8) | b1;
        byte = (byte << 1u8) | b2;
        byte = (byte << 1u8) | b3;
        byte = (byte << 1u8) | b4;
        byte = (byte << 1u8) | b5;
        byte = (byte << 1u8) | b6;
        byte = (byte << 1u8) | b7;
        let ghost f = |j: int| rgba@[channel_byte(order@[off + 8 * k + j] as int)] & 1;
        assert(f(0) == b0 && f(1) == b1 && f(2) == b2 && f(3) == b3);
        assert(f(4) == b4 && f(5) == b5 && f(6) == b6 && f(7) == b7);
        assert(byte == byte_from_bits(f));
        v.push(byte);
        k += 1;
        assert(v@ =~= png_extract(rgba@, order@, off as int, k as nat));
    }
    v
}

/// Writes the bits of `first ++ second` into the channels in raster order.
fn embed_bits_natural(rgba: &mut Vec<u8>, first: &[u8], second: &[u8], channels: usize)
    requires
        channels % 3 == 0,
        old(rgba)@.len() == channels / 3 * 4,
        8 * (first@.len() + second@.len()) <= channels,
    ensures
        final(rgba)@ == png_embed(
            old(rgba)@,
            natural((8 * (first@.len() + second@.len())) as nat),
            first@ + second@,
            (8 * (first@.len() + second@.len())) as nat,
        ),
{
    let ghost start = rgba@;
    let ghost data = first@ + second@;
    let rlen = rgba.len();
    let total = (first.len() + second.len()) * 8;
    let ghost order = natural(total as nat);
    proof {
        lemma_natural(total as nat, channels as int);
    }
    let mut t: usize = 0;
    while t < total
        invariant
            channels % 3 == 0,
            start.len() == channels / 3 * 4,
            start.len() <= usize::MAX,
            total == 8 * (first@.len() + second@.len()),
            total <= channels,
            order == natural(total as nat),
            order_in_range(order, channels as int),
            forall|i: int| 0 <= i < total ==> #[trigger] order[i] == i,
            data == first@ + second@,
            t <= total,
            rgba@ == png_embed(start, order, data, t as nat),
        decreases total - t,
    {
        proof {
            lemma_png_embed(start, order, data, t as nat, channels as int);
            lemma_channel_byte(t as int, channels as int);
        }
        let b = (t / 3) * 4 + t % 3;
        let bit = payload_bit(first, second, t);
        let v = rgba[b];
        rgba.set(b, (v & 0xfe) | bit);
        t += 1;
    }
}

/// The low bit of channel `c`.
fn raster_bit(rgba: &[u8], c: usize, channels: usize) -> (bit: u8)
    requires
        channels % 3 == 0,
        rgba@.len() == channels / 3 * 4,
        c < channels,
    ensures
        bit == rgba@[channel_byte(c as int)] & 1,
{
    let rlen = rgba.len();
    proof {
        lemma_channel_byte(c as int, channels as int);
    }
    rgba[(c / 3) * 4 + c % 3] & 1
}

/// Reads `n` bytes from the channels in raster order from channel `off`.
fn extract_bits_natural(rgba: &[u8], off: usize, n: usize, channels: usize) -> (v: Vec<u8>)
    requires
        channels % 3 == 0,
        rgba@.len() == channels / 3 * 4,
        off + 8 * n <= channels,
        channels <= usize::MAX,
    ensures
        v@ == png_extract(rgba@, natural(channels as nat), off as int, n as nat),
{
    let ghost order = natural(channels as nat);
    proof {
        lemma_natural(channels as nat, channels as int);
    }
    let mut v: Vec<u8> = Vec::new();
    let mut k: usize = 0;
    while k < n
        invariant
            channels % 3 == 0,
            rgba@.len() == channels / 3 * 4,
            off + 8 * n <= channels,
            order == natural(channels as nat),
            forall|i: int| 0 <= i < channels ==> #[trigger] order[i] == i,
            k <= n,
            v@ == png_extract(rgba@, order, off as int, k as nat),
        decreases n - k,
    {
        let base = off + 8 * k;
        let b0 = raster_bit(rgba, base, channels);
        let b1 = raster_bit(rgba, base + 1, channels);
        let b2 = raster_bit(rgba, base + 2, channels);
        let b3 = raster_bit(rgba, base + 3, channels);
        let b4 = raster_bit(rgba, base + 4, channels);
        let b5 = raster_bit(rgba, base + 5, channels);
        let b6 = raster_bit(rgba, base + 6, channels);
        let b7 = raster_bit(rgba, base + 7, channels);
        let mut byte = (b0 << 1u8) | b1;
        byte = (byte << 1u8) | b2;
        byte = (byte << 1u8) | b3;
        byte = (byte << 1u8) | b4;
        byte = (byte << 1u8) | b5;
        byte = (byte << 1u8) | b6;
        byte = (byte << 1u8) | b7;
        let ghost f = |j: int| rgba@[channel_byte(order[off + 8 * k + j] as int)] & 1;
        assert(order[base as int] == base && order[base + 1] == base + 1 && order[base + 2] == base + 2);
        assert(order[base + 3] == base + 3 && order[base + 4] == base + 4 && order[base + 5] == base + 5);
        assert(order[base + 6] == base + 6 && order[base + 7] == base + 7);
        assert(f(0) == b0 && f(1) == b1 && f(2) == b2 && f(3) == b3);
        assert(f(4) == b4 && f(5) == b5 && f(6) == b6 && f(7) == b7);
        assert(byte == byte_from_bits(f));
        v.push(byte);
        k += 1;
        assert(v@ =~= png_extract(rgba@, order, off as int, k as nat));
    }
    v
}

impl PngCodec {
    /// Bytes the image can carry: one bit per colour channel.
    pub fn raw_capacity_bytes(&self, img: &PngImage) -> (res: Result<u64, CodecError>)
        ensures
            match res {
                Ok(n) => png_shape_ok(img@) && n == png_raw_capacity(img@),
                Err(e) => !png_shape_ok(img@) && fault_of(e) == CodecFault::Image,
            },
    {
        if !shape_ok(img) {
            return Err(CodecError::Image("pixel data does not match the image dimensions".to_string()));
        }
        let rlen = img.rgba.len();
        proof {
            lemma_shape(img@);
        }
        let channels = img.rgba.len() / 4 * 3;
        Ok((channels / 8) as u64)
    }

    /// Bytes of payload a framed chunk can carry behind its header.
    pub fn capacity_bytes(&self, img: &PngImage) -> (res: Result<u64, CodecError>)
        ensures
            match res {
                Ok(n) => png_shape_ok(img@) && n == sat_sub(
                    png_raw_capacity(img@),
                    CHUNK_HEADER_LEN as u64,
                ),
                Err(e) => !png_shape_ok(img@) && fault_of(e) == CodecFault::Image,
            },
    {
        let raw = self.raw_capacity_bytes(img)?;
        Ok(raw.saturating_sub(CHUNK_HEADER_LEN as u64))
    }

    /// Hides `payload` in the image as one chunk.
    pub fn write_chunk(&self, img: &mut PngImage, mode: ChunkWrite, payload: &[u8], order_key: &[u8]) -> (res:
        Result<(), CodecError>)
        ensures
            final(img).width == old(img).width,
            final(img).height == old(img).height,
            png_write_spec(old(img)@, mode, payload@, order_key@) == match res {
                Ok(_) => Ok(final(img).rgba@),
                Err(e) => Err(fault_of(e)),
            },
            res is Err ==> final(img).rgba@ == old(img).rgba@,
            old(img).rgba@.len() <= usize::MAX,
            res is Ok ==> (mode matches ChunkWrite::Markerless { chunk_index }
                ==> keyed_order_is_permutation(
                channel_count(old(img)@) as nat,
                order_key@,
                chunk_index,
            )),
    {
        let rlen = img.rgba.len();
        if !shape_ok(img) {
            return Err(CodecError::Image("pixel data does not match the image dimensions".to_string()));
        }
        proof {
            lemma_shape(img@);
        }
        let channels = img.rgba.len() / 4 * 3;
        let raw = (channels / 8) as u64;
        let len = payload.len();
        match mode {
            ChunkWrite::Framed(meta) => {
                if order_key.len() != 0 {
                    return Err(CodecError::InvalidMode("framed mode requires an empty order key".to_string()));
                }
                if len as u64 > u32::MAX as u64 || CHUNK_HEADER_LEN as u64 + len as u64 > raw {
                    return Err(
                        CodecError::PayloadTooLarge {
                            payload: len as u64,
                            capacity: raw.saturating_sub(CHUNK_HEADER_LEN as u64),
                        },
                    );
                }
                let header = encode_header(meta, len as u32);
                embed_bits_natural(&mut img.rgba, header.as_slice(), payload, channels);
                assert(header@ + payload@ == header_bytes(meta, len as u32) + payload@);
                Ok(())
            },
            ChunkWrite::Markerless { chunk_index } => {
                if len as u64 > raw {
                    return Err(CodecError::PayloadTooLarge { payload: len as u64, capacity: raw });
                }
                let positions = natural_positions(channels);
                let order = order_positions(positions, order_key, chunk_index)?;
                proof {
                    lemma_natural(channels as nat, channels as int);
                    lemma_reorder_keeps_items(natural(channels as nat), order@);
                    assert forall|t: int| 0 <= t < order@.len() implies #[trigger] order@[t]
                        < channels by {
                        assert(natural(channels as nat).contains(order@[t]));
                    }
                }
                let empty: Vec<u8> = Vec::new();
                embed_bits(&mut img.rgba, order.as_slice(), empty.as_slice(), payload, channels);
                assert(empty@ + payload@ =~= payload@);
                Ok(())
            },
        }
    }

    /// Reads the chunk hidden in the image.
    pub fn read_chunk(&self, img: &PngImage, mode: ChunkRead, order_key: &[u8]) -> (res: Result<
        (ChunkMeta, Vec<u8>),
        CodecError,
    >)
        ensures
            png_read_spec(img@, mode, order_key@) == match res {
                Ok((meta, bytes)) => Ok((meta, bytes@)),
                Err(e) => Err(fault_of(e)),
            },
    {
        if !shape_ok(img) {
            return Err(CodecError::Image("pixel data does not match the image dimensions".to_string()));
        }
        let rlen = img.rgba.len();
        proof {
            lemma_shape(img@);
        }
        let channels = img.rgba.len() / 4 * 3;
        let raw = (channels / 8) as u64;
        match mode {
            ChunkRead::Framed => {
                if order_key.len() != 0 {
                    return Err(CodecError::InvalidMode("framed mode requires an empty order key".to_string()));
                }
                if channels < 8 * CHUNK_HEADER_LEN {
                    return Err(CodecError::NotACarrier);
                }
                let header = extract_bits_natural(img.rgba.as_slice(), 0, CHUNK_HEADER_LEN, channels);
                let (meta, payload_len) = decode_header(header.as_slice())?;
                if payload_len as u64 > raw.saturating_sub(CHUNK_HEADER_LEN as u64) {
                    return Err(CodecError::NotACarrier);
                }
                let payload = extract_bits_natural(
                    img.rgba.as_slice(),
                    8 * CHUNK_HEADER_LEN,
                    payload_len as usize,
                    channels,
                );
                Ok((meta, payload))
            },
            ChunkRead::Markerless { chunk_index, payload_len } => {
                if payload_len as u64 > raw {
                    return Err(CodecError::NotACarrier);
                }
                let positions = natural_positions(channels);
                let order = order_positions(positions, order_key, chunk_index)?;
                proof {
                    lemma_natural(channels as nat, channels as int);
                    lemma_reorder_keeps_items(natural(channels as nat), order@);
                    assert forall|t: int| 0 <= t < order@.len() implies #[trigger] order@[t]
                        < channels by {
                        assert(natural(channels as nat).contains(order@[t]));
                    }
                }
                let payload = extract_bits(img.rgba.as_slice(), order.as_slice(), 0, payload_len, channels);
                Ok((ChunkMeta { chunk_index, flags: 0 }, payload))
            },
        }
    }

    /// Writes `bytes` at the front of the raster order, with no header.
    pub fn write_prefix(&self, img: &mut PngImage, bytes: &[u8]) -> (res: Result<(), CodecError>)
        ensures
            final(img).width == old(img).width,
            final(img).height == old(img).height,
            png_write_prefix_spec(old(img)@, bytes@) == match res {
                Ok(_) => Ok(final(img).rgba@),
                Err(e) => Err(fault_of(e)),
            },
            res is Err ==> final(img).rgba@ == old(img).rgba@,
    {
        if !shape_ok(img) {
            return Err(CodecError::Image("pixel data does not match the image dimensions".to_string()));
        }
        let rlen = img.rgba.len();
        proof {
            lemma_shape(img@);
        }
        let channels = img.rgba.len() / 4 * 3;
        let raw = (channels / 8) as u64;
        if bytes.len() as u64 > raw {
            return Err(CodecError::PayloadTooLarge { payload: bytes.len() as u64, capacity: raw });
        }
        let empty: Vec<u8> = Vec::new();
        embed_bits_natural(&mut img.rgba, empty.as_slice(), bytes, channels);
        assert(empty@ + bytes@ =~= bytes@);
        Ok(())
    }

    /// Reads `length` bytes from the front of the raster order.
    pub fn read_prefix(&self, img: &PngImage, length: usize) -> (res: Result<Vec<u8>, CodecError>)
        ensures
            png_read_prefix_spec(img@, length) == match res {
                Ok(bytes) => Ok(bytes@),
                Err(e) => Err(fault_of(e)),
            },
    {
        if !shape_ok(img) {
            return Err(CodecError::Image("pixel data does not match the image dimensions".to_string()));
        }
        let rlen = img.rgba.len();
        proof {
            lemma_shape(img@);
        }
        let channels = img.rgba.len() / 4 * 3;
        let raw = (channels / 8) as u64;
        if length as u64 > raw {
            return Err(CodecError::NotACarrier);
        }
        Ok(extract_bits_natural(img.rgba.as_slice(), 0, length, channels))
    }
}

/// A framed chunk reads back as the metadata and payload it was written
/// with.
pub proof fn lemma_png_framed_roundtrip(img: PngView, meta: ChunkMeta, payload: Seq<u8>)
    requires
        img.rgba.len() <= usize::MAX,
        png_write_spec(img, ChunkWrite::Framed(meta), payload, Seq::empty()) is Ok,
    ensures
        png_read_spec(
            PngView {
                rgba: png_write_spec(img, ChunkWrite::Framed(meta), payload, Seq::empty())->Ok_0,
                ..img
            },
            ChunkRead::Framed,
            Seq::empty(),
        ) == Ok::<(ChunkMeta, Seq<u8>), CodecFault>((meta, payload)),
{
    lemma_shape(img);
    let channels = channel_count(img);
    let data = header_bytes(meta, payload.len() as u32) + payload;
    let k = (8 * data.len()) as nat;
    let written = png_embed(img.rgba, natural(k), data, k);
    let after = PngView { rgba: written, ..img };
    lemma_header_len(meta, payload.len() as u32);
    lemma_natural(k, channels);
    lemma_png_embed_len(img.rgba, natural(k), data, k, channels);
    assert(png_shape_ok(after));
    lemma_shape(after);
    lemma_extract_prefix(written, natural(channels as nat), natural(k), 0, CHUNK_HEADER_LEN as nat);
    lemma_png_roundtrip(img.rgba, natural(k), data, 0, CHUNK_HEADER_LEN as nat, channels);
    assert(data.subrange(0, 16) =~= header_bytes(meta, payload.len() as u32));
    lemma_header_roundtrip(meta, payload.len() as u32);
    lemma_extract_prefix(written, natural(channels as nat), natural(k), 128, payload.len());
    lemma_png_roundtrip(img.rgba, natural(k), data, 128, payload.len(), channels);
    assert(data.subrange(16, 16 + payload.len() as int) =~= payload);
}

/// Bytes written at the front of the raster order read back unchanged.
pub proof fn lemma_png_prefix_roundtrip(img: PngView, bytes: Seq<u8>)
    requires
        img.rgba.len() <= usize::MAX,
        png_write_prefix_spec(img, bytes) is Ok,
    ensures
        png_read_prefix_spec(
            PngView { rgba: png_write_prefix_spec(img, bytes)->Ok_0, ..img },
            bytes.len() as usize,
        ) == Ok::<Seq<u8>, CodecFault>(bytes),
{
    lemma_shape(img);
    let channels = channel_count(img);
    let k = (8 * bytes.len()) as nat;
    let written = png_embed(img.rgba, natural(k), bytes, k);
    let after = PngView { rgba: written, ..img };
    lemma_natural(k, channels);
    lemma_png_embed_len(img.rgba, natural(k), bytes, k, channels);
    lemma_shape(after);
    lemma_extract_prefix(written, natural(channels as nat), natural(k), 0, bytes.len());
    lemma_png_roundtrip(img.rgba, natural(k), bytes, 0, bytes.len(), channels);
    assert(bytes.subrange(0, bytes.len() as int) =~= bytes);
}

/// A markerless chunk reads back, with the same key and chunk index and its
/// length, as the payload it was written with.
pub proof fn lemma_png_markerless_roundtrip(
    img: PngView,
    chunk_index: u32,
    payload: Seq<u8>,
    order_key: Seq<u8>,
)
    requires
        img.rgba.len() <= usize::MAX,
        png_write_spec(img, ChunkWrite::Markerless { chunk_index }, payload, order_key) is Ok,
        keyed_order_is_permutation(channel_count(img) as nat, order_key, chunk_index),
    ensures
        png_read_spec(
            PngView {
                rgba: png_write_spec(img, ChunkWrite::Markerless { chunk_index }, payload, order_key)->Ok_0,
                ..img
            },
            ChunkRead::Markerless { chunk_index, payload_len: payload.len() as usize },
            order_key,
        ) == Ok::<(ChunkMeta, Seq<u8>), CodecFault>((ChunkMeta { chunk_index, flags: 0 }, payload)),
{
    lemma_shape(img);
    let channels = channel_count(img);
    let order = order_spec(natural(channels as nat), order_key, chunk_index);
    lemma_natural(channels as nat, channels as int);
    lemma_keyed_order(channels as nat, order_key, chunk_index);
    let k = (8 * payload.len()) as nat;
    let written = png_embed(img.rgba, order, payload, k);
    let after = PngView { rgba: written, ..img };
    lemma_png_embed_len(img.rgba, order, payload, k, channels);
    lemma_shape(after);
    assert(order.take(k as int).no_duplicates());
    lemma_png_roundtrip(img.rgba, order, payload, 0, payload.len(), channels);
    assert(payload.subrange(0, payload.len() as int) =~= payload);
}

/// A write changes no more than the least significant bit of red, green
/// and blue channels: the upper seven bits of every byte and every alpha
/// byte stay as they were.
pub proof fn lemma_png_write_touches_only_low_bits(
    img: PngView,
    mode: ChunkWrite,
    payload: Seq<u8>,
    order_key: Seq<u8>,
)
    requires
        img.rgba.len() <= usize::MAX,
        png_write_spec(img, mode, payload, order_key) is Ok,
        mode matches ChunkWrite::Markerless { chunk_index } ==> keyed_order_is_permutation(
            channel_count(img) as nat,
            order_key,
            chunk_index,
        ),
    ensures
        ({
            let written = png_write_spec(img, mode, payload, order_key)->Ok_0;
            &&& written.len() == img.rgba.len()
            &&& forall|b: int| 0 <= b < written.len() ==> #[trigger] written[b] >> 1u8 == img.rgba[b] >> 1u8
            &&& forall|b: int| 0 <= b < written.len() && b % 4 == 3 ==> #[trigger] written[b] == img.rgba[b]
        }),
{
    lemma_shape(img);
    let channels = channel_count(img);
    match mode {
        ChunkWrite::Framed(meta) => {
            let data = header_bytes(meta, payload.len() as u32) + payload;
            let k = (8 * data.len()) as nat;
            lemma_header_len(meta, payload.len() as u32);
            lemma_natural(k, channels);
            lemma_png_embed(img.rgba, natural(k), data, k, channels);
        },
        ChunkWrite::Markerless { chunk_index } => {
            lemma_natural(channels as nat, channels as int);
            lemma_keyed_order(channels as nat, order_key, chunk_index);
            let order = order_spec(natural(channels as nat), order_key, chunk_index);
            lemma_png_embed(img.rgba, order, payload, (8 * payload.len()) as nat, channels);
        },
    }
}

} // verus!
