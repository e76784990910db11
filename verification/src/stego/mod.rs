//! Carrier codecs: hiding one opaque chunk in the low bits of an image.
//!
//! A chunk is written either framed, behind a plaintext header that names
//! its index, length and flags, or markerless, as bare bytes spread over the
//! usable positions in an order derived from a secret key.

pub mod bits;
pub mod jpeg;
pub mod png;

use crate::layout::{
    get16, get16_at, get32, get32_at, le16, le32, lemma_get16_at, lemma_get32_at,
    lemma_le_roundtrip, push16, push32,
};
use crate::primitives::{
    blake3_derive_key, blake3_derived_key, chacha20_shuffle, chacha20_shuffled, crc16_ibm_sdlc,
    crc16_ibm_sdlc_of,
};
use jpeg::{
    keyed_usable_order_is_permutation, lemma_jpeg_framed_roundtrip,
    lemma_jpeg_markerless_roundtrip, jpeg_raw_capacity, jpeg_read_prefix_spec, jpeg_read_spec, jpeg_write_prefix_spec,
    jpeg_write_spec, JpegCodec, JpegImage, JpegView,
};
use png::{
    channel_count, keyed_order_is_permutation, lemma_png_framed_roundtrip,
    lemma_png_markerless_roundtrip, png_raw_capacity, png_read_prefix_spec, png_read_spec, png_shape_ok, png_write_prefix_spec,
    png_write_spec, sat_sub, PngCodec, PngImage, PngView,
};
use vstd::prelude::*;
use vstd::string::StringSliceAdditionalSpecFns;

verus! {

/// "ALBM", the first four header bytes of a framed chunk.
pub const CHUNK_MAGIC: u32 = 0x414C_424D;

/// Length of the header in front of a framed chunk.
pub const CHUNK_HEADER_LEN: usize = 16;

#[derive(Debug)]
pub enum CodecError {
    Image(String),
    Io(String),
    PayloadTooLarge { payload: u64, capacity: u64 },
    NotACarrier,
    HeaderCrc,
    Jpeg(String),
    InvalidMode(String),
}

/// What a codec error means, without the text of its message.
pub enum CodecFault {
    Image,
    Io,
    PayloadTooLarge { payload: u64, capacity: u64 },
    NotACarrier,
    HeaderCrc,
    Jpeg,
    InvalidMode,
}

pub open spec fn fault_of(e: CodecError) -> CodecFault {
    match e {
        CodecError::Image(_) => CodecFault::Image,
        CodecError::Io(_) => CodecFault::Io,
        CodecError::PayloadTooLarge { payload, capacity } => CodecFault::PayloadTooLarge {
            payload,
            capacity,
        },
        CodecError::NotACarrier => CodecFault::NotACarrier,
        CodecError::HeaderCrc => CodecFault::HeaderCrc,
        CodecError::Jpeg(_) => CodecFault::Jpeg,
        CodecError::InvalidMode(_) => CodecFault::InvalidMode,
    }
}

#[derive(Debug, Clone, Copy, PartialEq, Eq, Structural)]
pub enum ImageKind {
    Png,
    Jpeg,
}

/// Index of the last occurrence of `c` in `s`, or -1.
pub open spec fn last_index_of(s: Seq<u8>, c: u8) -> int
    decreases s.len(),
{
    if s.len() == 0 {
        -1
    } else if s.last() == c {
        s.len() - 1
    } else {
        last_index_of(s.drop_last(), c)
    }
}

proof fn lemma_last_index_bounds(s: Seq<u8>, c: u8)
    ensures
        -1 <= last_index_of(s, c) < s.len(),
        last_index_of(s, c) >= 0 ==> s[last_index_of(s, c)] == c,
    decreases s.len(),
{
    if s.len() > 0 && s.last() != c {
        lemma_last_index_bounds(s.drop_last(), c);
    }
}

/// `s` without the slashes and the `.` components at its end, which name no
/// file of their own.
pub open spec fn trim_slashes(s: Seq<u8>) -> Seq<u8>
    decreases s.len(),
{
    if s.len() > 0 && s.last() == 0x2fu8 {
        trim_slashes(s.drop_last())
    } else if s.len() >= 2 && s.last() == 0x2eu8 && s[s.len() - 2] == 0x2fu8 {
        trim_slashes(s.drop_last())
    } else {
        s
    }
}

/// The last component of a slash-separated path.
pub open spec fn file_name_of(path: Seq<u8>) -> Seq<u8> {
    let t = trim_slashes(path);
    t.subrange(last_index_of(t, 0x2fu8) + 1, t.len() as int)
}

/// What follows the last dot of a file name, where that dot is not its first
/// character.
pub open spec fn extension_of(name: Seq<u8>) -> Option<Seq<u8>> {
    let d = last_index_of(name, 0x2eu8);
    if d <= 0 {
        None
    } else {
        Some(name.subrange(d + 1, name.len() as int))
    }
}

pub open spec fn ascii_lower(b: u8) -> u8 {
    if 0x41 <= b <= 0x5a {
        (b + 0x20) as u8
    } else {
        b
    }
}

/// `s` equals the lower-case ASCII word `word`, ignoring ASCII case.
pub open spec fn eq_ignore_case(s: Seq<u8>, word: Seq<u8>) -> bool {
    s.len() == word.len() && forall|i: int| 0 <= i < s.len() ==> ascii_lower(#[trigger] s[i]) == word[i]
}

/// The image kind a path names by its extension: `png`, or `jpg` / `jpeg`,
/// in any case.
pub open spec fn kind_of_path(path: Seq<u8>) -> Option<ImageKind> {
    match extension_of(file_name_of(path)) {
        Some(ext) => if eq_ignore_case(ext, seq![0x70u8, 0x6eu8, 0x67u8]) {
            Some(ImageKind::Png)
        } else if eq_ignore_case(ext, seq![0x6au8, 0x70u8, 0x67u8]) || eq_ignore_case(
            ext,
            seq![0x6au8, 0x70u8, 0x65u8, 0x67u8],
        ) {
            Some(ImageKind::Jpeg)
        } else {
            None
        },
        None => None,
    }
}

/// One more than the index of the last `c` in `s[start..end]`, counted from
/// `start`; 0 where there is none.
fn last_index_in(s: &[u8], start: usize, end: usize, c: u8) -> (r: usize)
    requires
        start <= end <= s@.len(),
    ensures
        r == last_index_of(s@.subrange(start as int, end as int), c) + 1,
{
    let mut i = end;
    while i > start
        invariant
            start <= i <= end <= s@.len(),
            last_index_of(s@.subrange(start as int, end as int), c) == last_index_of(
                s@.subrange(start as int, i as int),
                c,
            ),
        decreases i,
    {
        assert(s@.subrange(start as int, i as int).drop_last() =~= s@.subrange(
            start as int,
            i - 1,
        ));
        if s[i - 1] == c {
            return i - start;
        }
        i -= 1;
    }
    0
}

fn word_matches(s: &[u8], start: usize, end: usize, word: &[u8]) -> (r: bool)
    requires
        start <= end <= s@.len(),
    ensures
        r == eq_ignore_case(s@.subrange(start as int, end as int), word@),
{
    if end - start != word.len() {
        return false;
    }
    let mut i: usize = 0;
    while i < word.len()
        invariant
            end - start == word@.len(),
            start <= end <= s@.len(),
            i <= word@.len(),
            forall|j: int| 0 <= j < i ==> ascii_lower(s@[start + j]) == word@[j],
        decreases word@.len() - i,
    {
        let b = s[start + i];
        let lower = if 0x41 <= b && b <= 0x5a {
            b + 0x20
        } else {
            b
        };
        if lower != word[i] {
            assert(ascii_lower(s@.subrange(start as int, end as int)[i as int]) != word@[i as int]);
            return false;
        }
        i += 1;
    }
    assert forall|j: int| 0 <= j < end - start implies ascii_lower(
        #[trigger] s@.subrange(start as int, end as int)[j],
    ) == word@[j] by {
        assert(s@.subrange(start as int, end as int)[j] == s@[start + j]);
    }
    true
}

/// `s` with every ASCII capital letter made small.
pub open spec fn lower_bytes(s: Seq<u8>) -> Seq<u8> {
    Seq::new(s.len(), |i: int| ascii_lower(s[i]))
}

proof fn lemma_lower_keeps_marks(b: u8)
    ensures
        ascii_lower(b) == 0x2fu8 <==> b == 0x2fu8,
        ascii_lower(b) == 0x2eu8 <==> b == 0x2eu8,
        ascii_lower(ascii_lower(b)) == ascii_lower(b),
{
}

proof fn lemma_lower_drop_last(s: Seq<u8>)
    requires
        s.len() > 0,
    ensures
        lower_bytes(s).drop_last() == lower_bytes(s.drop_last()),
        lower_bytes(s).last() == ascii_lower(s.last()),
{
    assert(lower_bytes(s).drop_last() =~= lower_bytes(s.drop_last()));
}

proof fn lemma_lower_trim(s: Seq<u8>)
    ensures
        trim_slashes(lower_bytes(s)) == lower_bytes(trim_slashes(s)),
    decreases s.len(),
{
    let l = lower_bytes(s);
    if s.len() > 0 {
        lemma_lower_drop_last(s);
        lemma_lower_keeps_marks(s.last());
        if s.len() >= 2 {
            lemma_lower_keeps_marks(s[s.len() - 2]);
            assert(l[l.len() - 2] == ascii_lower(s[s.len() - 2]));
        }
        if s.last() == 0x2fu8 || (s.len() >= 2 && s.last() == 0x2eu8 && s[s.len() - 2] == 0x2fu8) {
            lemma_lower_trim(s.drop_last());
        }
    }
}

proof fn lemma_lower_last_index(s: Seq<u8>, c: u8)
    requires
        c == 0x2fu8 || c == 0x2eu8,
    ensures
        last_index_of(lower_bytes(s), c) == last_index_of(s, c),
    decreases s.len(),
{
    if s.len() > 0 {
        lemma_lower_drop_last(s);
        lemma_lower_keeps_marks(s.last());
        lemma_lower_last_index(s.drop_last(), c);
    }
}

proof fn lemma_lower_subrange(s: Seq<u8>, a: int, b: int)
    requires
        0 <= a <= b <= s.len(),
    ensures
        lower_bytes(s).subrange(a, b) == lower_bytes(s.subrange(a, b)),
{
    assert(lower_bytes(s).subrange(a, b) =~= lower_bytes(s.subrange(a, b)));
}

/// Whether a path names a PNG or a JPEG carrier does not depend on the case
/// of its letters: `photo.JPG`, `photo.Jpg` and `photo.jpg` all name a JPEG.
pub proof fn lemma_kind_ignores_case(path: Seq<u8>)
    ensures
        kind_of_path(lower_bytes(path)) == kind_of_path(path),
{
    let t = trim_slashes(path);
    lemma_lower_trim(path);
    let lt = lower_bytes(t);
    lemma_lower_last_index(t, 0x2fu8);
    lemma_last_index_bounds(t, 0x2fu8);
    let k = last_index_of(t, 0x2fu8) + 1;
    let name = t.subrange(k, t.len() as int);
    lemma_lower_subrange(t, k, t.len() as int);
    assert(file_name_of(lower_bytes(path)) == lower_bytes(name));
    lemma_lower_last_index(name, 0x2eu8);
    lemma_last_index_bounds(name, 0x2eu8);
    let d = last_index_of(name, 0x2eu8);
    if d > 0 {
        let ext = name.subrange(d + 1, name.len() as int);
        lemma_lower_subrange(name, d + 1, name.len() as int);
        let le = lower_bytes(ext);
        assert(extension_of(lower_bytes(name)) == Some(le));
        assert forall|w: Seq<u8>| eq_ignore_case(le, w) == eq_ignore_case(ext, w) by {
            if eq_ignore_case(le, w) {
                assert forall|i: int| 0 <= i < ext.len() implies ascii_lower(#[trigger] ext[i]) == w[i] by {
                    lemma_lower_keeps_marks(ext[i]);
                    assert(ascii_lower(le[i]) == w[i]);
                }
            }
            if eq_ignore_case(ext, w) {
                assert forall|i: int| 0 <= i < le.len() implies ascii_lower(#[trigger] le[i]) == w[i] by {
                    lemma_lower_keeps_marks(ext[i]);
                    assert(ascii_lower(ext[i]) == w[i]);
                }
            }
        }
    }
}

/// A trailing `c` sits last in `a + [c] + t` where `t` holds no `c`; a
/// tail without `c` leaves the last `c` where it was.
proof fn lemma_last_index_tail(a: Seq<u8>, t: Seq<u8>, c: u8)
    requires
        forall|i: int| 0 <= i < t.len() ==> t[i] != c,
    ensures
        last_index_of(a + t, c) == last_index_of(a, c),
    decreases t.len(),
{
    if t.len() > 0 {
        assert((a + t).drop_last() =~= a + t.drop_last());
        lemma_last_index_tail(a, t.drop_last(), c);
    } else {
        assert(a + t =~= a);
    }
}

/// A file named `stem.png`, `stem.jpg` or `stem.jpeg`, in any folder, is a
/// carrier of that kind, for every stem without slashes or dots.
pub proof fn lemma_kind_of_named_file(folder: Seq<u8>, stem: Seq<u8>)
    requires
        folder.len() == 0 || folder.last() == 0x2fu8,
        stem.len() > 0,
        forall|i: int| 0 <= i < stem.len() ==> stem[i] != 0x2fu8 && stem[i] != 0x2eu8,
    ensures
        kind_of_path(folder + stem + seq![0x2eu8, 0x70u8, 0x6eu8, 0x67u8]) == Some(ImageKind::Png),
        kind_of_path(folder + stem + seq![0x2eu8, 0x6au8, 0x70u8, 0x67u8]) == Some(ImageKind::Jpeg),
        kind_of_path(folder + stem + seq![0x2eu8, 0x6au8, 0x70u8, 0x65u8, 0x67u8]) == Some(ImageKind::Jpeg),
{
    assert(folder + stem + seq![0x2eu8, 0x70u8, 0x6eu8, 0x67u8] =~= folder + stem + seq![0x2eu8] + seq![
        0x70u8,
        0x6eu8,
        0x67u8,
    ]);
    assert(folder + stem + seq![0x2eu8, 0x6au8, 0x70u8, 0x67u8] =~= folder + stem + seq![0x2eu8] + seq![
        0x6au8,
        0x70u8,
        0x67u8,
    ]);
    assert(folder + stem + seq![0x2eu8, 0x6au8, 0x70u8, 0x65u8, 0x67u8] =~= folder + stem + seq![0x2eu8] + seq![
        0x6au8,
        0x70u8,
        0x65u8,
        0x67u8,
    ]);
    lemma_kind_of_extension(folder, stem, seq![0x70u8, 0x6eu8, 0x67u8]);
    lemma_kind_of_extension(folder, stem, seq![0x6au8, 0x70u8, 0x67u8]);
    lemma_kind_of_extension(folder, stem, seq![0x6au8, 0x70u8, 0x65u8, 0x67u8]);
    assert(!eq_ignore_case(seq![0x6au8, 0x70u8, 0x67u8], seq![0x70u8, 0x6eu8, 0x67u8])) by {
        assert(ascii_lower(seq![0x6au8, 0x70u8, 0x67u8][0]) != seq![0x70u8, 0x6eu8, 0x67u8][0]);
    }
    assert(eq_ignore_case(seq![0x70u8, 0x6eu8, 0x67u8], seq![0x70u8, 0x6eu8, 0x67u8]));
    assert(eq_ignore_case(seq![0x6au8, 0x70u8, 0x67u8], seq![0x6au8, 0x70u8, 0x67u8]));
    assert(eq_ignore_case(seq![0x6au8, 0x70u8, 0x65u8, 0x67u8], seq![0x6au8, 0x70u8, 0x65u8, 0x67u8]));
}

/// A file named `stem.ext`, in any folder, is a PNG carrier exactly where
/// `ext` is `png` and a JPEG carrier exactly where it is `jpg` or `jpeg`, in
/// any mix of case; any other extension names no carrier.
pub proof fn lemma_kind_of_extension(folder: Seq<u8>, stem: Seq<u8>, ext: Seq<u8>)
    requires
        folder.len() == 0 || folder.last() == 0x2fu8,
        stem.len() > 0,
        forall|i: int| 0 <= i < stem.len() ==> stem[i] != 0x2fu8 && stem[i] != 0x2eu8,
        ext.len() > 0,
        forall|i: int| 0 <= i < ext.len() ==> #[trigger] ext[i] != 0x2fu8 && ext[i] != 0x2eu8,
    ensures
        kind_of_path(folder + stem + seq![0x2eu8] + ext) == (if eq_ignore_case(ext, seq![0x70u8, 0x6eu8, 0x67u8]) {
            Some(ImageKind::Png)
        } else if eq_ignore_case(ext, seq![0x6au8, 0x70u8, 0x67u8]) || eq_ignore_case(
            ext,
            seq![0x6au8, 0x70u8, 0x65u8, 0x67u8],
        ) {
            Some(ImageKind::Jpeg)
        } else {
            None
        }),
{
    lemma_named_file_ext(folder, stem, ext);
}

/// The extension of `folder + stem + "." + ext` is `ext`, for an extension
/// without slashes or dots.
proof fn lemma_named_file_ext(folder: Seq<u8>, stem: Seq<u8>, ext: Seq<u8>)
    requires
        folder.len() == 0 || folder.last() == 0x2fu8,
        stem.len() > 0,
        forall|i: int| 0 <= i < stem.len() ==> stem[i] != 0x2fu8 && stem[i] != 0x2eu8,
        ext.len() > 0,
        forall|i: int| 0 <= i < ext.len() ==> #[trigger] ext[i] != 0x2fu8 && ext[i] != 0x2eu8,
    ensures
        extension_of(file_name_of(folder + stem + (seq![0x2eu8] + ext))) == Some(ext),
        folder + stem + (seq![0x2eu8] + ext) == folder + stem + seq![0x2eu8] + ext,
{
    let tail = seq![0x2eu8] + ext;
    let p = folder + stem + tail;
    assert(folder + stem + tail =~= folder + stem + seq![0x2eu8] + ext);
    assert(p.last() == ext.last());
    assert(trim_slashes(p) == p);
    let st = stem + tail;
    assert forall|i: int| 0 <= i < st.len() implies st[i] != 0x2fu8 by {
        if i >= stem.len() + 1 {
            assert(st[i] == ext[i - stem.len() - 1]);
        }
    }
    assert(p =~= folder + st);
    lemma_last_index_tail(folder, st, 0x2fu8);
    lemma_last_index_bounds(folder, 0x2fu8);
    if folder.len() > 0 {
        assert(last_index_of(folder, 0x2fu8) == folder.len() - 1);
    }
    assert(last_index_of(folder, 0x2fu8) + 1 == folder.len());
    assert(file_name_of(p) =~= st);
    assert forall|i: int| 0 <= i < ext.len() implies ext[i] != 0x2eu8 by {}
    lemma_last_index_tail(stem + seq![0x2eu8], ext, 0x2eu8);
    assert(st =~= stem + seq![0x2eu8] + ext);
    assert(last_index_of(stem + seq![0x2eu8], 0x2eu8) == stem.len());
    assert(st.subrange(stem.len() + 1int, st.len() as int) =~= ext);
}

/// The image kind a path names by its extension.
pub fn kind_for(path: &str) -> (kind: Option<ImageKind>)
    ensures
        kind == kind_of_path(path.spec_bytes()),
{
    let s = path.as_bytes();
    let ghost p = s@;
    let mut end = s.len();
    assert(p.subrange(0, end as int) =~= p);
    while end > 0 && (s[end - 1] == 0x2f || (end >= 2 && s[end - 1] == 0x2e && s[end - 2] == 0x2f))
        invariant
            end <= p.len(),
            s@ == p,
            trim_slashes(p) == trim_slashes(p.subrange(0, end as int)),
        decreases end,
    {
        assert(p.subrange(0, end as int).drop_last() =~= p.subrange(0, end - 1));
        end -= 1;
    }
    proof {
        let t = p.subrange(0, end as int);
        assert(!(t.len() > 0 && t.last() == 0x2fu8));
        assert(!(t.len() >= 2 && t.last() == 0x2eu8 && t[t.len() - 2] == 0x2fu8));
        assert(trim_slashes(t) == t);
    }
    let ghost t = p.subrange(0, end as int);
    let slash = last_index_in(s, 0, end, 0x2f);
    proof {
        lemma_last_index_bounds(t, 0x2fu8);
    }
    assert(p.subrange(0, end as int) =~= t);
    let ghost name = t.subrange(slash as int, t.len() as int);
    assert(file_name_of(p) == name);
    assert(s@.subrange(slash as int, end as int) =~= name);
    let dot = last_index_in(s, slash, end, 0x2e);
    proof {
        lemma_last_index_bounds(name, 0x2eu8);
    }
    if dot <= 1 {
        return None;
    }
    let ext_start = slash + dot;
    assert(name.subrange(dot as int, name.len() as int) =~= s@.subrange(ext_start as int, end as int));
    let png: [u8; 3] = [0x70, 0x6e, 0x67];
    let jpg: [u8; 3] = [0x6a, 0x70, 0x67];
    let jpeg: [u8; 4] = [0x6a, 0x70, 0x65, 0x67];
    assert(png@ =~= seq![0x70u8, 0x6eu8, 0x67u8]);
    assert(jpg@ =~= seq![0x6au8, 0x70u8, 0x67u8]);
    assert(jpeg@ =~= seq![0x6au8, 0x70u8, 0x65u8, 0x67u8]);
    if word_matches(s, ext_start, end, png.as_slice()) {
        Some(ImageKind::Png)
    } else if word_matches(s, ext_start, end, jpg.as_slice()) || word_matches(
        s,
        ext_start,
        end,
        jpeg.as_slice(),
    ) {
        Some(ImageKind::Jpeg)
    } else {
        None
    }
}

#[derive(Debug, Clone, Copy, PartialEq, Eq, Structural)]
pub struct ChunkMeta {
    pub chunk_index: u32,
    pub flags: u16,
}

#[derive(Debug, Clone, Copy, PartialEq, Eq, Structural)]
pub enum ChunkWrite {
    Framed(ChunkMeta),
    Markerless { chunk_index: u32 },
}

#[derive(Debug, Clone, Copy, PartialEq, Eq, Structural)]
pub enum ChunkRead {
    Framed,
    Markerless { chunk_index: u32, payload_len: usize },
}

/// The first fourteen header bytes: magic, chunk index, chunk length and
/// flags, little-endian.
pub open spec fn header_body(meta: ChunkMeta, chunk_len: u32) -> Seq<u8> {
    le32(CHUNK_MAGIC) + le32(meta.chunk_index) + le32(chunk_len) + le16(meta.flags)
}

/// The full header: the body and its CRC-16/IBM-SDLC.
pub open spec fn header_bytes(meta: ChunkMeta, chunk_len: u32) -> Seq<u8> {
    header_body(meta, chunk_len) + le16(crc16_ibm_sdlc_of(header_body(meta, chunk_len)))
}

/// What decoding a header gives: the chunk's metadata and length, or why
/// the bytes are not a header.
pub open spec fn decode_header_spec(h: Seq<u8>) -> Result<(ChunkMeta, u32), CodecFault> {
    if h.len() < CHUNK_HEADER_LEN {
        Err(CodecFault::NotACarrier)
    } else if get32(h, 0) != CHUNK_MAGIC {
        Err(CodecFault::NotACarrier)
    } else if crc16_ibm_sdlc_of(h.subrange(0, 14)) != get16(h, 14) {
        Err(CodecFault::HeaderCrc)
    } else {
        Ok((ChunkMeta { chunk_index: get32(h, 4), flags: get16(h, 12) }, get32(h, 8)))
    }
}

pub fn encode_header(meta: ChunkMeta, chunk_len: u32) -> (h: Vec<u8>)
    ensures
        h@ == header_bytes(meta, chunk_len),
        h@.len() == CHUNK_HEADER_LEN,
{
    proof {
        lemma_le_roundtrip();
    }
    let mut h: Vec<u8> = Vec::new();
    push32(&mut h, CHUNK_MAGIC);
    push32(&mut h, meta.chunk_index);
    push32(&mut h, chunk_len);
    push16(&mut h, meta.flags);
    assert(h@ =~= header_body(meta, chunk_len));
    let crc = crc16_ibm_sdlc(h.as_slice());
    push16(&mut h, crc);
    h
}

pub fn decode_header(h: &[u8]) -> (res: Result<(ChunkMeta, u32), CodecError>)
    ensures
        decode_header_spec(h@) == match res {
            Ok(v) => Ok(v),
            Err(e) => Err(fault_of(e)),
        },
{
    if h.len() < CHUNK_HEADER_LEN {
        return Err(CodecError::NotACarrier);
    }
    let magic = get32_at(h, 0);
    if magic != CHUNK_MAGIC {
        return Err(CodecError::NotACarrier);
    }
    let stored = get16_at(h, 14);
    let body = vstd::slice::slice_subrange(h, 0, 14);
    if crc16_ibm_sdlc(body) != stored {
        return Err(CodecError::HeaderCrc);
    }
    let chunk_index = get32_at(h, 4);
    let chunk_len = get32_at(h, 8);
    let flags = get16_at(h, 12);
    Ok((ChunkMeta { chunk_index, flags }, chunk_len))
}

/// Every chunk header has the header length.
pub proof fn lemma_header_len(meta: ChunkMeta, chunk_len: u32)
    ensures
        header_bytes(meta, chunk_len).len() == CHUNK_HEADER_LEN,
{
    lemma_le_roundtrip();
}

/// A header decodes to the metadata and length it was encoded from.
pub proof fn lemma_header_roundtrip(meta: ChunkMeta, chunk_len: u32)
    ensures
        decode_header_spec(header_bytes(meta, chunk_len)) == Ok::<(ChunkMeta, u32), CodecFault>(
            (meta, chunk_len),
        ),
{
    lemma_le_roundtrip();
    let h = header_bytes(meta, chunk_len);
    let body = header_body(meta, chunk_len);
    let crc = crc16_ibm_sdlc_of(body);
    assert(h.subrange(0, 14) =~= body);
    lemma_get32_at(Seq::empty(), CHUNK_MAGIC, h.subrange(4, 16));
    assert(Seq::<u8>::empty() + le32(CHUNK_MAGIC) + h.subrange(4, 16) =~= h);
    lemma_get32_at(le32(CHUNK_MAGIC), meta.chunk_index, h.subrange(8, 16));
    assert(le32(CHUNK_MAGIC) + le32(meta.chunk_index) + h.subrange(8, 16) =~= h);
    lemma_get32_at(h.subrange(0, 8), chunk_len, h.subrange(12, 16));
    assert(h.subrange(0, 8) + le32(chunk_len) + h.subrange(12, 16) =~= h);
    lemma_get16_at(h.subrange(0, 12), meta.flags, h.subrange(14, 16));
    assert(h.subrange(0, 12) + le16(meta.flags) + h.subrange(14, 16) =~= h);
    lemma_get16_at(body, crc, Seq::empty());
    assert(body + le16(crc) + Seq::<u8>::empty() =~= h);
}

/// Positions `0 .. n` in their natural order.
pub open spec fn natural(n: nat) -> Seq<usize> {
    Seq::new(n, |i: int| i as usize)
}

pub fn natural_positions(n: usize) -> (v: Vec<usize>)
    ensures
        v@ == natural(n as nat),
{
    let mut v: Vec<usize> = Vec::new();
    let mut i: usize = 0;
    while i < n
        invariant
            i <= n,
            v@ == natural(i as nat),
        decreases n - i,
    {
        v.push(i);
        i += 1;
        assert(v@ =~= natural(i as nat));
    }
    v
}

/// The key material for one chunk's order: the order key and the chunk
/// index, little-endian.
pub open spec fn order_material(order_key: Seq<u8>, chunk_index: u32) -> Seq<u8> {
    order_key + le32(chunk_index)
}

/// The keyed order of `positions` for one chunk: a ChaCha20-driven shuffle
/// seeded by BLAKE3 from the key and the chunk index.
pub open spec fn order_spec(positions: Seq<usize>, order_key: Seq<u8>, chunk_index: u32) -> Seq<usize> {
    chacha20_shuffled(
        positions,
        blake3_derived_key("albumfs carrier order v1"@, order_material(order_key, chunk_index)),
    )
}

/// Shuffles `positions` into the order that `order_key` and `chunk_index`
/// select. The key must be 32 bytes long.
pub fn order_positions(positions: Vec<usize>, order_key: &[u8], chunk_index: u32) -> (res: Result<
    Vec<usize>,
    CodecError,
>)
    ensures
        order_key@.len() != 32 ==> res matches Err(CodecError::InvalidMode(_)),
        order_key@.len() == 32 ==> res is Ok,
        res matches Ok(v) ==> v@ == order_spec(positions@, order_key@, chunk_index)
            && v@.to_multiset() == positions@.to_multiset(),
{
    if order_key.len() != 32 {
        return Err(CodecError::InvalidMode("markerless mode requires a 32-byte order key".to_string()));
    }
    let mut material: Vec<u8> = vstd::slice::slice_to_vec(order_key);
    push32(&mut material, chunk_index);
    let seed = blake3_derive_key("albumfs carrier order v1", material.as_slice());
    let shuffled = chacha20_shuffle(positions, seed.as_slice());
    Ok(shuffled)
}

/// A reordering of a sequence without repeats has no repeats and holds the
/// same items.
pub proof fn lemma_reorder_keeps_items(a: Seq<usize>, b: Seq<usize>)
    requires
        a.no_duplicates(),
        b.to_multiset() == a.to_multiset(),
    ensures
        b.no_duplicates(),
        b.len() == a.len(),
        forall|i: int| 0 <= i < b.len() ==> a.contains(#[trigger] b[i]),
{
    broadcast use vstd::seq_lib::group_to_multiset_ensures;
    a.lemma_multiset_has_no_duplicates();
    b.lemma_multiset_has_no_duplicates_conv();
    assert(a.to_multiset().len() == a.len());
    assert(b.to_multiset().len() == b.len());
    assert forall|i: int| 0 <= i < b.len() implies a.contains(#[trigger] b[i]) by {
        assert(b.contains(b[i]));
        assert(b.to_multiset().count(b[i]) > 0);
    }
}


/// A decoded carrier image of either kind.
#[derive(Debug, Clone)]
pub enum CarrierImage {
    Png(PngImage),
    Jpeg(JpegImage),
}

/// What a carrier image holds, as mathematical values.
pub enum CarrierView {
    Png(PngView),
    Jpeg(JpegView),
}

impl View for CarrierImage {
    type V = CarrierView;

    open spec fn view(&self) -> CarrierView {
        match self {
            CarrierImage::Png(p) => CarrierView::Png(p@),
            CarrierImage::Jpeg(j) => CarrierView::Jpeg(j@),
        }
    }
}

/// The codec a carrier's file name selects.
pub enum Codec {
    Png(PngCodec),
    Jpeg(JpegCodec),
}

pub open spec fn codec_kind(codec: Codec) -> ImageKind {
    match codec {
        Codec::Png(_) => ImageKind::Png,
        Codec::Jpeg(_) => ImageKind::Jpeg,
    }
}

/// Bytes an image of the given kind can carry; an image of the other kind
/// is refused.
pub open spec fn carrier_raw_capacity(kind: ImageKind, img: CarrierView) -> Result<u64, CodecFault> {
    match (kind, img) {
        (ImageKind::Png, CarrierView::Png(p)) => if png_shape_ok(p) {
            Ok(png_raw_capacity(p))
        } else {
            Err(CodecFault::Image)
        },
        (ImageKind::Jpeg, CarrierView::Jpeg(j)) => Ok(jpeg_raw_capacity(j.coefficients)),
        _ => Err(CodecFault::Image),
    }
}

pub open spec fn carrier_capacity(kind: ImageKind, img: CarrierView) -> Result<u64, CodecFault> {
    match carrier_raw_capacity(kind, img) {
        Ok(raw) => Ok(sat_sub(raw, CHUNK_HEADER_LEN as u64)),
        Err(f) => Err(f),
    }
}

pub open spec fn carrier_write_spec(
    kind: ImageKind,
    img: CarrierView,
    mode: ChunkWrite,
    payload: Seq<u8>,
    order_key: Seq<u8>,
) -> Result<CarrierView, CodecFault> {
    match (kind, img) {
        (ImageKind::Png, CarrierView::Png(p)) => match png_write_spec(p, mode, payload, order_key) {
            Ok(rgba) => Ok(CarrierView::Png(PngView { rgba, ..p })),
            Err(f) => Err(f),
        },
        (ImageKind::Jpeg, CarrierView::Jpeg(j)) => match jpeg_write_spec(
            j,
            mode,
            payload,
            order_key,
        ) {
            Ok(c) => Ok(CarrierView::Jpeg(JpegView { coefficients: c, ..j })),
            Err(f) => Err(f),
        },
        _ => Err(CodecFault::Image),
    }
}

pub open spec fn carrier_read_spec(
    kind: ImageKind,
    img: CarrierView,
    mode: ChunkRead,
    order_key: Seq<u8>,
) -> Result<(ChunkMeta, Seq<u8>), CodecFault> {
    match (kind, img) {
        (ImageKind::Png, CarrierView::Png(p)) => png_read_spec(p, mode, order_key),
        (ImageKind::Jpeg, CarrierView::Jpeg(j)) => jpeg_read_spec(j, mode, order_key),
        _ => Err(CodecFault::Image),
    }
}

pub open spec fn carrier_write_prefix_spec(kind: ImageKind, img: CarrierView, bytes: Seq<u8>) -> Result<
    CarrierView,
    CodecFault,
> {
    match (kind, img) {
        (ImageKind::Png, CarrierView::Png(p)) => match png_write_prefix_spec(p, bytes) {
            Ok(rgba) => Ok(CarrierView::Png(PngView { rgba, ..p })),
            Err(f) => Err(f),
        },
        (ImageKind::Jpeg, CarrierView::Jpeg(j)) => match jpeg_write_prefix_spec(j, bytes) {
            Ok(c) => Ok(CarrierView::Jpeg(JpegView { coefficients: c, ..j })),
            Err(f) => Err(f),
        },
        _ => Err(CodecFault::Image),
    }
}

pub open spec fn carrier_read_prefix_spec(kind: ImageKind, img: CarrierView, length: usize) -> Result<
    Seq<u8>,
    CodecFault,
> {
    match (kind, img) {
        (ImageKind::Png, CarrierView::Png(p)) => png_read_prefix_spec(p, length),
        (ImageKind::Jpeg, CarrierView::Jpeg(j)) => jpeg_read_prefix_spec(j, length),
        _ => Err(CodecFault::Image),
    }
}

/// The image's pixel or coefficient data fits in memory, as that of any
/// decoded image does.
pub open spec fn carrier_bounded(img: CarrierView) -> bool {
    match img {
        CarrierView::Png(p) => p.rgba.len() <= usize::MAX,
        CarrierView::Jpeg(j) => j.coefficients.len() <= usize::MAX,
    }
}

/// The keyed order of the image's positions for `order_key` and
/// `chunk_index` holds every position once, as the shuffle promises.
pub open spec fn carrier_keyed_ok(img: CarrierView, order_key: Seq<u8>, chunk_index: u32) -> bool {
    match img {
        CarrierView::Png(p) => keyed_order_is_permutation(
            channel_count(p) as nat,
            order_key,
            chunk_index,
        ),
        CarrierView::Jpeg(j) => keyed_usable_order_is_permutation(j.coefficients, order_key, chunk_index),
    }
}

/// The read that finds again what a write wrote: framed, or markerless with
/// the chunk index and the payload's length.
pub open spec fn read_back_mode(mode: ChunkWrite, len: nat) -> ChunkRead {
    match mode {
        ChunkWrite::Framed(_) => ChunkRead::Framed,
        ChunkWrite::Markerless { chunk_index } => ChunkRead::Markerless {
            chunk_index,
            payload_len: len as usize,
        },
    }
}

/// The metadata that read gives back.
pub open spec fn read_back_meta(mode: ChunkWrite) -> ChunkMeta {
    match mode {
        ChunkWrite::Framed(meta) => meta,
        ChunkWrite::Markerless { chunk_index } => ChunkMeta { chunk_index, flags: 0 },
    }
}

/// A chunk written into a carrier reads back, with the same key, as the
/// metadata and payload it was written with.
pub proof fn lemma_carrier_chunk_roundtrip(
    kind: ImageKind,
    img: CarrierView,
    mode: ChunkWrite,
    payload: Seq<u8>,
    order_key: Seq<u8>,
)
    requires
        carrier_bounded(img),
        carrier_write_spec(kind, img, mode, payload, order_key) is Ok,
        mode matches ChunkWrite::Markerless { chunk_index } ==> carrier_keyed_ok(
            img,
            order_key,
            chunk_index,
        ),
    ensures
        carrier_read_spec(
            kind,
            carrier_write_spec(kind, img, mode, payload, order_key)->Ok_0,
            read_back_mode(mode, payload.len()),
            order_key,
        ) == Ok::<(ChunkMeta, Seq<u8>), CodecFault>((read_back_meta(mode), payload)),
{
    match (kind, img) {
        (ImageKind::Png, CarrierView::Png(p)) => match mode {
            ChunkWrite::Framed(meta) => {
                assert(order_key =~= Seq::<u8>::empty());
                lemma_png_framed_roundtrip(p, meta, payload);
            },
            ChunkWrite::Markerless { chunk_index } => {
                lemma_png_markerless_roundtrip(p, chunk_index, payload, order_key);
            },
        },
        (ImageKind::Jpeg, CarrierView::Jpeg(j)) => match mode {
            ChunkWrite::Framed(meta) => {
                assert(order_key =~= Seq::<u8>::empty());
                lemma_jpeg_framed_roundtrip(j, meta, payload);
            },
            ChunkWrite::Markerless { chunk_index } => {
                lemma_jpeg_markerless_roundtrip(j, chunk_index, payload, order_key);
            },
        },
        _ => {},
    }
}

fn kind_mismatch() -> (e: CodecError)
    ensures
        fault_of(e) == CodecFault::Image,
{
    CodecError::Image("the image is not of the kind its name says".to_string())
}

impl Codec {
    /// The codec for a carrier path, by its extension.
    pub fn for_path(path: &str) -> (codec: Option<Codec>)
        ensures
            match kind_of_path(path.spec_bytes()) {
                Some(k) => codec matches Some(c) && codec_kind(c) == k,
                None => codec is None,
            },
    {
        match kind_for(path) {
            Some(ImageKind::Png) => Some(Codec::Png(PngCodec)),
            Some(ImageKind::Jpeg) => Some(Codec::Jpeg(JpegCodec)),
            None => None,
        }
    }

    pub fn raw_capacity_bytes(&self, img: &CarrierImage) -> (res: Result<u64, CodecError>)
        ensures
            carrier_raw_capacity(codec_kind(*self), img@) == match res {
                Ok(n) => Ok(n),
                Err(e) => Err(fault_of(e)),
            },
    {
        match (self, img) {
            (Codec::Png(c), CarrierImage::Png(p)) => c.raw_capacity_bytes(p),
            (Codec::Jpeg(c), CarrierImage::Jpeg(j)) => c.raw_capacity_bytes(j),
            _ => Err(kind_mismatch()),
        }
    }

    pub fn capacity_bytes(&self, img: &CarrierImage) -> (res: Result<u64, CodecError>)
        ensures
            carrier_capacity(codec_kind(*self), img@) == match res {
                Ok(n) => Ok(n),
                Err(e) => Err(fault_of(e)),
            },
    {
        match (self, img) {
            (Codec::Png(c), CarrierImage::Png(p)) => c.capacity_bytes(p),
            (Codec::Jpeg(c), CarrierImage::Jpeg(j)) => c.capacity_bytes(j),
            _ => Err(kind_mismatch()),
        }
    }

    pub fn write_chunk(&self, img: &mut CarrierImage, mode: ChunkWrite, payload: &[u8], order_key: &[u8]) -> (res:
        Result<(), CodecError>)
        ensures
            carrier_write_spec(codec_kind(*self), old(img)@, mode, payload@, order_key@) == match res {
                Ok(_) => Ok(final(img)@),
                Err(e) => Err(fault_of(e)),
            },
            res is Err ==> final(img)@ == old(img)@,
            res is Ok ==> carrier_bounded(old(img)@),
            res is Ok ==> (mode matches ChunkWrite::Markerless { chunk_index } ==> carrier_keyed_ok(
                old(img)@,
                order_key@,
                chunk_index,
            )),
    {
        match self {
            Codec::Png(c) => match img {
                CarrierImage::Png(p) => c.write_chunk(p, mode, payload, order_key),
                CarrierImage::Jpeg(_) => Err(kind_mismatch()),
            },
            Codec::Jpeg(c) => match img {
                CarrierImage::Jpeg(j) => c.write_chunk(j, mode, payload, order_key),
                CarrierImage::Png(_) => Err(kind_mismatch()),
            },
        }
    }

    pub fn read_chunk(&self, img: &CarrierImage, mode: ChunkRead, order_key: &[u8]) -> (res: Result<
        (ChunkMeta, Vec<u8>),
        CodecError,
    >)
        ensures
            carrier_read_spec(codec_kind(*self), img@, mode, order_key@) == match res {
                Ok((meta, bytes)) => Ok((meta, bytes@)),
                Err(e) => Err(fault_of(e)),
            },
    {
        match (self, img) {
            (Codec::Png(c), CarrierImage::Png(p)) => c.read_chunk(p, mode, order_key),
            (Codec::Jpeg(c), CarrierImage::Jpeg(j)) => c.read_chunk(j, mode, order_key),
            _ => Err(kind_mismatch()),
        }
    }

    pub fn write_prefix(&self, img: &mut CarrierImage, bytes: &[u8]) -> (res: Result<(), CodecError>)
        ensures
            carrier_write_prefix_spec(codec_kind(*self), old(img)@, bytes@) == match res {
                Ok(_) => Ok(final(img)@),
                Err(e) => Err(fault_of(e)),
            },
            res is Err ==> final(img)@ == old(img)@,
    {
        match self {
            Codec::Png(c) => match img {
                CarrierImage::Png(p) => c.write_prefix(p, bytes),
                CarrierImage::Jpeg(_) => Err(kind_mismatch()),
            },
            Codec::Jpeg(c) => match img {
                CarrierImage::Jpeg(j) => c.write_prefix(j, bytes),
                CarrierImage::Png(_) => Err(kind_mismatch()),
            },
        }
    }

    pub fn read_prefix(&self, img: &CarrierImage, length: usize) -> (res: Result<Vec<u8>, CodecError>)
        ensures
            carrier_read_prefix_spec(codec_kind(*self), img@, length) == match res {
                Ok(bytes) => Ok(bytes@),
                Err(e) => Err(fault_of(e)),
            },
    {
        match (self, img) {
            (Codec::Png(c), CarrierImage::Png(p)) => c.read_prefix(p, length),
            (Codec::Jpeg(c), CarrierImage::Jpeg(j)) => c.read_prefix(j, length),
            _ => Err(kind_mismatch()),
        }
    }
}

} // verus!
