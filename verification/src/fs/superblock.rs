//! The superblock: filesystem geometry and the manifest of carriers.

use super::crypto::{ARGON2_ITERS, ARGON2_MEM_KIB, ARGON2_PARALLEL};
use super::{sb_magic, FsError, FS_VERSION, PB, SB_MAGIC, UB};
use crate::layout::{
    copy_range, fill_zero, get16, get16_at, get32, get32_at, get64, get64_at, lemma_le_roundtrip,
    le16, le32, le64, push16, push32, push64, push_bytes, put32, splice, zero_bytes, zeros,
};
use crate::primitives::{crc32, crc32_of, str_from_utf8};
use vstd::prelude::*;
use vstd::slice::slice_subrange;
use vstd::string::*;
use vstd::utf8::*;

verus! {

broadcast use {encode_utf8_valid_utf8, encode_utf8_decode_utf8, decode_utf8_encode_utf8};

pub const CRYPTO_FLAG_ENCRYPTED: u32 = 1;

pub const MARKERLESS_FS_VERSION: u32 = 3;

pub const V1_HEADER_LEN: usize = 80;

pub const V2_HEADER_LEN: usize = 108;

pub const V3_HEADER_LEN: usize = 80;

#[derive(Debug, Clone, PartialEq, Eq)]
pub struct CarrierRange {
    pub name: String,
    pub chunk_index: u32,
    pub block_start: u64,
    pub block_count: u64,
}

pub struct CarrierRangeView {
    pub name: Seq<char>,
    pub chunk_index: u32,
    pub block_start: u64,
    pub block_count: u64,
}

impl View for CarrierRange {
    type V = CarrierRangeView;

    open spec fn view(&self) -> CarrierRangeView {
        CarrierRangeView {
            name: self.name@,
            chunk_index: self.chunk_index,
            block_start: self.block_start,
            block_count: self.block_count,
        }
    }
}

#[derive(Debug, Clone, PartialEq, Eq)]
pub struct Superblock {
    pub version: u32,
    pub block_size: u32,
    pub usable_size: u32,
    pub total_blocks: u64,
    pub inode_count: u64,
    pub bitmap_start: u64,
    pub inode_table_start: u64,
    pub data_start: u64,
    pub root_inode: u64,
    pub crypto_flags: u32,
    pub salt: [u8; 16],
    pub argon2_mem_kib: u32,
    pub argon2_iters: u32,
    pub argon2_parallel: u32,
    pub manifest: Vec<CarrierRange>,
}

#[verifier::ext_equal]
pub struct SuperblockView {
    pub version: u32,
    pub block_size: u32,
    pub usable_size: u32,
    pub total_blocks: u64,
    pub inode_count: u64,
    pub bitmap_start: u64,
    pub inode_table_start: u64,
    pub data_start: u64,
    pub root_inode: u64,
    pub crypto_flags: u32,
    pub salt: Seq<u8>,
    pub argon2_mem_kib: u32,
    pub argon2_iters: u32,
    pub argon2_parallel: u32,
    pub manifest: Seq<CarrierRangeView>,
}

impl View for Superblock {
    type V = SuperblockView;

    open spec fn view(&self) -> SuperblockView {
        SuperblockView {
            version: self.version,
            block_size: self.block_size,
            usable_size: self.usable_size,
            total_blocks: self.total_blocks,
            inode_count: self.inode_count,
            bitmap_start: self.bitmap_start,
            inode_table_start: self.inode_table_start,
            data_start: self.data_start,
            root_inode: self.root_inode,
            crypto_flags: self.crypto_flags,
            salt: self.salt@,
            argon2_mem_kib: self.argon2_mem_kib,
            argon2_iters: self.argon2_iters,
            argon2_parallel: self.argon2_parallel,
            manifest: self.manifest@.map_values(|r: CarrierRange| r@),
        }
    }
}

/// Header length for a superblock version, as `encode` lays it out.
pub open spec fn header_len_spec(version: u32) -> int {
    if version == 2 {
        V2_HEADER_LEN as int
    } else {
        80
    }
}

/// One manifest entry on disk: in the markerless version the name's length
/// and UTF-8 bytes come first; then chunk index, first block, block count.
pub open spec fn range_bytes(version: u32, r: CarrierRangeView) -> Seq<u8> {
    (if version >= MARKERLESS_FS_VERSION {
        le16(encode_utf8(r.name).len() as u16) + encode_utf8(r.name)
    } else {
        Seq::empty()
    }) + le32(r.chunk_index) + le64(r.block_start) + le64(r.block_count)
}

pub open spec fn manifest_bytes(version: u32, m: Seq<CarrierRangeView>) -> Seq<u8>
    decreases m.len(),
{
    if m.len() == 0 {
        Seq::empty()
    } else {
        manifest_bytes(version, m.drop_last()) + range_bytes(version, m.last())
    }
}

/// The fixed header, with the CRC field still zero.
pub open spec fn header_bytes(sb: SuperblockView) -> Seq<u8> {
    sb_magic() + le32(sb.version) + le32(sb.block_size) + le32(sb.usable_size) + le64(
        sb.total_blocks,
    ) + le64(sb.inode_count) + le64(sb.bitmap_start) + le64(sb.inode_table_start) + le64(
        sb.data_start,
    ) + le64(sb.root_inode) + le32(sb.manifest.len() as u32) + le32(sb.crypto_flags) + zeros(4) + (
    if sb.version == 2 {
        sb.salt + le32(sb.argon2_mem_kib) + le32(sb.argon2_iters) + le32(sb.argon2_parallel)
    } else {
        Seq::empty()
    })
}

/// Header and manifest before the CRC is filled in.
pub open spec fn unsealed_bytes(sb: SuperblockView) -> Seq<u8> {
    header_bytes(sb) + manifest_bytes(sb.version, sb.manifest)
}

/// The encoded superblock: the CRC-32 of the unsealed bytes stored at 76..80.
pub open spec fn superblock_bytes(sb: SuperblockView) -> Seq<u8> {
    splice(unsealed_bytes(sb), 76, le32(crc32_of(unsealed_bytes(sb))))
}

/// A carrier name that `validate_name` accepts, judged on its UTF-8 bytes:
/// not empty, not "." or "..", no '/' or '\\', at most 65535 bytes.
pub open spec fn name_ok(b: Seq<u8>) -> bool {
    &&& b.len() > 0
    &&& b != seq![0x2eu8]
    &&& b != seq![0x2eu8, 0x2eu8]
    &&& !b.contains(0x2fu8)
    &&& !b.contains(0x5cu8)
    &&& b.len() <= u16::MAX
}

/// Reads one manifest entry at `off`: the entry and where the next begins.
pub open spec fn parse_range(buf: Seq<u8>, version: u32, off: int) -> Option<(CarrierRangeView, int)> {
    if version >= MARKERLESS_FS_VERSION {
        if off + 2 > buf.len() {
            None
        } else {
            let name_end = off + 2 + get16(buf, off) as int;
            let nb = buf.subrange(off + 2, name_end);
            if name_end > buf.len() || !valid_utf8(nb) || !name_ok(nb) || name_end + 20 > buf.len() {
                None
            } else {
                Some(
                    (
                        CarrierRangeView {
                            name: decode_utf8(nb),
                            chunk_index: get32(buf, name_end),
                            block_start: get64(buf, name_end + 4),
                            block_count: get64(buf, name_end + 12),
                        },
                        name_end + 20,
                    ),
                )
            }
        }
    } else {
        if off + 20 > buf.len() {
            None
        } else {
            Some(
                (
                    CarrierRangeView {
                        name: Seq::empty(),
                        chunk_index: get32(buf, off),
                        block_start: get64(buf, off + 4),
                        block_count: get64(buf, off + 12),
                    },
                    off + 20,
                ),
            )
        }
    }
}

/// Reads `count` manifest entries starting at `start`.
pub open spec fn parse_ranges(buf: Seq<u8>, version: u32, start: int, count: nat) -> Option<
    (Seq<CarrierRangeView>, int),
>
    decreases count,
{
    if count == 0 {
        Some((Seq::empty(), start))
    } else {
        match parse_ranges(buf, version, start, (count - 1) as nat) {
            Some((rs, off)) => match parse_range(buf, version, off) {
                Some((r, next)) => Some((rs.push(r), next)),
                None => None,
            },
            None => None,
        }
    }
}

#[derive(Debug)]
pub enum SuperblockFault {
    BadMagic,
    Manifest,
    Crc,
}

/// What `decode` makes of a buffer.
pub open spec fn decode_spec(buf: Seq<u8>) -> Result<SuperblockView, SuperblockFault> {
    if buf.len() < V1_HEADER_LEN || buf.subrange(0, 8) != sb_magic() {
        Err(SuperblockFault::BadMagic)
    } else {
        let version = get32(buf, 8);
        if version != 1 && version != 2 && version != 3 {
            Err(SuperblockFault::Manifest)
        } else if buf.len() < header_len_spec(version) {
            Err(SuperblockFault::Manifest)
        } else {
            match parse_ranges(buf, version, header_len_spec(version), get32(buf, 68) as nat) {
                None => Err(SuperblockFault::Manifest),
                Some((m, end)) => if crc32_of(splice(buf.subrange(0, end), 76, zeros(4))) != get32(
                    buf,
                    76,
                ) {
                    Err(SuperblockFault::Crc)
                } else {
                    Ok(
                        SuperblockView {
                            version,
                            block_size: get32(buf, 12),
                            usable_size: get32(buf, 16),
                            total_blocks: get64(buf, 20),
                            inode_count: get64(buf, 28),
                            bitmap_start: get64(buf, 36),
                            inode_table_start: get64(buf, 44),
                            data_start: get64(buf, 52),
                            root_inode: get64(buf, 60),
                            crypto_flags: get32(buf, 72),
                            salt: if version == 2 {
                                buf.subrange(80, 96)
                            } else {
                                zeros(16)
                            },
                            argon2_mem_kib: if version == 2 {
                                get32(buf, 96)
                            } else {
                                0
                            },
                            argon2_iters: if version == 2 {
                                get32(buf, 100)
                            } else {
                                0
                            },
                            argon2_parallel: if version == 2 {
                                get32(buf, 104)
                            } else {
                                0
                            },
                            manifest: m,
                        },
                    )
                },
            }
        }
    }
}

/// A superblock that decoding its own encoding reproduces: a known version,
/// a manifest count that fits the u32 field, valid names in the markerless
/// version and empty names before it, and the version-2-only fields zero in
/// the other versions.
pub open spec fn superblock_well_formed(sb: SuperblockView) -> bool {
    &&& sb.version == 1 || sb.version == 2 || sb.version == 3
    &&& sb.manifest.len() <= u32::MAX
    &&& sb.salt.len() == 16
    &&& forall|i: int|
        0 <= i < sb.manifest.len() ==> if sb.version >= MARKERLESS_FS_VERSION {
            name_ok(encode_utf8(#[trigger] sb.manifest[i].name))
        } else {
            sb.manifest[i].name.len() == 0
        }
    &&& sb.version != 2 ==> sb.salt == zeros(16) && sb.argon2_mem_kib == 0 && sb.argon2_iters == 0
        && sb.argon2_parallel == 0
}

/// An encoded carrier range parses back to itself, wherever it stands.
pub proof fn lemma_range_bytes(version: u32, r: CarrierRangeView, pre: Seq<u8>, post: Seq<u8>)
    requires
        version >= MARKERLESS_FS_VERSION ==> name_ok(encode_utf8(r.name)),
        version < MARKERLESS_FS_VERSION ==> r.name.len() == 0,
    ensures
        parse_range(pre + range_bytes(version, r) + post, version, pre.len() as int) == Some(
            (r, (pre.len() + range_bytes(version, r).len()) as int),
        ),
{
    lemma_le_roundtrip();
    let b = pre + range_bytes(version, r) + post;
    let off = pre.len() as int;
    if version >= MARKERLESS_FS_VERSION {
        let nb = encode_utf8(r.name);
        assert(b.subrange(off, off + 2) =~= le16(nb.len() as u16));
        assert(nb.len() as u16 == nb.len());
        let ne = off + 2 + nb.len();
        assert(b.subrange(off + 2, ne) =~= nb);
        assert(b.subrange(ne, ne + 4) =~= le32(r.chunk_index));
        assert(b.subrange(ne + 4, ne + 12) =~= le64(r.block_start));
        assert(b.subrange(ne + 12, ne + 20) =~= le64(r.block_count));
    } else {
        assert(b.subrange(off, off + 4) =~= le32(r.chunk_index));
        assert(b.subrange(off + 4, off + 12) =~= le64(r.block_start));
        assert(b.subrange(off + 12, off + 20) =~= le64(r.block_count));
        assert(r.name =~= Seq::<char>::empty());
    }
}

/// The manifest of the first `k + 1` ranges is that of the first `k`, then
/// range `k`.
pub proof fn lemma_manifest_prefix(version: u32, m: Seq<CarrierRangeView>, k: int)
    requires
        0 <= k < m.len(),
    ensures
        manifest_bytes(version, m.take(k + 1)) == manifest_bytes(version, m.take(k))
            + range_bytes(version, m[k]),
{
    assert(m.take(k + 1).drop_last() =~= m.take(k));
}

/// The manifest of the first `k` ranges begins the whole manifest.
pub proof fn lemma_manifest_is_prefix(version: u32, m: Seq<CarrierRangeView>, k: int)
    requires
        0 <= k <= m.len(),
    ensures
        manifest_bytes(version, m) =~= manifest_bytes(version, m.take(k)) + manifest_bytes(
            version,
            m,
        ).subrange(manifest_bytes(version, m.take(k)).len() as int, manifest_bytes(version, m).len() as int),
        manifest_bytes(version, m.take(k)).len() <= manifest_bytes(version, m).len(),
    decreases m.len() - k,
{
    if k == m.len() {
        assert(m.take(k) =~= m);
    } else {
        lemma_manifest_is_prefix(version, m, k + 1);
        lemma_manifest_prefix(version, m, k);
    }
}

/// Decoding an encoded well-formed superblock gives it back.
pub proof fn lemma_superblock_roundtrip(sb: SuperblockView)
    requires
        superblock_well_formed(sb),
    ensures
        decode_spec(superblock_bytes(sb)) == Ok::<SuperblockView, SuperblockFault>(sb),
{
    lemma_le_roundtrip();
    let u = unsealed_bytes(sb);
    let h = header_bytes(sb);
    let crc = crc32_of(u);
    let b = superblock_bytes(sb);
    let hl = header_len_spec(sb.version);
    let mb = manifest_bytes(sb.version, sb.manifest);
    assert(h.len() == hl);
    assert(b.len() == u.len());
    assert(b.subrange(0, 8) =~= sb_magic());
    assert(b.subrange(8, 12) =~= le32(sb.version));
    assert(b.subrange(12, 16) =~= le32(sb.block_size));
    assert(b.subrange(16, 20) =~= le32(sb.usable_size));
    assert(b.subrange(20, 28) =~= le64(sb.total_blocks));
    assert(b.subrange(28, 36) =~= le64(sb.inode_count));
    assert(b.subrange(36, 44) =~= le64(sb.bitmap_start));
    assert(b.subrange(44, 52) =~= le64(sb.inode_table_start));
    assert(b.subrange(52, 60) =~= le64(sb.data_start));
    assert(b.subrange(60, 68) =~= le64(sb.root_inode));
    assert(b.subrange(68, 72) =~= le32(sb.manifest.len() as u32));
    assert(b.subrange(72, 76) =~= le32(sb.crypto_flags));
    assert(b.subrange(76, 80) =~= le32(crc));
    if sb.version == 2 {
        assert(b.subrange(80, 96) =~= sb.salt);
        assert(b.subrange(96, 100) =~= le32(sb.argon2_mem_kib));
        assert(b.subrange(100, 104) =~= le32(sb.argon2_iters));
        assert(b.subrange(104, 108) =~= le32(sb.argon2_parallel));
    }
    assert(b =~= b.subrange(0, hl) + mb);
    // every prefix of the manifest parses to itself
    assert forall|k: nat| k <= sb.manifest.len() implies parse_ranges(
        b,
        sb.version,
        hl,
        k,
    ) == Some((sb.manifest.take(k as int), (hl + manifest_bytes(sb.version, sb.manifest.take(k as int)).len()) as int)) by {
        lemma_parse_prefix(sb, k);
    }
    assert(sb.manifest.take(sb.manifest.len() as int) =~= sb.manifest);
    assert(splice(b.subrange(0, b.len() as int), 76, zeros(4)) =~= u);
    assert(sb.salt.len() == 16);
    if sb.version != 2 {
        assert(sb.salt =~= zeros(16));
    }
    assert(decode_spec(b) matches Ok(v) && v =~= sb);
}

proof fn lemma_parse_prefix(sb: SuperblockView, k: nat)
    requires
        superblock_well_formed(sb),
        k <= sb.manifest.len(),
    ensures
        parse_ranges(superblock_bytes(sb), sb.version, header_len_spec(sb.version), k) == Some(
            (
                sb.manifest.take(k as int),
                (header_len_spec(sb.version) + manifest_bytes(sb.version, sb.manifest.take(k as int)).len()) as int,
            ),
        ),
    decreases k,
{
    lemma_le_roundtrip();
    let b = superblock_bytes(sb);
    let hl = header_len_spec(sb.version);
    let mb = manifest_bytes(sb.version, sb.manifest);
    assert(header_bytes(sb).len() == hl);
    assert(b =~= b.subrange(0, hl) + mb);
    if k == 0 {
        assert(sb.manifest.take(0) =~= Seq::<CarrierRangeView>::empty());
    } else {
        let j = (k - 1) as int;
        lemma_parse_prefix(sb, (k - 1) as nat);
        lemma_manifest_prefix(sb.version, sb.manifest, j);
        lemma_manifest_is_prefix(sb.version, sb.manifest, k as int);
        let pre_m = manifest_bytes(sb.version, sb.manifest.take(j));
        let r = sb.manifest[j];
        let rb = range_bytes(sb.version, r);
        let post = mb.subrange((pre_m.len() + rb.len()) as int, mb.len() as int);
        assert(b =~= (b.subrange(0, hl) + pre_m) + rb + post);
        lemma_range_bytes(sb.version, r, b.subrange(0, hl) + pre_m, post);
        assert(sb.manifest.take(k as int) =~= sb.manifest.take(j).push(r));
    }
}

impl Superblock {
    pub fn encode(&self) -> (bytes: Vec<u8>)
        ensures
            bytes@ == superblock_bytes(self@),
    {
        let mut bytes = Vec::new();
        let magic = SB_MAGIC;
        push_bytes(&mut bytes, magic.as_slice());
        proof {
            super::lemma_sb_magic_view();
        }
        push32(&mut bytes, self.version);
        push32(&mut bytes, self.block_size);
        push32(&mut bytes, self.usable_size);
        push64(&mut bytes, self.total_blocks);
        push64(&mut bytes, self.inode_count);
        push64(&mut bytes, self.bitmap_start);
        push64(&mut bytes, self.inode_table_start);
        push64(&mut bytes, self.data_start);
        push64(&mut bytes, self.root_inode);
        push32(&mut bytes, self.manifest.len() as u32);
        push32(&mut bytes, self.crypto_flags);
        let crc_field = zero_bytes(4);
        push_bytes(&mut bytes, crc_field.as_slice());
        if self.version == 2 {
            push_bytes(&mut bytes, self.salt.as_slice());
            push32(&mut bytes, self.argon2_mem_kib);
            push32(&mut bytes, self.argon2_iters);
            push32(&mut bytes, self.argon2_parallel);
        }
        assert(bytes@ =~= header_bytes(self@));
        let ghost header = bytes@;
        let ghost m = self@.manifest;
        let mut i: usize = 0;
        while i < self.manifest.len()
            invariant
                i <= self.manifest@.len(),
                m == self@.manifest,
                m.len() == self.manifest@.len(),
                bytes@ == header + manifest_bytes(self.version, m.take(i as int)),
            decreases self.manifest@.len() - i,
        {
            let carrier = &self.manifest[i];
            proof {
                lemma_manifest_prefix(self.version, m, i as int);
                assert(m[i as int] == carrier@);
            }
            if self.version >= MARKERLESS_FS_VERSION {
                let name = carrier.name.as_str().as_bytes();
                push16(&mut bytes, name.len() as u16);
                push_bytes(&mut bytes, name);
            }
            push32(&mut bytes, carrier.chunk_index);
            push64(&mut bytes, carrier.block_start);
            push64(&mut bytes, carrier.block_count);
            i += 1;
            proof {
                assert(bytes@ =~= header + manifest_bytes(self.version, m.take(i as int)));
            }
        }
        assert(m.take(m.len() as int) =~= m);
        let crc = crc32(bytes.as_slice());
        proof {
            lemma_le_roundtrip();
            assert(header.len() >= 80);
        }
        put32(&mut bytes, 76, crc);
        bytes
    }

    pub fn decode(buf: &[u8]) -> (res: Result<Self, FsError>)
        ensures
            match decode_spec(buf@) {
                Ok(v) => res is Ok && res.unwrap()@ == v,
                Err(SuperblockFault::BadMagic) => res matches Err(FsError::BadMagic),
                Err(SuperblockFault::Manifest) => res matches Err(FsError::Manifest(_)),
                Err(SuperblockFault::Crc) => res matches Err(FsError::SuperblockCrc),
            },
    {
        let len = buf.len();
        if len < V1_HEADER_LEN {
            return Err(FsError::BadMagic);
        }
        let magic = SB_MAGIC;
        let mut k: usize = 0;
        while k < 8
            invariant
                k <= 8,
                len == buf@.len(),
                len >= 80,
                magic@ == sb_magic(),
                forall|j: int| 0 <= j < k ==> buf@[j] == sb_magic()[j],
            decreases 8 - k,
        {
            proof {
                super::lemma_sb_magic_view();
            }
            if buf[k] != magic[k] {
                assert(buf@.subrange(0, 8)[k as int] != sb_magic()[k as int]);
                return Err(FsError::BadMagic);
            }
            k += 1;
        }
        assert(buf@.subrange(0, 8) =~= sb_magic());
        let version = get32_at(buf, 8);
        let header_len = if version == 1 {
            V1_HEADER_LEN
        } else if version == 2 {
            V2_HEADER_LEN
        } else if version == MARKERLESS_FS_VERSION {
            V3_HEADER_LEN
        } else {
            return Err(FsError::Manifest("unsupported filesystem version".to_owned()));
        };
        if len < header_len {
            return Err(FsError::Manifest("truncated superblock header".to_owned()));
        }
        let image_count = get32_at(buf, 68);
        let mut manifest: Vec<CarrierRange> = Vec::new();
        let mut offset = header_len;
        let mut index: u32 = 0;
        while index < image_count
            invariant
                index <= image_count,
                len == buf@.len(),
                header_len == header_len_spec(version),
                version == get32(buf@, 8),
                version == 1 || version == 2 || version == 3,
                image_count == get32(buf@, 68),
                parse_ranges(buf@, version, header_len as int, index as nat) == Some(
                    (manifest@.map_values(|r: CarrierRange| r@), offset as int),
                ),
                offset <= len,
                offset >= header_len,
                header_len >= 80,
                len >= header_len,
                buf@.subrange(0, 8) == sb_magic(),
            decreases image_count - index,
        {
            let ghost before = manifest@.map_values(|r: CarrierRange| r@);
            let (range, next) = match parse_one(buf, version, offset) {
                Ok(parsed) => parsed,
                Err(e) => {
                    proof {
                        lemma_parse_stops(
                            buf@,
                            version,
                            header_len as int,
                            index as nat,
                            image_count as nat,
                        );
                    }
                    return Err(e);
                },
            };
            manifest.push(range);
            offset = next;
            index += 1;
            proof {
                assert(manifest@.map_values(|r: CarrierRange| r@) =~= before.push(range@));
            }
        }
        let stored = get32_at(buf, 76);
        let mut check = copy_range(buf, 0, offset);
        fill_zero(&mut check, 76, 4);
        if crc32(check.as_slice()) != stored {
            return Err(FsError::SuperblockCrc);
        }
        let salt: [u8; 16] = if version == 2 {
            let mut s = [0u8; 16];
            let mut j: usize = 0;
            while j < 16
                invariant
                    j <= 16,
                    len == buf@.len(),
                    len >= 108,
                    forall|t: int| 0 <= t < j ==> s[t] == buf@[80 + t],
                decreases 16 - j,
            {
                s[j] = buf[80 + j];
                j += 1;
            }
            assert(s@ =~= buf@.subrange(80, 96));
            s
        } else {
            let s = [0u8; 16];
            assert(s@ =~= zeros(16));
            s
        };
        let sb = Superblock {
            version,
            block_size: get32_at(buf, 12),
            usable_size: get32_at(buf, 16),
            total_blocks: get64_at(buf, 20),
            inode_count: get64_at(buf, 28),
            bitmap_start: get64_at(buf, 36),
            inode_table_start: get64_at(buf, 44),
            data_start: get64_at(buf, 52),
            root_inode: get64_at(buf, 60),
            crypto_flags: get32_at(buf, 72),
            salt,
            argon2_mem_kib: if version == 2 {
                get32_at(buf, 96)
            } else {
                0
            },
            argon2_iters: if version == 2 {
                get32_at(buf, 100)
            } else {
                0
            },
            argon2_parallel: if version == 2 {
                get32_at(buf, 104)
            } else {
                0
            },
            manifest,
        };
        assert(sb@ =~= decode_spec(buf@).unwrap());
        Ok(sb)
    }

    pub fn standard(
        total_blocks: u64,
        inode_count: u64,
        bitmap_start: u64,
        inode_table_start: u64,
        data_start: u64,
        manifest: Vec<CarrierRange>,
        encrypted: bool,
    ) -> (sb: Self)
        ensures
            sb.version == FS_VERSION,
            sb.block_size == PB,
            sb.usable_size == UB,
            sb.total_blocks == total_blocks,
            sb.inode_count == inode_count,
            sb.bitmap_start == bitmap_start,
            sb.inode_table_start == inode_table_start,
            sb.data_start == data_start,
            sb.root_inode == 1,
            sb.crypto_flags == (if encrypted {
                CRYPTO_FLAG_ENCRYPTED
            } else {
                0
            }),
            sb.salt@ == zeros(16),
            sb.argon2_mem_kib == ARGON2_MEM_KIB,
            sb.argon2_iters == ARGON2_ITERS,
            sb.argon2_parallel == ARGON2_PARALLEL,
            sb.manifest == manifest,
    {
        let salt = [0u8; 16];
        assert(salt@ =~= zeros(16));
        Superblock {
            version: FS_VERSION,
            block_size: PB as u32,
            usable_size: UB as u32,
            total_blocks,
            inode_count,
            bitmap_start,
            inode_table_start,
            data_start,
            root_inode: 1,
            crypto_flags: if encrypted {
                CRYPTO_FLAG_ENCRYPTED
            } else {
                0
            },
            salt,
            argon2_mem_kib: ARGON2_MEM_KIB,
            argon2_iters: ARGON2_ITERS,
            argon2_parallel: ARGON2_PARALLEL,
            manifest,
        }
    }

    pub fn markerless(
        total_blocks: u64,
        inode_count: u64,
        bitmap_start: u64,
        inode_table_start: u64,
        data_start: u64,
        manifest: Vec<CarrierRange>,
    ) -> (sb: Self)
        ensures
            sb.version == MARKERLESS_FS_VERSION,
            sb.block_size == PB,
            sb.usable_size == UB,
            sb.total_blocks == total_blocks,
            sb.inode_count == inode_count,
            sb.bitmap_start == bitmap_start,
            sb.inode_table_start == inode_table_start,
            sb.data_start == data_start,
            sb.root_inode == 1,
            sb.crypto_flags == CRYPTO_FLAG_ENCRYPTED,
            sb.salt@ == zeros(16),
            sb.argon2_mem_kib == 0,
            sb.argon2_iters == 0,
            sb.argon2_parallel == 0,
            sb.manifest == manifest,
    {
        let mut superblock = Self::standard(
            total_blocks,
            inode_count,
            bitmap_start,
            inode_table_start,
            data_start,
            manifest,
            true,
        );
        superblock.version = MARKERLESS_FS_VERSION;
        superblock.argon2_mem_kib = 0;
        superblock.argon2_iters = 0;
        superblock.argon2_parallel = 0;
        superblock
    }

    pub fn encrypted(&self) -> (res: bool)
        ensures
            res == (self.crypto_flags & CRYPTO_FLAG_ENCRYPTED != 0),
    {
        self.crypto_flags & CRYPTO_FLAG_ENCRYPTED != 0
    }

    pub fn markerless_encrypted(&self) -> (res: bool)
        ensures
            res == (self.version == MARKERLESS_FS_VERSION && self.crypto_flags
                & CRYPTO_FLAG_ENCRYPTED != 0),
    {
        self.version == MARKERLESS_FS_VERSION && self.encrypted()
    }
}

proof fn lemma_parse_stops(buf: Seq<u8>, version: u32, start: int, k: nat, n: nat)
    requires
        k <= n,
        parse_ranges(buf, version, start, (k + 1) as nat) is None,
    ensures
        k < n ==> parse_ranges(buf, version, start, n) is None,
    decreases n - k,
{
    if k + 1 < n {
        lemma_parse_stops_step(buf, version, start, (k + 1) as nat, n);
    }
}

proof fn lemma_parse_stops_step(buf: Seq<u8>, version: u32, start: int, k: nat, n: nat)
    requires
        k <= n,
        parse_ranges(buf, version, start, k) is None,
    ensures
        parse_ranges(buf, version, start, n) is None,
    decreases n - k,
{
    if k < n {
        lemma_parse_stops_step(buf, version, start, (k + 1) as nat, n);
    }
}

/// Reads the manifest entry at `offset`.
fn parse_one(buf: &[u8], version: u32, offset: usize) -> (res: Result<(CarrierRange, usize), FsError>)
    requires
        offset <= buf@.len(),
    ensures
        match parse_range(buf@, version, offset as int) {
            Some((r, next)) => res is Ok && res.unwrap().0@ == r && res.unwrap().1 == next,
            None => res matches Err(FsError::Manifest(_)),
        },
{
    let len = buf.len();
    let mut offset = offset;
    let name = if version >= MARKERLESS_FS_VERSION {
        if len < 2 || offset > len - 2 {
            return Err(FsError::Manifest("truncated manifest name length".to_owned()));
        }
        let name_len = get16_at(buf, offset) as usize;
        let name_start = offset + 2;
        if name_len > len - name_start {
            return Err(FsError::Manifest("truncated manifest name".to_owned()));
        }
        let name_end = name_start + name_len;
        let name_str = match str_from_utf8(slice_subrange(buf, name_start, name_end)) {
            Some(s) => s,
            None => {
                return Err(FsError::Manifest("manifest name is not UTF-8".to_owned()));
            },
        };
        proof {
            assert(name_str.spec_bytes() =~= buf@.subrange(name_start as int, name_end as int));
        }
        match validate_name(name_str) {
            Ok(()) => {},
            Err(e) => {
                return Err(e);
            },
        }
        offset = name_end;
        name_str.to_owned()
    } else {
        String::new()
    };
    if 20 > len - offset {
        return Err(FsError::Manifest("truncated manifest".to_owned()));
    }
    let range = CarrierRange {
        name,
        chunk_index: get32_at(buf, offset),
        block_start: get64_at(buf, offset + 4),
        block_count: get64_at(buf, offset + 12),
    };
    proof {
        if version < MARKERLESS_FS_VERSION {
            assert(range@.name =~= Seq::<char>::empty());
        }
    }
    Ok((range, offset + 20))
}

pub fn validate_name(name: &str) -> (res: Result<(), FsError>)
    ensures
        res is Ok <==> name_ok(name.spec_bytes()),
        res is Err ==> res matches Err(FsError::Manifest(_)),
{
    let bytes = name.as_bytes();
    let n = bytes.len();
    let mut bad = n == 0 || n > 65535;
    if n == 1 && bytes[0] == 0x2e {
        bad = true;
    }
    if n == 2 && bytes[0] == 0x2e && bytes[1] == 0x2e {
        bad = true;
    }
    let mut i: usize = 0;
    let mut separator = false;
    while i < n
        invariant
            n == bytes@.len(),
            i <= n,
            separator <==> exists|j: int| 0 <= j < i && (bytes@[j] == 0x2fu8 || bytes@[j] == 0x5cu8),
        decreases n - i,
    {
        if bytes[i] == 0x2f || bytes[i] == 0x5c {
            separator = true;
        }
        i += 1;
    }
    proof {
        if !separator {
            assert(!bytes@.contains(0x2fu8));
            assert(!bytes@.contains(0x5cu8));
        } else {
            let j = choose|j: int| 0 <= j < n && (bytes@[j] == 0x2fu8 || bytes@[j] == 0x5cu8);
            assert(bytes@.contains(bytes@[j]));
        }
        if n == 1 && bytes@[0] != 0x2e {
            assert(bytes@ != seq![0x2eu8]);
        }
        if n == 2 && !(bytes@[0] == 0x2e && bytes@[1] == 0x2e) {
            assert(bytes@ != seq![0x2eu8, 0x2eu8]);
        }
        if n == 1 && bytes@[0] == 0x2e {
            assert(bytes@ =~= seq![0x2eu8]);
        }
        if n == 2 && bytes@[0] == 0x2e && bytes@[1] == 0x2e {
            assert(bytes@ =~= seq![0x2eu8, 0x2eu8]);
        }
    }
    if bad || separator {
        return Err(FsError::Manifest("invalid carrier manifest name".to_owned()));
    }
    Ok(())
}

} // verus!
