//! The filesystem layer: fixed-size blocks carved out of carrier capacity,
//! and the structures that live in them.

pub mod album;
pub mod bitmap;
pub mod block;
pub mod carrier_file;
pub mod crypto;
pub mod dirent;
pub mod format;
pub mod fuse;
pub mod inode;
pub mod listing;
pub mod stats;
pub mod superblock;
pub mod tree;

pub use album::AlbumFs;
pub use dirent::DirEntry;
pub use inode::Inode;

use crate::layout::{
    copy_range, get32, get32_at, lemma_get32_at, lemma_le_roundtrip, le32, push32, push_bytes,
    zero_bytes, zeros,
};
use crate::primitives::{crc32, crc32_of};
use crate::stego::{fault_of, CodecError, CodecFault};
use vstd::prelude::*;

verus! {

/// Physical block size: what one block occupies inside a carrier.
pub const PB: usize = 4096;

/// Bytes at the front of every physical block reserved for the nonce, tag
/// and CRC.
pub const BLOCK_HEADER: usize = 64;

/// Usable payload bytes per block.
pub const UB: usize = 4032;

/// Magic at the start of every superblock: "ALBUMFS" and a zero byte.
pub const SB_MAGIC: [u8; 8] = [0x41, 0x4c, 0x42, 0x55, 0x4d, 0x46, 0x53, 0x00];

/// Current on-disk version of the plaintext format.
pub const FS_VERSION: u32 = 2;

/// The magic bytes as a sequence.
pub open spec fn sb_magic() -> Seq<u8> {
    seq![0x41u8, 0x4cu8, 0x42u8, 0x55u8, 0x4du8, 0x46u8, 0x53u8, 0x00u8]
}

/// The superblock magic constant holds the magic bytes.
pub proof fn lemma_sb_magic_view()
    ensures
        SB_MAGIC@ == sb_magic(),
{
    assert(SB_MAGIC@ =~= sb_magic());
}

/// An error that says something about the request rather than about the
/// bytes in the carriers: a missing or present name, a full filesystem, or a
/// kind of inode the request does not apply to.
pub open spec fn request_error(e: FsError) -> bool {
    ||| e is NotFound
    ||| e is NoSpace
    ||| e is Exists
    ||| e is NotEmpty
    ||| e is NotDir
    ||| e is IsDir
}

#[derive(Debug)]
pub enum FsError {
    Codec(CodecError),
    Io(String),
    BlockCrc(u64),
    Auth,
    AnchorRequired,
    SuperblockCrc,
    BadMagic,
    NoPrimary,
    Manifest(String),
    BadBlock(u64),
    NoSpace,
    EmptyPool,
    AlreadyFormatted,
    NotFound,
    Exists,
    NotEmpty,
    NotDir,
    IsDir,
}

/// What a filesystem error means, without the text of its message.
pub enum FsFault {
    Codec(CodecFault),
    Io,
    BlockCrc(u64),
    Auth,
    AnchorRequired,
    SuperblockCrc,
    BadMagic,
    NoPrimary,
    Manifest,
    BadBlock(u64),
    NoSpace,
    EmptyPool,
    AlreadyFormatted,
    NotFound,
    Exists,
    NotEmpty,
    NotDir,
    IsDir,
}

pub open spec fn fs_fault(e: FsError) -> FsFault {
    match e {
        FsError::Codec(c) => FsFault::Codec(fault_of(c)),
        FsError::Io(_) => FsFault::Io,
        FsError::BlockCrc(b) => FsFault::BlockCrc(b),
        FsError::Auth => FsFault::Auth,
        FsError::AnchorRequired => FsFault::AnchorRequired,
        FsError::SuperblockCrc => FsFault::SuperblockCrc,
        FsError::BadMagic => FsFault::BadMagic,
        FsError::NoPrimary => FsFault::NoPrimary,
        FsError::Manifest(_) => FsFault::Manifest,
        FsError::BadBlock(b) => FsFault::BadBlock(b),
        FsError::NoSpace => FsFault::NoSpace,
        FsError::EmptyPool => FsFault::EmptyPool,
        FsError::AlreadyFormatted => FsFault::AlreadyFormatted,
        FsError::NotFound => FsFault::NotFound,
        FsError::Exists => FsFault::Exists,
        FsError::NotEmpty => FsFault::NotEmpty,
        FsError::NotDir => FsFault::NotDir,
        FsError::IsDir => FsFault::IsDir,
    }
}

/// The fault of a result, or its value.
pub open spec fn outcome<T>(r: Result<T, FsError>) -> Result<T, FsFault> {
    match r {
        Ok(v) => Ok(v),
        Err(e) => Err(fs_fault(e)),
    }
}

/// A payload padded with zeros to the usable block size.
pub open spec fn padded(payload: Seq<u8>) -> Seq<u8> {
    payload + zeros((UB - payload.len()) as nat)
}

/// The plaintext physical block for a payload: nonce and tag fields zero, the
/// CRC-32 of the padded payload at bytes 40..44, then the padded payload.
pub open spec fn physical_block_of(payload: Seq<u8>) -> Seq<u8> {
    zeros(40) + le32(crc32_of(padded(payload))) + zeros(20) + padded(payload)
}

/// What reading a plaintext physical block gives.
pub open spec fn read_physical_spec(lba: u64, blk: Seq<u8>) -> Result<Seq<u8>, ()> {
    if blk.len() != PB {
        Err(())
    } else if get32(blk, 40) != crc32_of(blk.subrange(BLOCK_HEADER as int, PB as int)) {
        Err(())
    } else {
        Ok(blk.subrange(BLOCK_HEADER as int, PB as int))
    }
}

// Plaintext physical blocks keep the crypto fields zero. The CRC covers the
// entire usable payload, including zero padding.
pub fn build_physical_block(payload: &[u8]) -> (blk: Vec<u8>)
    requires
        payload@.len() <= UB,
    ensures
        blk@ == physical_block_of(payload@),
        blk@.len() == PB,
{
    let mut body = Vec::new();
    push_bytes(&mut body, payload);
    let pad = zero_bytes(UB - payload.len());
    push_bytes(&mut body, pad.as_slice());
    assert(body@ =~= padded(payload@));
    let crc = crc32(body.as_slice());
    let mut blk = zero_bytes(40);
    push32(&mut blk, crc);
    let tail = zero_bytes(20);
    push_bytes(&mut blk, tail.as_slice());
    push_bytes(&mut blk, body.as_slice());
    proof {
        lemma_le_roundtrip();
    }
    blk
}

pub fn read_physical_block(lba: u64, blk: &[u8]) -> (res: Result<Vec<u8>, FsError>)
    ensures
        blk@.len() != PB ==> res matches Err(FsError::Manifest(_)),
        blk@.len() == PB && get32(blk@, 40) != crc32_of(blk@.subrange(BLOCK_HEADER as int, PB as int))
            ==> (res matches Err(FsError::BlockCrc(b)) && b == lba),
        read_physical_spec(lba, blk@) matches Ok(p) ==> res is Ok && res.unwrap()@ == p,
{
    if blk.len() != PB {
        return Err(FsError::Manifest("physical block has the wrong length".to_owned()));
    }
    let stored = get32_at(blk, 40);
    let body = copy_range(blk, BLOCK_HEADER, PB);
    if crc32(body.as_slice()) != stored {
        return Err(FsError::BlockCrc(lba));
    }
    Ok(body)
}

/// Reading back a plaintext physical block gives the padded payload that
/// built it.
pub proof fn lemma_physical_block_roundtrip(lba: u64, payload: Seq<u8>)
    requires
        payload.len() <= UB,
    ensures
        read_physical_spec(lba, physical_block_of(payload)) == Ok::<Seq<u8>, ()>(padded(payload)),
{
    let blk = physical_block_of(payload);
    lemma_le_roundtrip();
    assert(blk.subrange(BLOCK_HEADER as int, PB as int) =~= padded(payload));
    lemma_get32_at(zeros(40), crc32_of(padded(payload)), zeros(20) + padded(payload));
    assert(blk =~= zeros(40) + le32(crc32_of(padded(payload))) + (zeros(20) + padded(payload)));
}

} // verus!
