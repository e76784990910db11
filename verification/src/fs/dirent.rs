//! Directory entries: variable-length records packed into directory blocks.

use super::{FsError, UB};
use crate::layout::{
    fill_zero, get16, get16_at, get64, get64_at, lemma_le_roundtrip, le16, le64, put16, put64,
    splice, write_at, zero_bytes, zeros,
};
use crate::primitives::str_from_utf8;
use vstd::prelude::*;
use vstd::slice::slice_subrange;
use vstd::string::*;
use vstd::utf8::*;

verus! {

broadcast use {encode_utf8_valid_utf8, encode_utf8_decode_utf8};

pub const FILE_TYPE_FILE: u8 = 1;

pub const FILE_TYPE_DIR: u8 = 2;

#[derive(Debug, Clone, PartialEq, Eq)]
pub struct DirEntry {
    pub inode: u64,
    pub rec_len: u16,
    pub name: String,
    pub file_type: u8,
}

/// Bytes a record needs for a name of `name_len` bytes: the 12-byte header
/// and the name, rounded up to a multiple of four.
pub open spec fn required_len_spec(name_len: int) -> int {
    ((12 + name_len + 3) / 4) * 4
}

/// The UTF-8 bytes of an entry's name.
pub open spec fn name_bytes(e: DirEntry) -> Seq<u8> {
    encode_utf8(e.name@)
}

/// The on-disk record of an entry: inode, record length, name length, file
/// type, the name, and zero padding up to the record length.
pub open spec fn entry_bytes(e: DirEntry) -> Seq<u8> {
    le64(e.inode) + le16(e.rec_len) + seq![name_bytes(e).len() as u8, e.file_type] + name_bytes(e)
        + zeros((e.rec_len - 12 - name_bytes(e).len()) as nat)
}

/// An entry that `encode_into` accepts and `decode` reads back.
pub open spec fn entry_well_formed(e: DirEntry) -> bool {
    &&& name_bytes(e).len() <= 255
    &&& e.rec_len >= required_len_spec(name_bytes(e).len() as int)
    &&& e.rec_len % 4 == 0
}

/// The record at `off` in `b` passes every check of `decode`.
pub open spec fn entry_valid_at(b: Seq<u8>, off: int) -> bool {
    let r = get16(b, off + 8) as int;
    let n = b[off + 10] as int;
    &&& off + 12 <= b.len()
    &&& r != 0
    &&& r % 4 == 0
    &&& off + r <= b.len()
    &&& 12 + n <= r
    &&& valid_utf8(b.subrange(off + 12, off + 12 + n))
}

/// `e` is what `decode` reads from the record at `off` in `b`.
pub open spec fn entry_at(b: Seq<u8>, off: int, e: DirEntry) -> bool {
    &&& e.inode == get64(b, off)
    &&& e.rec_len == get16(b, off + 8)
    &&& e.file_type == b[off + 11]
    &&& e.name@ == decode_utf8(b.subrange(off + 12, off + 12 + b[off + 10] as int))
}

/// A record written by `encode_into` decodes to the same inode, record
/// length, name and file type.
pub proof fn lemma_entry_roundtrip(buf: Seq<u8>, off: int, e: DirEntry)
    requires
        entry_well_formed(e),
        0 <= off,
        off + e.rec_len <= buf.len(),
    ensures
        entry_bytes(e).len() == e.rec_len,
        entry_valid_at(splice(buf, off, entry_bytes(e)), off),
        get64(splice(buf, off, entry_bytes(e)), off) == e.inode,
        get16(splice(buf, off, entry_bytes(e)), off + 8) == e.rec_len,
        splice(buf, off, entry_bytes(e))[off + 11] == e.file_type,
        decode_utf8(
            splice(buf, off, entry_bytes(e)).subrange(
                off + 12,
                off + 12 + splice(buf, off, entry_bytes(e))[off + 10] as int,
            ),
        ) == e.name@,
        splice(buf, off, entry_bytes(e)).len() == buf.len(),
        forall|k: int|
            0 <= k < buf.len() && !(off <= k < off + e.rec_len) ==> #[trigger] splice(buf, off, entry_bytes(e))[k]
                == buf[k],
        forall|d: DirEntry|
            entry_at(splice(buf, off, entry_bytes(e)), off, d) ==> d.inode == e.inode
                && d.rec_len == e.rec_len && d.file_type == e.file_type && d.name@ == e.name@,
{
    lemma_le_roundtrip();
    let nb = name_bytes(e);
    let eb = entry_bytes(e);
    let b = splice(buf, off, eb);
    assert(eb.len() == e.rec_len);
    assert(b.subrange(off, off + 8) =~= le64(e.inode));
    assert(b.subrange(off + 8, off + 10) =~= le16(e.rec_len));
    assert(b[off + 10] == nb.len() as u8);
    assert(b[off + 11] == e.file_type);
    assert(b.subrange(off + 12, off + 12 + nb.len()) =~= nb);
}

impl DirEntry {
    pub fn required_len(name_len: usize) -> (res: usize)
        requires
            name_len <= usize::MAX - 15,
        ensures
            res == required_len_spec(name_len as int),
    {
        (12 + name_len + 3) / 4 * 4
    }

    pub fn new(inode: u64, name: &str, file_type: u8, rec_len: usize) -> (res: Result<Self, FsError>)
        ensures
            (name.spec_bytes().len() > 255 || rec_len < required_len_spec(
                name.spec_bytes().len() as int,
            ) || rec_len > u16::MAX) <==> res is Err,
            res is Err ==> res matches Err(FsError::Manifest(_)),
            res matches Ok(e) ==> e.inode == inode && e.rec_len == rec_len && e.name@ == name@
                && e.file_type == file_type,
    {
        let name_len = name.as_bytes().len();
        if name_len > 255 || rec_len < Self::required_len(name_len) || rec_len > 65535 {
            return Err(FsError::Manifest("invalid directory entry size".to_owned()));
        }
        Ok(DirEntry { inode, rec_len: rec_len as u16, name: name.to_owned(), file_type })
    }

    /// Writes this record into `target` at `offset`, zero-filling it to its
    /// record length.
    pub fn encode_into(&self, target: &mut Vec<u8>, offset: usize) -> (res: Result<(), FsError>)
        requires
            offset <= old(target)@.len(),
        ensures
            (old(target)@.len() - offset < self.rec_len || self.rec_len < required_len_spec(
                name_bytes(*self).len() as int,
            )) <==> res is Err,
            res is Err ==> (res matches Err(FsError::Manifest(_)) && final(target)@ == old(target)@),
            res is Ok ==> final(target)@ == splice(old(target)@, offset as int, entry_bytes(*self)),
    {
        let rec_len = self.rec_len as usize;
        let name = self.name.as_str().as_bytes();
        let name_len = name.len();
        if target.len() - offset < rec_len || name_len > rec_len || rec_len < Self::required_len(
            name_len,
        ) {
            return Err(FsError::Manifest("directory entry does not fit".to_owned()));
        }
        let ghost start = target@;
        fill_zero(target, offset, rec_len);
        put64(target, offset, self.inode);
        put16(target, offset + 8, self.rec_len);
        target.set(offset + 10, name_len as u8);
        target.set(offset + 11, self.file_type);
        write_at(target, offset + 12, name);
        proof {
            lemma_le_roundtrip();
            assert(target@ =~= splice(start, offset as int, entry_bytes(*self)));
        }
        Ok(())
    }

    pub fn decode(block: &[u8], offset: usize) -> (res: Result<Self, FsError>)
        ensures
            res is Ok <==> entry_valid_at(block@, offset as int),
            res is Err ==> res matches Err(FsError::Manifest(_)),
            res matches Ok(e) ==> entry_at(block@, offset as int, e),
    {
        let len = block.len();
        if offset > usize::MAX - 12 {
            return Err(FsError::Manifest("directory entry offset overflow".to_owned()));
        }
        let header_end = offset + 12;
        if header_end > len {
            return Err(FsError::Manifest("truncated directory entry".to_owned()));
        }
        let inode = get64_at(block, offset);
        let rec_len = get16_at(block, offset + 8);
        let name_len = block[offset + 10] as usize;
        if offset > usize::MAX - rec_len as usize {
            return Err(FsError::Manifest("directory entry record overflow".to_owned()));
        }
        let end = offset + rec_len as usize;
        if rec_len == 0 || rec_len % 4 != 0 || end > len || 12 + name_len > rec_len as usize {
            return Err(FsError::Manifest("invalid directory entry record".to_owned()));
        }
        let name_end = header_end + name_len;
        let name = match str_from_utf8(slice_subrange(block, header_end, name_end)) {
            Some(s) => s.to_owned(),
            None => {
                return Err(FsError::Manifest("directory entry name is not UTF-8".to_owned()));
            },
        };
        Ok(DirEntry { inode, rec_len, name, file_type: block[offset + 11] })
    }
}

/// The first block of a new directory: "." for the directory itself in a
/// 16-byte record, then ".." for its parent spanning the rest of the block.
pub open spec fn initial_directory_bytes(ino: u64, parent: u64) -> Seq<u8> {
    le64(ino) + le16(16) + seq![1u8, FILE_TYPE_DIR] + seq![0x2eu8] + zeros(3) + le64(parent) + le16(
        (UB - 16) as u16,
    ) + seq![2u8, FILE_TYPE_DIR] + seq![0x2eu8, 0x2eu8] + zeros((UB - 16 - 14) as nat)
}

pub fn initial_directory_block(ino: u64, parent: u64) -> (res: Result<Vec<u8>, FsError>)
    ensures
        res is Ok,
        res matches Ok(b) ==> b@ == initial_directory_bytes(ino, parent),
{
    let mut block = zero_bytes(UB);
    let dot_len = DirEntry::required_len(1);
    proof {
        reveal_strlit(".");
        reveal_strlit("..");
        is_ascii_chars_encode_utf8("."@);
        is_ascii_chars_encode_utf8(".."@);
        assert(".".spec_bytes() =~= seq![0x2eu8]);
        assert("..".spec_bytes() =~= seq![0x2eu8, 0x2eu8]);
    }
    let dot = DirEntry::new(ino, ".", FILE_TYPE_DIR, dot_len)?;
    dot.encode_into(&mut block, 0)?;
    let dotdot = DirEntry::new(parent, "..", FILE_TYPE_DIR, UB - dot_len)?;
    dotdot.encode_into(&mut block, dot_len)?;
    proof {
        lemma_le_roundtrip();
        assert(name_bytes(dot) =~= seq![0x2eu8]);
        assert(name_bytes(dotdot) =~= seq![0x2eu8, 0x2eu8]);
        assert(block@ =~= initial_directory_bytes(ino, parent));
    }
    Ok(block)
}

} // verus!
