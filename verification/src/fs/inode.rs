//! Inodes: fixed 192-byte records in the inode table.

use super::{FsError, UB};
use crate::layout::{
    get32, get32_at, get64, get64_at, lemma_get32_at, lemma_get64_at, lemma_le_roundtrip, le32,
    le64, push32, push64, push_bytes, zero_bytes, zeros,
};
use vstd::array::*;
use vstd::prelude::*;

verus! {

pub const INODE_SIZE: usize = 192;

pub const INODES_PER_BLOCK: usize = 21;

pub const S_IFDIR: u32 = 0o040000;

pub const S_IFREG: u32 = 0o100000;

pub const S_IFMT: u32 = 0o170000;

#[derive(Debug, Clone, Copy, PartialEq, Eq)]
pub struct Inode {
    pub mode: u32,
    pub uid: u32,
    pub gid: u32,
    pub nlink: u32,
    pub size: u64,
    pub atime: u64,
    pub mtime: u64,
    pub ctime: u64,
    pub block_count: u32,
    pub direct: [u64; 12],
    pub single_indirect: u64,
    pub double_indirect: u64,
}

/// An inode whose every field is zero: the state of a free slot.
pub open spec fn is_zero_inode(i: Inode) -> bool {
    &&& i.mode == 0
    &&& i.uid == 0
    &&& i.gid == 0
    &&& i.nlink == 0
    &&& i.size == 0
    &&& i.atime == 0
    &&& i.mtime == 0
    &&& i.ctime == 0
    &&& i.block_count == 0
    &&& forall|k: int| 0 <= k < 12 ==> #[trigger] i.direct[k] == 0
    &&& i.single_indirect == 0
    &&& i.double_indirect == 0
}

impl Default for Inode {
    fn default() -> (res: Self)
        ensures
            is_zero_inode(res),
    {
        Inode {
            mode: 0,
            uid: 0,
            gid: 0,
            nlink: 0,
            size: 0,
            atime: 0,
            mtime: 0,
            ctime: 0,
            block_count: 0,
            direct: [0u64; 12],
            single_indirect: 0,
            double_indirect: 0,
        }
    }
}

/// The twelve direct pointers, little-endian, one after another.
pub open spec fn pointers_bytes(d: Seq<u64>) -> Seq<u8>
    decreases d.len(),
{
    if d.len() == 0 {
        Seq::empty()
    } else {
        pointers_bytes(d.drop_last()) + le64(d.last())
    }
}

/// The 192-byte on-disk form of an inode.
pub open spec fn inode_bytes(i: Inode) -> Seq<u8> {
    le32(i.mode) + le32(i.uid) + le32(i.gid) + le32(i.nlink) + le64(i.size) + le64(i.atime) + le64(
        i.mtime,
    ) + le64(i.ctime) + le32(i.block_count) + zeros(4) + pointers_bytes(i.direct@) + le64(
        i.single_indirect,
    ) + le64(i.double_indirect) + zeros(24)
}

/// `b` holds at least an inode record and its fields decode to `i`.
pub open spec fn inode_at(b: Seq<u8>, i: Inode) -> bool {
    &&& b.len() >= INODE_SIZE
    &&& i.mode == get32(b, 0)
    &&& i.uid == get32(b, 4)
    &&& i.gid == get32(b, 8)
    &&& i.nlink == get32(b, 12)
    &&& i.size == get64(b, 16)
    &&& i.atime == get64(b, 24)
    &&& i.mtime == get64(b, 32)
    &&& i.ctime == get64(b, 40)
    &&& i.block_count == get32(b, 48)
    &&& forall|k: int| 0 <= k < 12 ==> #[trigger] i.direct[k] == get64(b, 56 + 8 * k)
    &&& i.single_indirect == get64(b, 152)
    &&& i.double_indirect == get64(b, 160)
}

/// The encoded pointer list holds each pointer in its own eight bytes.
pub proof fn lemma_pointers_bytes(d: Seq<u64>)
    ensures
        pointers_bytes(d).len() == 8 * d.len(),
        forall|k: int|
            0 <= k < d.len() ==> #[trigger] pointers_bytes(d).subrange(8 * k, 8 * k + 8) == le64(
                d[k],
            ),
    decreases d.len(),
{
    lemma_le_roundtrip();
    if d.len() > 0 {
        let p = d.drop_last();
        lemma_pointers_bytes(p);
        assert forall|k: int| 0 <= k < d.len() implies #[trigger] pointers_bytes(d).subrange(
            8 * k,
            8 * k + 8,
        ) == le64(d[k]) by {
            if k < p.len() {
                assert(pointers_bytes(d).subrange(8 * k, 8 * k + 8) =~= pointers_bytes(p).subrange(
                    8 * k,
                    8 * k + 8,
                ));
            } else {
                assert(pointers_bytes(d).subrange(8 * k, 8 * k + 8) =~= le64(d.last()));
            }
        }
    }
}

/// Decoding the encoded form of an inode gives the inode back, and nothing
/// else decodes from it.
pub proof fn lemma_inode_roundtrip(i: Inode)
    ensures
        inode_bytes(i).len() == INODE_SIZE,
        inode_at(inode_bytes(i), i),
        forall|j: Inode| inode_at(inode_bytes(i), j) ==> j == i,
{
    lemma_le_roundtrip();
    lemma_pointers_bytes(i.direct@);
    let b = inode_bytes(i);
    assert(b.len() == INODE_SIZE);
    assert(b.subrange(0, 4) =~= le32(i.mode));
    assert(b.subrange(4, 8) =~= le32(i.uid));
    assert(b.subrange(8, 12) =~= le32(i.gid));
    assert(b.subrange(12, 16) =~= le32(i.nlink));
    assert(b.subrange(16, 24) =~= le64(i.size));
    assert(b.subrange(24, 32) =~= le64(i.atime));
    assert(b.subrange(32, 40) =~= le64(i.mtime));
    assert(b.subrange(40, 48) =~= le64(i.ctime));
    assert(b.subrange(48, 52) =~= le32(i.block_count));
    assert(b.subrange(152, 160) =~= le64(i.single_indirect));
    assert(b.subrange(160, 168) =~= le64(i.double_indirect));
    assert forall|k: int| 0 <= k < 12 implies #[trigger] i.direct[k] == get64(b, 56 + 8 * k) by {
        assert(b.subrange(56 + 8 * k, 56 + 8 * k + 8) =~= pointers_bytes(i.direct@).subrange(
            8 * k,
            8 * k + 8,
        ));
    }
    assert forall|j: Inode| inode_at(b, j) implies j == i by {
        broadcast use vstd::array::group_array_axioms;

        assert(j.direct =~= i.direct);
    }
}

/// The bytes of an inode record determine the inode.
pub proof fn lemma_inode_at_unique(b: Seq<u8>, i: Inode, j: Inode)
    requires
        inode_at(b, i),
        inode_at(b, j),
    ensures
        i == j,
{
    broadcast use vstd::array::group_array_axioms;

    assert(j.direct =~= i.direct);
}

impl Inode {
    pub fn encode(&self) -> (bytes: Vec<u8>)
        ensures
            bytes@ == inode_bytes(*self),
            bytes@.len() == INODE_SIZE,
    {
        let mut bytes = Vec::new();
        push32(&mut bytes, self.mode);
        push32(&mut bytes, self.uid);
        push32(&mut bytes, self.gid);
        push32(&mut bytes, self.nlink);
        push64(&mut bytes, self.size);
        push64(&mut bytes, self.atime);
        push64(&mut bytes, self.mtime);
        push64(&mut bytes, self.ctime);
        push32(&mut bytes, self.block_count);
        let pad = zero_bytes(4);
        push_bytes(&mut bytes, pad.as_slice());
        let ghost prefix = bytes@;
        let mut index: usize = 0;
        while index < 12
            invariant
                index <= 12,
                bytes@ == prefix + pointers_bytes(self.direct@.take(index as int)),
            decreases 12 - index,
        {
            push64(&mut bytes, self.direct[index]);
            proof {
                assert(self.direct@.take(index + 1).drop_last() =~= self.direct@.take(
                    index as int,
                ));
                assert(self.direct@.take(index + 1).last() == self.direct@[index as int]);
            }
            index += 1;
        }
        assert(self.direct@.take(12) =~= self.direct@);
        push64(&mut bytes, self.single_indirect);
        push64(&mut bytes, self.double_indirect);
        let tail = zero_bytes(24);
        push_bytes(&mut bytes, tail.as_slice());
        proof {
            lemma_inode_roundtrip(*self);
        }
        bytes
    }

    pub fn decode(bytes: &[u8]) -> (res: Result<Self, FsError>)
        ensures
            bytes@.len() < INODE_SIZE <==> res is Err,
            res is Err ==> res matches Err(FsError::Manifest(_)),
            res matches Ok(i) ==> inode_at(bytes@, i),
    {
        if bytes.len() < INODE_SIZE {
            return Err(FsError::Manifest("truncated inode".to_owned()));
        }
        let mut direct = [0u64; 12];
        let mut index: usize = 0;
        while index < 12
            invariant
                index <= 12,
                bytes@.len() >= INODE_SIZE,
                forall|k: int| 0 <= k < index ==> #[trigger] direct[k] == get64(bytes@, 56 + 8 * k),
            decreases 12 - index,
        {
            let value = get64_at(bytes, 56 + index * 8);
            direct[index] = value;
            index += 1;
        }
        Ok(Inode {
            mode: get32_at(bytes, 0),
            uid: get32_at(bytes, 4),
            gid: get32_at(bytes, 8),
            nlink: get32_at(bytes, 12),
            size: get64_at(bytes, 16),
            atime: get64_at(bytes, 24),
            mtime: get64_at(bytes, 32),
            ctime: get64_at(bytes, 40),
            block_count: get32_at(bytes, 48),
            direct,
            single_indirect: get64_at(bytes, 152),
            double_indirect: get64_at(bytes, 160),
        })
    }

    pub fn is_dir(&self) -> (res: bool)
        ensures
            res == (self.mode & S_IFMT == S_IFDIR),
    {
        self.mode & S_IFMT == S_IFDIR
    }

    pub fn is_file(&self) -> (res: bool)
        ensures
            res == (self.mode & S_IFMT == S_IFREG),
    {
        self.mode & S_IFMT == S_IFREG
    }
}

} // verus!
