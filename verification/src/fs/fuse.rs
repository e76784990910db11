//! What the kernel-facing adapter decides: which directory entries a page
//! of a listing holds, and how an attribute change applies to an inode.

use super::album::{
    lemma_inode_write_then_read, lemma_stored_inode_frame, lemma_stored_inode_unique, stored_inode, AlbumFs,
};
use super::block::StoreView;
use super::superblock::Superblock;
use super::inode::{Inode, S_IFMT};
use super::FsError;
use vstd::prelude::*;

verus! {

/// The first index a listing page starts from: its offset, clamped at 0.
pub open spec fn page_start(offset: i64) -> int {
    if offset < 0 {
        0
    } else if offset > usize::MAX {
        usize::MAX as int
    } else {
        offset as int
    }
}

/// The number of entries a page holds.
pub open spec fn page_len(entry_count: usize, offset: i64, max_entries: usize) -> int {
    let start = page_start(offset);
    if start >= entry_count {
        0
    } else if entry_count - start < max_entries {
        entry_count - start
    } else {
        max_entries as int
    }
}

/// The entries of a directory listing that a page starting at `offset`
/// holds, at most `max_entries` of them: each entry's index and the offset
/// that resumes after it.
pub fn readdir_page(entry_count: usize, offset: i64, max_entries: usize) -> (page: Vec<(usize, i64)>)
    ensures
        page@.len() == page_len(entry_count, offset, max_entries),
        forall|k: int|
            0 <= k < page@.len() ==> (#[trigger] page@[k]).0 == page_start(offset) + k && page@[k].1
                == (page_start(offset) + k + 1) as i64,
{
    let start: usize = if offset < 0 {
        0
    } else if offset as u64 > usize::MAX as u64 {
        usize::MAX
    } else {
        offset as usize
    };
    let mut page: Vec<(usize, i64)> = Vec::new();
    let mut index = start;
    while index < entry_count && page.len() < max_entries
        invariant
            start == page_start(offset),
            start <= index,
            index == start + page@.len(),
            page@.len() <= max_entries,
            index <= entry_count || page@.len() == 0,
            forall|k: int|
                0 <= k < page@.len() ==> (#[trigger] page@[k]).0 == start + k && page@[k].1 == (start
                    + k + 1) as i64,
        decreases entry_count - index,
    {
        let next = (index as u64 + 1) as i64;
        proof {
            assert(next == (index + 1) as i64) by (bit_vector)
                requires
                    next == ((index as u64 + 1) as u64) as i64,
                    index < 0xffff_ffff_ffff_ffffu64,
            ;
        }
        page.push((index, next));
        index += 1;
    }
    page
}

/// Requested attribute changes; times are in seconds since the epoch.
#[derive(Debug, Clone, Copy)]
pub struct AttrChanges {
    pub mode: Option<u32>,
    pub uid: Option<u32>,
    pub gid: Option<u32>,
    pub atime: Option<u64>,
    pub mtime: Option<u64>,
    pub ctime: Option<u64>,
}

/// The inode with the requested changes applied; a new mode keeps the
/// inode's file type and takes the permission bits.
pub open spec fn changed_inode(inode: Inode, changes: AttrChanges) -> Inode {
    Inode {
        mode: match changes.mode {
            Some(m) => (inode.mode & S_IFMT) | (m & 0o7777),
            None => inode.mode,
        },
        uid: match changes.uid {
            Some(u) => u,
            None => inode.uid,
        },
        gid: match changes.gid {
            Some(g) => g,
            None => inode.gid,
        },
        atime: match changes.atime {
            Some(t) => t,
            None => inode.atime,
        },
        mtime: match changes.mtime {
            Some(t) => t,
            None => inode.mtime,
        },
        ctime: match changes.ctime {
            Some(t) => t,
            None => inode.ctime,
        },
        ..inode
    }
}

/// `u` is inode `ino` as stored, with `changes` applied.
pub open spec fn changed_from(s: StoreView, sb: Superblock, ino: u64, changes: AttrChanges, u: Inode) -> bool {
    exists|i: Inode| #[trigger] stored_inode(s, sb, ino, i) && u == changed_inode(i, changes)
}

/// Changing attributes sets exactly the fields asked for: a requested owner,
/// group or time is the new value and an absent one stays; a new mode takes
/// its permission bits and never changes the file's type; size, links and
/// the block tree are untouched.
pub proof fn lemma_attr_changes(inode: Inode, changes: AttrChanges)
    ensures
        changes.uid matches Some(u) ==> changed_inode(inode, changes).uid == u,
        changes.uid is None ==> changed_inode(inode, changes).uid == inode.uid,
        changes.gid matches Some(g) ==> changed_inode(inode, changes).gid == g,
        changes.gid is None ==> changed_inode(inode, changes).gid == inode.gid,
        changes.atime matches Some(t) ==> changed_inode(inode, changes).atime == t,
        changes.atime is None ==> changed_inode(inode, changes).atime == inode.atime,
        changes.mtime matches Some(t) ==> changed_inode(inode, changes).mtime == t,
        changes.mtime is None ==> changed_inode(inode, changes).mtime == inode.mtime,
        changes.ctime matches Some(t) ==> changed_inode(inode, changes).ctime == t,
        changes.ctime is None ==> changed_inode(inode, changes).ctime == inode.ctime,
        changed_inode(inode, changes).mode & S_IFMT == inode.mode & S_IFMT,
        changes.mode matches Some(m) ==> changed_inode(inode, changes).mode & 0o7777 == m & 0o7777,
        changes.mode is None ==> changed_inode(inode, changes).mode == inode.mode,
        changed_inode(inode, changes).size == inode.size,
        changed_inode(inode, changes).nlink == inode.nlink,
        changed_inode(inode, changes).block_count == inode.block_count,
        changed_inode(inode, changes).direct == inode.direct,
        changed_inode(inode, changes).single_indirect == inode.single_indirect,
        changed_inode(inode, changes).double_indirect == inode.double_indirect,
{
    if let Some(m) = changes.mode {
        let a = inode.mode;
        assert(((a & 0o170000u32) | (m & 0o7777u32)) & 0o170000u32 == a & 0o170000u32) by (bit_vector);
        assert(((a & 0o170000u32) | (m & 0o7777u32)) & 0o7777u32 == m & 0o7777u32) by (bit_vector);
    }
}

pub fn apply_attr_changes(inode: Inode, changes: AttrChanges) -> (res: Inode)
    ensures
        res == changed_inode(inode, changes),
        res.uid == (match changes.uid {
            Some(u) => u,
            None => inode.uid,
        }),
        res.gid == (match changes.gid {
            Some(g) => g,
            None => inode.gid,
        }),
        res.atime == (match changes.atime {
            Some(t) => t,
            None => inode.atime,
        }),
        res.mtime == (match changes.mtime {
            Some(t) => t,
            None => inode.mtime,
        }),
        res.ctime == (match changes.ctime {
            Some(t) => t,
            None => inode.ctime,
        }),
        res.mode & S_IFMT == inode.mode & S_IFMT,
        changes.mode matches Some(m) ==> res.mode & 0o7777 == m & 0o7777,
        changes.mode is None ==> res.mode == inode.mode,
        res.size == inode.size && res.nlink == inode.nlink && res.block_count == inode.block_count,
        res.direct == inode.direct && res.single_indirect == inode.single_indirect && res.double_indirect
            == inode.double_indirect,
{
    proof {
        lemma_attr_changes(inode, changes);
    }
    let mut inode = inode;
    if let Some(m) = changes.mode {
        inode.mode = (inode.mode & S_IFMT) | (m & 0o7777);
    }
    if let Some(u) = changes.uid {
        inode.uid = u;
    }
    if let Some(g) = changes.gid {
        inode.gid = g;
    }
    if let Some(t) = changes.atime {
        inode.atime = t;
    }
    if let Some(t) = changes.mtime {
        inode.mtime = t;
    }
    if let Some(t) = changes.ctime {
        inode.ctime = t;
    }
    inode
}

impl AlbumFs {
    /// Applies an attribute change: the new size first, then the other
    /// attributes, written back and synced.
    pub fn setattr(&mut self, ino: u64, size: Option<u64>, changes: AttrChanges) -> (res: Result<
        Inode,
        FsError,
    >)
        requires
            old(self).wf(),
        ensures
            final(self).wf(),
            final(self).superblock() == old(self).superblock(),
            ino == 0 || ino > old(self).superblock().inode_count ==> (res matches Err(
                FsError::NotFound,
            )),
            res is Ok && !old(self).store_view().encrypted ==> stored_inode(
                final(self).store_view(),
                final(self).superblock(),
                ino,
                res->Ok_0,
            ),
            res is Ok && size is None ==> changed_from(
                old(self).store_view(),
                old(self).superblock(),
                ino,
                changes,
                res->Ok_0,
            ),
            res is Ok && size is Some && !old(self).store_view().encrypted ==> res->Ok_0.size == size->Some_0,
    {
        let ghost enc = self.store_view().encrypted;
        if let Some(new_size) = size {
            self.truncate(ino, new_size)?;
        }
        let ghost s0 = self.store_view();
        let inode = self.getattr(ino)?;
        proof {
            if size is Some && !enc {
                let j = choose|i: Inode| #[trigger] stored_inode(s0, self.superblock(), ino, i) && i.size == size->Some_0;
                lemma_stored_inode_unique(s0, self.superblock(), ino, inode, j);
            }
        }
        let updated = apply_attr_changes(inode, changes);
        let ghost s1 = self.store_view();
        self.write_inode(ino, &updated)?;
        let ghost s2 = self.store_view();
        proof {
            if !enc {
                lemma_inode_write_then_read(s1, s2, self.superblock(), ino, updated);
            }
        }
        self.sync()?;
        proof {
            if !enc {
                lemma_stored_inode_frame(s2, self.store_view(), self.superblock(), ino);
            }
        }
        Ok(updated)
    }
}

} // verus!
