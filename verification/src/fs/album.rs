//! The filesystem: inodes in a table, files mapped to blocks through twelve
//! direct pointers, one single-indirect and one double-indirect block, and
//! directories as blocks of variable-length entries.

use super::bitmap::Bitmap;
use super::block::{
    chunk_fits, chunk_writable, lemma_fits_writable, lemma_flushable_loaded, lemma_loaded_from_blocks, store_flushable, lemma_read_after_write, loaded_from, physical_block, read_block_spec,
    same_frame, store_wf, written_block, BlockStore, Carrier, StoreView,
};
use super::dirent::{
    entry_bytes, entry_well_formed, initial_directory_block, initial_directory_bytes, name_bytes,
    required_len_spec, lemma_entry_roundtrip, DirEntry, FILE_TYPE_DIR,
    FILE_TYPE_FILE,
};
use super::format::{
    bitmap_len, ceil_div, div_ceil, holds_written, load_bitmap, stored_bitmap, open_plaintext, open_with_anchor, same_name,
    write_bitmap, opened_store, plain_pool_ok, bitmap_bytes_of, first_primary, primary_superblock, anchor_bootstrap, bootstrap_plaintext,
};
use super::superblock::{decode_spec, SuperblockFault, SuperblockView, CRYPTO_FLAG_ENCRYPTED};
use super::listing::{
    block_entries, dir_listing, entries_view, entry_view, find_entry, first_named, insert_record,
    lemma_found_is_live, lemma_initial_directory_listing,
    lemma_block_listing, lemma_listing_err_persists, lemma_listing_frame, lemma_listing_one_write,
    lemma_block_listing_bytes, lemma_find_concat, lemma_listing_append, lemma_listing_outside, lemma_listing_piece,
    lemma_listing_replace, lemma_listing_same_pieces, lemma_new_block_records, block_listing,
    records_from, room_from,
    lemma_listing_same_reads, listed_view, listing_upto, live_entries,
};
use super::inode::{
    inode_at, inode_bytes, is_zero_inode, lemma_inode_roundtrip, Inode, INODE_SIZE, S_IFDIR, S_IFMT,
    S_IFREG,
};
use super::superblock::Superblock;
use super::tree::{
    file_block, file_byte, file_ok, lemma_byte_in_block, lemma_direct_in_data, lemma_direct_distinct, nonzero, lemma_file_block_loaded, lemma_file_byte_loaded, lemma_map_alloc,
    lemma_entry_step, lemma_loaded_step, lemma_map_facts, lemma_map_loaded, lemma_map_make,
    lemma_map_start, lemma_piece_bytes, lemma_progress_facts, lemma_progress_frame,
    lemma_progress_loaded, lemma_progress_map, lemma_progress_pointers, lemma_progress_start,
    lemma_progress_write, lemma_root_step, write_progress, lemma_file_ok_more_used, lemma_read_same, lemma_set_direct, lemma_set_double, lemma_set_entry, lemma_tree_frame,
    lemma_same_pointers, lemma_set_single, map_grown, slot_block, slot_of, RefSlot, pointer_in, lemma_get64_splice,
};
use super::{fs_fault, request_error, padded, FsError, FsFault, UB};
use crate::layout::{
    copy_range, get64, get64_at, le64, push_bytes, put64, splice, write_at, zero_bytes, zeros,
};
use crate::primitives::now;
use vstd::prelude::*;
use vstd::string::StringSliceAdditionalSpecFns;
use vstd::utf8::encode_utf8;

verus! {

/// Block pointers an indirect block holds.
pub const POINTERS_PER_BLOCK: u64 = 504;

pub struct AlbumFs {
    pub(crate) store: BlockStore,
    pub(crate) sb: Superblock,
    pub(crate) bitmap: Bitmap,
}

/// Where inode `ino` lives: its table block and its offset in that block.
pub open spec fn inode_slot(inode_table_start: u64, inode_count: u64, ino: u64) -> Option<(u64, int)> {
    if ino == 0 || ino > inode_count || inode_table_start + (ino - 1) / 21 > u64::MAX {
        None
    } else {
        Some((((inode_table_start + (ino - 1) / 21) as u64), ((ino - 1) % 21) * 192))
    }
}

/// The inode stored at `ino` of a store, or why it cannot be read.
pub open spec fn stored_inode(s: StoreView, sb: Superblock, ino: u64, i: Inode) -> bool {
    match inode_slot(sb.inode_table_start, sb.inode_count, ino) {
        None => false,
        Some((b, o)) => match read_block_spec(s, b) {
            Ok(p) => inode_at(p.subrange(o, o + INODE_SIZE), i),
            Err(_) => false,
        },
    }
}

/// `r` is what directory `dir` lists under `name`: the inode of its first
/// live record of that name, or `None` where it has none.
pub open spec fn named_in(s: StoreView, sb: Superblock, dir: u64, name: Seq<char>, r: Option<u64>) -> bool {
    exists|p: Inode, l: Seq<(u64, Seq<char>, u8)>|
        #![trigger dir_listing(s, p), find_entry(l, name)]
        stored_inode(s, sb, dir, p) && p.mode & S_IFMT == S_IFDIR && dir_listing(s, p) == Ok::<
            Seq<(u64, Seq<char>, u8)>,
            FsFault,
        >(l) && find_entry(l, name) == r
}

/// Inode `ino` has a slot and its table block reads.
pub open spec fn inode_readable(s: StoreView, sb: Superblock, ino: u64) -> bool {
    match inode_slot(sb.inode_table_start, sb.inode_count, ino) {
        None => false,
        Some((b, o)) => read_block_spec(s, b) is Ok,
    }
}

/// Block `new` holds inode `ino`'s table block as `old` read it, with
/// `inode`'s record written at the inode's offset.
pub open spec fn inode_written(old: StoreView, new: StoreView, sb: Superblock, ino: u64, inode: Inode) -> bool {
    match inode_slot(sb.inode_table_start, sb.inode_count, ino) {
        None => false,
        Some((b, o)) => match read_block_spec(old, b) {
            Ok(p) => holds_written(new, old, b, splice(p, o, inode_bytes(inode))),
            Err(_) => false,
        },
    }
}

/// How many bytes a read of `len` bytes at `offset` gives from a file of
/// `size` bytes.
pub open spec fn read_len(size: u64, offset: u64, len: usize) -> int {
    if offset >= size || len == 0 {
        0
    } else if size < offset + len {
        size - offset
    } else {
        len as int
    }
}

/// Directory `dir` takes a new entry `name`: the filesystem is plaintext
/// with a sound layout, the directory is in good order with room for one
/// more block, and no live record of it is named `name`.
#[verifier::opaque]
pub open spec fn dir_takes(f: AlbumFs, dir: u64, name: Seq<char>) -> bool {
    &&& dir_fits(f, dir)
    &&& named_in(f.store_view(), f.superblock(), dir, name, None)
}

/// A plaintext pool whose filesystem opens: the pool opens, its block count
/// fits in memory, and in every store that opening can build from it the
/// bitmap reads.
pub open spec fn plain_fs_opens(pool: Seq<Carrier>) -> bool {
    &&& plain_pool_ok(pool)
    &&& first_primary(pool, 0) matches Some(p) && primary_superblock(p) matches Some(v) && v.total_blocks / 8
        < usize::MAX && forall|s: StoreView|
        #[trigger] opened_store(pool, v, s) ==> (v.bitmap_start <= v.inode_table_start ==> stored_bitmap(
            s,
            v.bitmap_start,
            (v.inode_table_start - v.bitmap_start) as nat,
            bitmap_len(v.total_blocks) as nat,
        ) is Ok)
}

/// A plaintext filesystem whose changes can all be written back: the blocks
/// of its bitmap read, every chunk takes a payload of its length back into
/// its image, and every chunk that waits to be written has its bytes.
pub open spec fn sync_ready(f: AlbumFs) -> bool {
    &&& !f.store_view().encrypted
    &&& store_flushable(f.store_view())
    &&& f.superblock().bitmap_start <= f.superblock().inode_table_start ==> forall|lba: u64|
        f.superblock().bitmap_start <= lba < f.superblock().inode_table_start ==> #[trigger] physical_block(
            f.store_view(),
            lba,
        ) is Ok
}

/// Directory `dir` of a plaintext filesystem with a sound layout is in good
/// order with room for one more block.
pub open spec fn dir_fits(f: AlbumFs, dir: u64) -> bool {
    &&& file_in_order(f, dir)
    &&& forall|i: Inode|
        #[trigger] stored_inode(f.store_view(), f.superblock(), dir, i) ==> i.size + UB <= u64::MAX
}

/// What `dir_takes` gives of the directory's stored inode `p`.
#[verifier::opaque]
pub open spec fn dir_takes_facts(s: StoreView, sb: Superblock, used: Seq<bool>, p: Inode, name: Seq<char>) -> bool {
    &&& !s.encrypted
    &&& layout_ok(sb)
    &&& file_ok(s, used, sb.data_start, p)
    &&& p.size + UB <= u64::MAX
    &&& dir_listing(s, p) is Ok
    &&& find_entry(dir_listing(s, p)->Ok_0, name) is None
}

/// `i` with its size set to `size`.
pub open spec fn resized(i: Inode, size: u64) -> Inode {
    Inode { size: size, ..i }
}

/// Inode `ino` is stored and free: its mode is zero.
pub open spec fn inode_free(s: StoreView, sb: Superblock, ino: u64) -> bool {
    exists|i: Inode| #[trigger] stored_inode(s, sb, ino, i) && i.mode == 0
}

/// Inode `ino` is stored with size `size`.
pub open spec fn inode_sized(s: StoreView, sb: Superblock, ino: u64, size: u64) -> bool {
    exists|i: Inode| #[trigger] stored_inode(s, sb, ino, i) && i.size == size
}

/// Inode `ino` is stored and in use: its mode is not zero.
pub open spec fn inode_in_use(s: StoreView, sb: Superblock, ino: u64) -> bool {
    exists|i: Inode| #[trigger] stored_inode(s, sb, ino, i) && i.mode != 0
}

/// How many of inodes `1..=n` are in use.
pub open spec fn used_count(s: StoreView, sb: Superblock, n: nat) -> nat
    decreases n,
{
    if n == 0 {
        0
    } else {
        used_count(s, sb, (n - 1) as nat) + if inode_in_use(s, sb, n as u64) {
            1nat
        } else {
            0nat
        }
    }
}

/// Every inode stored for directory `dir` leaves room for one more block
/// of records.
pub open spec fn dir_has_room(s: StoreView, sb: Superblock, dir: u64) -> bool {
    forall|i: Inode| #[trigger] stored_inode(s, sb, dir, i) ==> i.size + UB <= u64::MAX
}

/// Directory `dir` is stored as a directory whose records are `l`.
pub open spec fn dir_lists(s: StoreView, sb: Superblock, dir: u64, l: Seq<(u64, Seq<char>, u8)>) -> bool {
    exists|p: Inode|
        #[trigger] stored_inode(s, sb, dir, p) && p.mode & S_IFMT == S_IFDIR && dir_listing(s, p) == Ok::<
            Seq<(u64, Seq<char>, u8)>,
            FsFault,
        >(l)
}

/// `n` is "." or "..".
pub open spec fn dot_name(n: Seq<char>) -> bool {
    n == "."@ || n == ".."@
}

/// Every record of `l` is named "." or "..".
pub open spec fn only_dots(l: Seq<(u64, Seq<char>, u8)>) -> bool {
    forall|k: int| 0 <= k < l.len() ==> #[trigger] dot_name(l[k].1)
}

/// Directory `dir` names under `name` a directory that lists nothing but
/// "." and "..".
pub open spec fn empty_dir_named(s: StoreView, sb: Superblock, dir: u64, name: Seq<char>) -> bool {
    exists|d: u64, l: Seq<(u64, Seq<char>, u8)>|
        #![trigger named_in(s, sb, dir, name, Some(d)), dir_lists(s, sb, d, l)]
        d != 0 && named_in(s, sb, dir, name, Some(d)) && dir_lists(s, sb, d, l) && only_dots(live_entries(l))
}

/// Inode `ino` is a directory of the given mode bits that lists "." for
/// itself and ".." for `parent`, and nothing else.
pub open spec fn new_directory(s: StoreView, sb: Superblock, ino: u64, parent: u64, mode: u32) -> bool {
    exists|i: Inode|
        #[trigger] stored_inode(s, sb, ino, i) && i.mode == S_IFDIR | (mode & 0o7777) && i.nlink == 2
            && dir_listing(s, i) == Ok::<Seq<(u64, Seq<char>, u8)>, FsFault>(
            seq![(ino, "."@, FILE_TYPE_DIR), (parent, ".."@, FILE_TYPE_DIR)],
        )
}

/// Every byte of file `i` from `offset` on, below its size and within `len`
/// bytes, can be read.
pub open spec fn bytes_readable(s: StoreView, i: Inode, offset: int, len: int) -> bool {
    forall|p: int| offset <= p < i.size && p < offset + len ==> #[trigger] file_byte(s, i, p) is Ok
}

/// Every block that a directory's size spans is mapped, reads, and holds
/// records that decode.
pub open spec fn dir_blocks_listed(s: StoreView, p: Inode) -> bool {
    forall|k: u64| k < div_ceil(p.size as int, UB as int) ==> (#[trigger] block_listing(s, p, k) matches Ok(Some(_)))
}

/// Block `k` of a directory is mapped, reads, and has room for a record of
/// `need` bytes.
#[verifier::opaque]
pub open spec fn block_with_room(s: StoreView, p: Inode, k: u64, need: int) -> bool {
    file_block(s, p, k) matches Ok(Some(b)) && (read_block_spec(s, b) matches Ok(bytes) && room_from(bytes, 0, need))
}

/// Some block of a directory from block `from` on has room for a record of
/// `need` bytes.
pub open spec fn dir_block_with_room(s: StoreView, p: Inode, from: u64, need: int) -> bool {
    exists|k: u64| from <= k < div_ceil(p.size as int, UB as int) && #[trigger] block_with_room(s, p, k, need)
}

/// A directory block without room leaves the room to a later block.
proof fn lemma_room_moves_on(s: StoreView, p: Inode, k: u64, need: int)
    requires
        dir_block_with_room(s, p, k, need),
        !block_with_room(s, p, k, need),
        k < u64::MAX,
    ensures
        dir_block_with_room(s, p, (k + 1) as u64, need),
{
    let j = choose|j: u64| k <= j < div_ceil(p.size as int, UB as int) && #[trigger] block_with_room(s, p, j, need);
    assert(j != k);
}

/// Loading leaves what a directory block lists as it was.
proof fn lemma_block_listing_loaded(a: StoreView, b: StoreView, p: Inode, k: u64)
    requires
        loaded_from(a, b),
        store_wf(a),
    ensures
        block_listing(b, p, k) == block_listing(a, p, k),
{
    lemma_block_listing(a, p, k);
    lemma_block_listing(b, p, k);
    lemma_file_block_loaded(a, b, p, k);
    match file_block(a, p, k) {
        Ok(Some(x)) => {
            lemma_loaded_from_blocks(a, b, x);
        },
        _ => {},
    }
}

/// Loading leaves an inode as readable as it was.
proof fn lemma_readable_loaded(a: StoreView, b: StoreView, sb: Superblock, ino: u64)
    requires
        loaded_from(a, b),
        store_wf(a),
    ensures
        inode_readable(b, sb, ino) == inode_readable(a, sb, ino),
{
    match inode_slot(sb.inode_table_start, sb.inode_count, ino) {
        Some((t, _)) => {
            lemma_loaded_from_blocks(a, b, t);
        },
        None => {},
    }
}

/// The inner pointer block that the double-indirect block of a file names
/// for block `index`, as the store reads it.
pub open spec fn double_inner(s: StoreView, i: Inode, index: u64) -> u64 {
    pointer_in(s, i.double_indirect, (index - 12 - POINTERS_PER_BLOCK) / POINTERS_PER_BLOCK as int)->Ok_0
}

/// Two inodes of the same kind and size over the same tree of blocks.
pub open spec fn same_tree(a: Inode, b: Inode) -> bool {
    &&& a.direct == b.direct
    &&& a.single_indirect == b.single_indirect
    &&& a.double_indirect == b.double_indirect
    &&& a.size == b.size
    &&& a.mode == b.mode
}

/// In a plaintext filesystem, the inode that `write_inode` wrote is the one
/// `read_inode` reads back, and no other.
pub proof fn lemma_inode_write_then_read(old: StoreView, new: StoreView, sb: Superblock, ino: u64, inode: Inode)
    requires
        !old.encrypted,
        same_frame(old, new),
        inode_written(old, new, sb, ino, inode),
    ensures
        stored_inode(new, sb, ino, inode),
        forall|j: Inode| stored_inode(new, sb, ino, j) ==> j == inode,
{
    let (b, o) = inode_slot(sb.inode_table_start, sb.inode_count, ino)->Some_0;
    let p = read_block_spec(old, b)->Ok_0;
    let payload = splice(p, o, inode_bytes(inode));
    let blk = physical_block(new, b)->Ok_0;
    lemma_inode_roundtrip(inode);
    assert(p.len() == UB);
    assert(payload.len() == UB);
    assert(payload.subrange(o, o + INODE_SIZE) =~= inode_bytes(inode));
    assert(written_block(new, b, payload, blk));
    lemma_read_after_write(new, b, payload, blk);
    assert(padded(payload) =~= payload);
}

/// The inode table sits after the bitmap and below the data area, which
/// starts past block zero.
pub open spec fn layout_ok(sb: Superblock) -> bool {
    &&& sb.bitmap_start <= sb.inode_table_start
    &&& sb.inode_table_start + (sb.inode_count + 20) / 21 <= sb.data_start
    &&& sb.data_start > 0
}

/// File `ino` of a plaintext filesystem with a sound layout, with its
/// tree of blocks in good order.
pub open spec fn file_in_order(f: AlbumFs, ino: u64) -> bool {
    &&& !f.store_view().encrypted
    &&& layout_ok(f.superblock())
    &&& forall|i: Inode|
        #[trigger] stored_inode(f.store_view(), f.superblock(), ino, i) ==> file_ok(
            f.store_view(),
            f.blocks_in_use(),
            f.superblock().data_start,
            i,
        )
}

/// What writing `data` at `offset` into file `ino` made of it: the file
/// holds `data` from `offset` on and its old bytes elsewhere, and its size
/// grew to the write's end where that lies past it.
pub open spec fn file_written(f0: AlbumFs, f1: AlbumFs, ino: u64, offset: u64, data: Seq<u8>) -> bool {
    exists|i0: Inode, i1: Inode|
        #![trigger stored_inode(f0.store_view(), f0.superblock(), ino, i0), stored_inode(f1.store_view(), f1.superblock(), ino, i1)]
        {
            &&& offset + data.len() <= u64::MAX
            &&& stored_inode(f0.store_view(), f0.superblock(), ino, i0)
            &&& stored_inode(f1.store_view(), f1.superblock(), ino, i1)
            &&& i1.size == if offset + data.len() > i0.size {
                (offset + data.len()) as u64
            } else {
                i0.size
            }
            &&& forall|pos: int|
                0 <= pos <= u64::MAX ==> #[trigger] file_byte(f1.store_view(), i1, pos) == if offset
                    <= pos < offset + data.len() {
                    Ok::<u8, FsFault>(data[pos - offset])
                } else {
                    file_byte(f0.store_view(), i0, pos)
                }
        }
}

/// A read of the range a write covered gives back what was written: once
/// `write` has put `data` at `offset` into file `ino`, a `read` of
/// `data.len()` bytes at `offset` returns `data`, all of it.
pub proof fn lemma_write_then_read(f0: AlbumFs, f1: AlbumFs, ino: u64, offset: u64, data: Seq<u8>, i: Inode, v: Seq<u8>)
    requires
        file_written(f0, f1, ino, offset, data),
        data.len() <= usize::MAX,
        stored_inode(f1.store_view(), f1.superblock(), ino, i),
        v.len() == read_len(i.size, offset, data.len() as usize),
        forall|k: int|
            0 <= k < v.len() ==> #[trigger] file_byte(f1.store_view(), i, offset + k) == Ok::<u8, FsFault>(v[k]),
    ensures
        v == data,
{
    let (i0, i1) = choose|i0: Inode, i1: Inode|
        {
            &&& offset + data.len() <= u64::MAX
            &&& stored_inode(f0.store_view(), f0.superblock(), ino, i0)
            &&& stored_inode(f1.store_view(), f1.superblock(), ino, i1)
            &&& i1.size == if offset + data.len() > i0.size {
                (offset + data.len()) as u64
            } else {
                i0.size
            }
            &&& forall|pos: int|
                0 <= pos <= u64::MAX ==> #[trigger] file_byte(f1.store_view(), i1, pos) == if offset
                    <= pos < offset + data.len() {
                    Ok::<u8, FsFault>(data[pos - offset])
                } else {
                    file_byte(f0.store_view(), i0, pos)
                }
        };
    lemma_stored_inode_unique(f1.store_view(), f1.superblock(), ino, i, i1);
    assert(v.len() == data.len());
    assert forall|k: int| 0 <= k < v.len() implies v[k] == data[k] by {
        assert(file_byte(f1.store_view(), i1, offset + k) == Ok::<u8, FsFault>(data[k]));
    }
    assert(v =~= data);
}

/// A write changes no byte of the file outside the range it covered.
pub proof fn lemma_write_keeps_other_bytes(f0: AlbumFs, f1: AlbumFs, ino: u64, offset: u64, data: Seq<u8>, i0: Inode, i1: Inode, pos: int)
    requires
        file_written(f0, f1, ino, offset, data),
        stored_inode(f0.store_view(), f0.superblock(), ino, i0),
        stored_inode(f1.store_view(), f1.superblock(), ino, i1),
        0 <= pos <= u64::MAX,
        !(offset <= pos < offset + data.len()),
    ensures
        file_byte(f1.store_view(), i1, pos) == file_byte(f0.store_view(), i0, pos),
{
    let (j0, j1) = choose|j0: Inode, j1: Inode|
        {
            &&& offset + data.len() <= u64::MAX
            &&& stored_inode(f0.store_view(), f0.superblock(), ino, j0)
            &&& stored_inode(f1.store_view(), f1.superblock(), ino, j1)
            &&& j1.size == if offset + data.len() > j0.size {
                (offset + data.len()) as u64
            } else {
                j0.size
            }
            &&& forall|p: int|
                0 <= p <= u64::MAX ==> #[trigger] file_byte(f1.store_view(), j1, p) == if offset <= p
                    < offset + data.len() {
                    Ok::<u8, FsFault>(data[p - offset])
                } else {
                    file_byte(f0.store_view(), j0, p)
                }
        };
    lemma_stored_inode_unique(f0.store_view(), f0.superblock(), ino, i0, j0);
    lemma_stored_inode_unique(f1.store_view(), f1.superblock(), ino, i1, j1);
}

/// Files survive a reopen: a store rebuilt with the same layout and keys
/// over the images of a store with no unwritten changes, with nothing
/// loaded yet, holds the same inodes and every file's bytes.
pub proof fn lemma_file_survives_reopen(s: StoreView, fresh: StoreView, sb: Superblock, ino: u64)
    requires
        super::block::store_wf(s),
        forall|i: int| 0 <= i < s.slots.len() ==> !(#[trigger] s.slots[i]).dirty,
        same_frame(s, fresh),
        fresh.images == s.images,
        fresh.buffers.len() == s.buffers.len(),
        forall|i: int| 0 <= i < fresh.buffers.len() ==> (#[trigger] fresh.buffers[i]) is None,
    ensures
        forall|j: Inode| #[trigger] stored_inode(fresh, sb, ino, j) == stored_inode(s, sb, ino, j),
        forall|i: Inode, pos: int| #[trigger] file_byte(fresh, i, pos) == file_byte(s, i, pos),
{
    assert forall|lba: u64| #[trigger] read_block_spec(fresh, lba) == read_block_spec(s, lba) by {
        super::block::lemma_reopen_after_flush(s, fresh, lba);
    }
    assert forall|i: Inode, pos: int| #[trigger] file_byte(fresh, i, pos) == file_byte(s, i, pos) by {
        crate::fs::tree::lemma_same_reads_same_file(s, fresh, i);
    }
}

/// The table block of an inode lies below the data area.
proof fn lemma_table_below_data(sb: Superblock, ino: u64)
    requires
        layout_ok(sb),
    ensures
        inode_slot(sb.inode_table_start, sb.inode_count, ino) matches Some((t, _)) ==> sb.inode_table_start
            <= t < sb.data_start,
{
    if ino != 0 && ino <= sb.inode_count {
        assert((ino - 1) / 21 < (sb.inode_count + 20) / 21) by (nonlinear_arith)
            requires
                1 <= ino <= sb.inode_count,
        ;
    }
}

/// Two states that hold the same table block read the same inodes.
pub proof fn lemma_stored_inode_frame(a: StoreView, b: StoreView, sb: Superblock, ino: u64)
    requires
        same_frame(a, b),
        inode_slot(sb.inode_table_start, sb.inode_count, ino) matches Some((t, _)) ==> physical_block(b, t)
            == physical_block(a, t),
    ensures
        forall|j: Inode| #[trigger] stored_inode(b, sb, ino, j) == stored_inode(a, sb, ino, j),
{
    match inode_slot(sb.inode_table_start, sb.inode_count, ino) {
        Some((t, _)) => {
            crate::fs::tree::lemma_read_same(a, b, t);
        },
        None => {},
    }
}

/// One inode at most is stored for `ino`.
pub proof fn lemma_stored_inode_unique(s: StoreView, sb: Superblock, ino: u64, i: Inode, j: Inode)
    requires
        stored_inode(s, sb, ino, i),
        stored_inode(s, sb, ino, j),
    ensures
        i == j,
{
    let (b, o) = inode_slot(sb.inode_table_start, sb.inode_count, ino)->Some_0;
    let p = read_block_spec(s, b)->Ok_0;
    super::inode::lemma_inode_at_unique(p.subrange(o, o + INODE_SIZE), i, j);
}

/// Where `bmap` allocated over a plaintext file in good order and
/// succeeded: the file stays in good order with the same bytes and the same
/// blocks below the data area, and the block it gave is mapped at `index`.
#[verifier::opaque]
pub open spec fn bmap_grew(
    s0: StoreView,
    s1: StoreView,
    used0: Seq<bool>,
    used1: Seq<bool>,
    ds: u64,
    i0: Inode,
    i1: Inode,
    index: u64,
    res: Result<Option<u64>, FsError>,
) -> bool {
    !s0.encrypted && ds > 0 && file_ok(s0, used0, ds, i0) && res is Ok ==> map_grown(
        s0,
        s1,
        used1,
        ds,
        i0,
        i1,
    ) && (res matches Ok(Some(x)) ==> file_block(s1, i1, index) == Ok::<Option<u64>, FsFault>(Some(x)))
}

/// What `bmap` with allocation promises for the indirect blocks.
pub open spec fn grow_ok(f0: AlbumFs, f1: AlbumFs, i0: Inode, i1: Inode, index: u64, res: Result<
    Option<u64>,
    FsError,
>) -> bool {
    let s0 = f0.store_view();
    let s1 = f1.store_view();
    let ds = f0.superblock().data_start;
    &&& f1.wf()
    &&& f1.superblock() == f0.superblock()
    &&& i1.size == i0.size
    &&& i1.mode == i0.mode
    &&& ds > 0 ==> (res matches Ok(Some(b)) ==> b != 0)
    &&& ds > 0 ==> !(res matches Ok(None))
    &&& !s0.encrypted && ds > 0 && file_ok(s0, f0.blocks_in_use(), ds, i0) && res is Ok ==> map_grown(
        s0,
        s1,
        f1.blocks_in_use(),
        ds,
        i0,
        i1,
    ) && (res matches Ok(Some(x)) ==> file_block(s1, i1, index) == Ok::<Option<u64>, FsFault>(Some(x)))
}

/// Every block of `[start, total)` that `used` leaves free can be written.
#[verifier::opaque]
pub open spec fn free_writable(s: StoreView, used: Seq<bool>, start: u64, total: u64) -> bool {
    forall|b: u64| start <= b < total && !used[b as int] ==> #[trigger] physical_block(s, b) is Ok
}

/// Every free block of the data area can be written.
pub open spec fn free_blocks_writable(f: AlbumFs) -> bool {
    free_writable(f.store_view(), f.blocks_in_use(), f.superblock().data_start, f.superblock().total_blocks)
}

/// Free blocks stay writable where no block but `b` changed and at most `b`
/// was taken.
proof fn lemma_free_writable_step(
    s0: StoreView,
    s1: StoreView,
    used0: Seq<bool>,
    used1: Seq<bool>,
    start: u64,
    total: u64,
    b: u64,
)
    requires
        free_writable(s0, used0, start, total),
        total <= used0.len(),
        used1 == used0 || (b < used0.len() && used1 == used0.update(b as int, true)),
        forall|x: u64| x != b ==> #[trigger] physical_block(s1, x) == physical_block(s0, x),
        used1 == used0 ==> physical_block(s1, b) == physical_block(s0, b),
    ensures
        free_writable(s1, used1, start, total),
{
    reveal(free_writable);
    assert forall|x: u64| start <= x < total && !used1[x as int] implies #[trigger] physical_block(s1, x) is Ok by {
        assert(physical_block(s0, x) is Ok);
    }
}

/// Where every free block can be written, allocation finds one exactly when
/// one is free.
proof fn lemma_free_writable_use(s: StoreView, used: Seq<bool>, start: u64, total: u64)
    requires
        free_writable(s, used, start, total),
    ensures
        forall|b: u64| start <= b < total && !used[b as int] ==> #[trigger] physical_block(s, b) is Ok,
{
    reveal(free_writable);
}

/// At least `n` blocks of `[start, total)` are free in `used`.
pub open spec fn frees_at_least(used: Seq<bool>, start: u64, total: u64, n: nat) -> bool {
    exists|fr: Set<int>|
        #![trigger fr.len()]
        fr.finite() && fr.len() >= n && forall|b: int| #[trigger] fr.contains(b) ==> start <= b < total && !used[b]
}

/// Where one block or more is free, some block is free.
pub proof fn lemma_some_free(used: Seq<bool>, start: u64, total: u64, n: nat)
    requires
        frees_at_least(used, start, total, n),
        n >= 1,
    ensures
        exists|c: int| start <= c < total && !#[trigger] used[c],
{
    let fr = choose|fr: Set<int>|
        #![trigger fr.len()]
        fr.finite() && fr.len() >= n && forall|c: int| #[trigger] fr.contains(c) ==> start <= c < total && !used[c];
    vstd::set::axiom_set_choose_len(fr);
    let c = fr.choose();
    assert(fr.contains(c));
    assert(start <= c < total && !used[c]);
}

/// Once a block is taken, one free block fewer is left.
pub proof fn lemma_take_free(used: Seq<bool>, start: u64, total: u64, n: nat, b: int)
    requires
        frees_at_least(used, start, total, n),
        n >= 1,
        total <= used.len(),
        0 <= b < used.len(),
    ensures
        frees_at_least(used.update(b, true), start, total, (n - 1) as nat),
{
    let fr = choose|fr: Set<int>|
        #![trigger fr.len()]
        fr.finite() && fr.len() >= n && forall|c: int| #[trigger] fr.contains(c) ==> start <= c < total && !used[c];
    let rest = fr.remove(b);
    vstd::set::axiom_set_remove_len(fr, b);
    assert(rest.finite());
    assert(rest.len() >= n - 1);
    assert forall|x: int| #[trigger] rest.contains(x) implies start <= x < total && !used.update(b, true)[x] by {
        assert(fr.contains(x));
    }
}

/// Block `index` of a file, among its direct blocks or those behind its
/// single-indirect block, can be mapped with allocation: the store is
/// plaintext, every free block can be written, the indirect block that the
/// mapping reads can be read, and enough blocks are free for those it must
/// take.
pub open spec fn single_growable(f: AlbumFs, i: Inode, index: u64) -> bool {
    let used = f.blocks_in_use();
    let ds = f.superblock().data_start;
    let total = f.superblock().total_blocks;
    &&& !f.store_view().encrypted
    &&& free_blocks_writable(f)
    &&& if index < 12 {
        frees_at_least(used, ds, total, 1)
    } else if i.single_indirect == 0 {
        frees_at_least(used, ds, total, 2)
    } else {
        read_block_spec(f.store_view(), i.single_indirect) is Ok && frees_at_least(used, ds, total, 1)
    }
}

/// What `bmap` promises, from the filesystem and inode it started with to
/// those it left.
pub open spec fn bmap_ok(
    f0: AlbumFs,
    f1: AlbumFs,
    i0: Inode,
    i1: Inode,
    index: u64,
    allocate: bool,
    res: Result<Option<u64>, FsError>,
) -> bool {
    let s0 = f0.store_view();
    let s1 = f1.store_view();
    let ds = f0.superblock().data_start;
    &&& f1.wf()
    &&& f1.superblock() == f0.superblock()
    &&& i1.size == i0.size
    &&& i1.mode == i0.mode
    &&& index >= 12 + POINTERS_PER_BLOCK + POINTERS_PER_BLOCK * POINTERS_PER_BLOCK ==> (res matches Err(
        FsError::BadBlock(b),
    ) && b == index)
    &&& index < 12 && i0.direct[index as int] != 0 ==> res == Ok::<Option<u64>, FsError>(
        Some(i0.direct[index as int]),
    ) && i1 == i0
    &&& index < 12 && i0.direct[index as int] == 0 && !allocate ==> res == Ok::<
        Option<u64>,
        FsError,
    >(None::<u64>)
    &&& index < 12 ==> (res matches Ok(Some(b)) ==> i1.direct[index as int] == b)
    &&& !allocate ==> i1 == i0 && f1.blocks_in_use() == f0.blocks_in_use() && loaded_from(s0, s1)
    &&& ds > 0 ==> (res matches Ok(Some(b)) ==> b != 0)
    &&& ds > 0 ==> (res matches Ok(None) ==> !allocate)
    &&& !allocate ==> match file_block(s0, i0, index) {
        Ok(o) => res == Ok::<Option<u64>, FsError>(o),
        Err(f) => res matches Err(e) && fs_fault(e) == f,
    }
    &&& allocate && !s0.encrypted && ds > 0 && file_ok(s0, f0.blocks_in_use(), ds, i0) && res is Ok
        ==> map_grown(s0, s1, f1.blocks_in_use(), ds, i0, i1) && (res matches Ok(Some(x))
        ==> file_block(s1, i1, index) == Ok::<Option<u64>, FsFault>(Some(x)))
}

impl AlbumFs {
    pub closed spec fn wf(&self) -> bool {
        &&& self.store.wf()
        &&& self.bitmap.wf()
        &&& self.bitmap.total() == self.sb.total_blocks
    }

    pub closed spec fn store_view(&self) -> StoreView {
        self.store@
    }

    pub closed spec fn superblock(&self) -> Superblock {
        self.sb
    }

    pub closed spec fn blocks_in_use(&self) -> Seq<bool> {
        self.bitmap@
    }

    /// The bytes of the bitmap the filesystem holds.
    pub closed spec fn bitmap_bytes(&self) -> Seq<u8> {
        self.bitmap.bytes()
    }

    /// A filesystem over a store, its superblock and its bitmap.
    pub(crate) fn from_parts(store: BlockStore, sb: Superblock, bitmap: Bitmap) -> (fs: Self)
        requires
            store.wf(),
            bitmap.wf(),
            bitmap.total() == sb.total_blocks,
        ensures
            fs.wf(),
            fs.superblock() == sb,
            fs.store_view() == store@,
            fs.blocks_in_use() == bitmap@,
    {
        AlbumFs { store, sb, bitmap }
    }

    /// A filesystem over a store and its superblock, with the bitmap read
    /// from the store.
    fn assemble(superblock: Superblock, store: BlockStore) -> (res: Result<Self, FsError>)
        requires
            store.wf(),
        ensures
            res matches Ok(fs) ==> fs.wf() && fs.superblock() == superblock && loaded_from(
                store@,
                fs.store_view(),
            ),
            res is Ok && superblock.bitmap_start <= superblock.inode_table_start ==> bitmap_bytes_of(
                store@,
                superblock@,
            ) == Ok::<Seq<u8>, FsFault>(res->Ok_0.bitmap_bytes()),
            superblock.total_blocks / 8 < usize::MAX && (superblock.bitmap_start
                <= superblock.inode_table_start ==> stored_bitmap(
                store@,
                superblock.bitmap_start,
                (superblock.inode_table_start - superblock.bitmap_start) as nat,
                bitmap_len(superblock.total_blocks) as nat,
            ) is Ok) ==> res is Ok,
    {
        let mut store = store;
        if superblock.total_blocks / 8 >= usize::MAX as u64 {
            return Err(FsError::Manifest("the filesystem has too many blocks".to_string()));
        }
        let bitmap = if superblock.bitmap_start <= superblock.inode_table_start {
            load_bitmap(&mut store, &superblock)?
        } else {
            let empty: Vec<u8> = Vec::new();
            Bitmap::from_bytes(empty.as_slice(), superblock.total_blocks)
        };
        Ok(AlbumFs { store, sb: superblock, bitmap })
    }

    /// Opens the plaintext filesystem of a pool.
    pub fn open(pool: Vec<Carrier>) -> (res: Result<Self, FsError>)
        ensures
            res matches Ok(fs) ==> fs.wf(),
            first_primary(pool@, 0) is None ==> (res matches Err(FsError::NoPrimary)),
            res is Ok ==> first_primary(pool@, 0) is Some && primary_superblock(first_primary(pool@, 0)->Some_0)
                == Some(res->Ok_0.superblock()@),
            first_primary(pool@, 0) is Some && primary_superblock(first_primary(pool@, 0)->Some_0) is Some
                && primary_superblock(first_primary(pool@, 0)->Some_0)->Some_0.crypto_flags & CRYPTO_FLAG_ENCRYPTED
                != 0 ==> (res matches Err(FsError::AnchorRequired)),
            plain_fs_opens(pool@) ==> res is Ok,
    {
        let (sb, store) = open_plaintext(pool)?;
        Self::assemble(sb, store)
    }

    /// Opens the plaintext filesystem of a pool; an encrypted one needs its
    /// anchor as well as the passphrase.
    pub fn open_with_passphrase(pool: Vec<Carrier>, passphrase: Option<&str>) -> (res: Result<
        Self,
        FsError,
    >)
        ensures
            passphrase is Some ==> (res matches Err(FsError::AnchorRequired)),
            res matches Ok(fs) ==> fs.wf(),
            passphrase is None && first_primary(pool@, 0) is None ==> (res matches Err(FsError::NoPrimary)),
            res is Ok ==> first_primary(pool@, 0) is Some && primary_superblock(first_primary(pool@, 0)->Some_0)
                == Some(res->Ok_0.superblock()@),
            passphrase is None && plain_fs_opens(pool@) ==> res is Ok,
    {
        if passphrase.is_some() {
            return Err(FsError::AnchorRequired);
        }
        Self::open(pool)
    }

    /// Opens the encrypted filesystem of a pool through its anchor image.
    pub fn open_with_anchor(pool: Vec<Carrier>, anchor: usize, passphrase: &str) -> (res: Result<
        Self,
        FsError,
    >)
        ensures
            res matches Ok(fs) ==> fs.wf(),
            anchor_bootstrap(pool@, anchor as int) is Some && bootstrap_plaintext(
                passphrase.spec_bytes(),
                anchor_bootstrap(pool@, anchor as int)->Some_0,
            ) is None ==> (res matches Err(FsError::Auth)),
            res is Ok ==> anchor_bootstrap(pool@, anchor as int) is Some && bootstrap_plaintext(
                passphrase.spec_bytes(),
                anchor_bootstrap(pool@, anchor as int)->Some_0,
            ) is Some && decode_spec(
                bootstrap_plaintext(passphrase.spec_bytes(), anchor_bootstrap(pool@, anchor as int)->Some_0)->Some_0,
            ) == Ok::<SuperblockView, SuperblockFault>(res->Ok_0.superblock()@),
    {
        let (sb, store) = open_with_anchor(pool, anchor, passphrase)?;
        Self::assemble(sb, store)
    }

    /// Writes the bitmap and every changed chunk back into the images.
    pub fn sync(&mut self) -> (res: Result<(), FsError>)
        requires
            old(self).wf(),
        ensures
            final(self).wf(),
            final(self).superblock() == old(self).superblock(),
            final(self).blocks_in_use() == old(self).blocks_in_use(),
            same_frame(old(self).store_view(), final(self).store_view()),
            res is Ok ==> forall|lba: u64|
                lba >= old(self).superblock().inode_table_start ==> #[trigger] physical_block(
                    final(self).store_view(),
                    lba,
                ) == physical_block(old(self).store_view(), lba),
            res is Ok ==> forall|i: int|
                0 <= i < final(self).store_view().slots.len()
                    ==> !(#[trigger] final(self).store_view().slots[i]).dirty,
            res matches Err(e) ==> !request_error(e),
            sync_ready(*old(self)) ==> res is Ok,
    {
        let ghost s0 = self.store_view();
        if self.sb.bitmap_start <= self.sb.inode_table_start {
            write_bitmap(&mut self.store, &self.sb, &self.bitmap)?;
        }
        let ghost s1 = self.store_view();
        proof {
            if sync_ready(*old(self)) {
                assert forall|i: int|
                    0 <= i < s1.slots.len() && (#[trigger] s1.slots[i]).dirty implies chunk_writable(s1, i) by {
                    assert(chunk_fits(s1, i));
                    lemma_fits_writable(s1, i);
                }
            }
        }
        let res = self.store.flush();
        proof {
            if res is Ok {
                let s2 = self.store_view();
                assert forall|lba: u64| lba >= self.sb.inode_table_start implies #[trigger] physical_block(
                    s2,
                    lba,
                ) == physical_block(s0, lba) by {
                    super::block::lemma_flush_keeps_blocks(s1, s2, lba);
                }
            }
        }
        res
    }

    pub fn total_blocks(&self) -> (n: u64)
        ensures
            n == self.superblock().total_blocks,
    {
        self.sb.total_blocks
    }

    pub fn free_blocks(&self) -> (n: u64)
        requires
            self.wf(),
        ensures
            n == super::bitmap::count_clear(self.blocks_in_use()),
    {
        self.bitmap.count_free()
    }

    pub fn inode_count(&self) -> (n: u64)
        ensures
            n == self.superblock().inode_count,
    {
        self.sb.inode_count
    }

    /// The store and superblock, for reports.
    pub fn store(&self) -> (s: &BlockStore)
        ensures
            s@ == self.store_view(),
    {
        &self.store
    }

    /// The pool's carriers, in slot order, as the store last left them.
    #[verifier::spinoff_prover]
    pub fn into_carriers(self) -> (carriers: Vec<Carrier>)
        ensures
            carriers@.len() == self.store_view().names.len(),
            forall|i: int|
                0 <= i < carriers@.len() ==> #[trigger] carriers@[i].name@
                    == self.store_view().names[i] && carriers@[i].image@
                    == self.store_view().images[i] && carriers@[i].modified
                    == self.store_view().modified[i],
    {
        self.store.into_carriers()
    }

    pub fn superblock_ref(&self) -> (s: &Superblock)
        ensures
            *s == self.superblock(),
    {
        &self.sb
    }

    /// Where inode `ino` lives.
    fn inode_location(&self, ino: u64) -> (res: Result<(u64, usize), FsError>)
        ensures
            match inode_slot(self.sb.inode_table_start, self.sb.inode_count, ino) {
                Some((b, o)) => res matches Ok((rb, ro)) && rb == b && ro == o,
                None => res is Err && (ino == 0 || ino > self.sb.inode_count ==> res matches Err(
                    FsError::NotFound,
                )),
            },
            res matches Err(e) ==> !request_error(e) || (e is NotFound && (ino == 0 || ino > self.sb.inode_count)),
    {
        if ino == 0 || ino > self.sb.inode_count {
            return Err(FsError::NotFound);
        }
        let index = ino - 1;
        let block = match self.sb.inode_table_start.checked_add(index / 21) {
            Some(b) => b,
            None => return Err(FsError::Manifest("inode table out of range".to_string())),
        };
        Ok((block, (index % 21) as usize * 192))
    }

    /// The inode numbered `ino`.
    pub fn read_inode(&mut self, ino: u64) -> (res: Result<Inode, FsError>)
        requires
            old(self).wf(),
        ensures
            final(self).wf(),
            final(self).superblock() == old(self).superblock(),
            final(self).blocks_in_use() == old(self).blocks_in_use(),
            loaded_from(old(self).store_view(), final(self).store_view()),
            ino == 0 || ino > old(self).superblock().inode_count ==> (res matches Err(
                FsError::NotFound,
            )),
            res matches Ok(i) ==> stored_inode(old(self).store_view(), old(self).superblock(), ino, i),
            inode_readable(old(self).store_view(), old(self).superblock(), ino) ==> res is Ok,
            res matches Err(e) ==> !request_error(e) || (e is NotFound && (ino == 0 || ino > old(self).superblock().inode_count)),
    {
        let (block, offset) = self.inode_location(ino)?;
        let payload = self.store.read_block(block)?;
        let bytes = vstd::slice::slice_subrange(payload.as_slice(), offset, offset + INODE_SIZE);
        Inode::decode(bytes)
    }

    /// Writes `inode` as inode `ino`.
    pub fn write_inode(&mut self, ino: u64, inode: &Inode) -> (res: Result<(), FsError>)
        requires
            old(self).wf(),
        ensures
            final(self).wf(),
            final(self).superblock() == old(self).superblock(),
            final(self).blocks_in_use() == old(self).blocks_in_use(),
            same_frame(old(self).store_view(), final(self).store_view()),
            ino == 0 || ino > old(self).superblock().inode_count ==> (res matches Err(
                FsError::NotFound,
            )),
            res is Ok ==> inode_written(
                old(self).store_view(),
                final(self).store_view(),
                old(self).superblock(),
                ino,
                *inode,
            ),
            !old(self).store_view().encrypted && inode_readable(
                old(self).store_view(),
                old(self).superblock(),
                ino,
            ) ==> res is Ok,
            forall|other: u64|
                (inode_slot(
                    old(self).superblock().inode_table_start,
                    old(self).superblock().inode_count,
                    ino,
                ) matches Some((b, _)) ==> other != b) ==> #[trigger] physical_block(
                    final(self).store_view(),
                    other,
                ) == physical_block(old(self).store_view(), other),
            res matches Err(e) ==> !request_error(e) || (e is NotFound && (ino == 0 || ino > old(self).superblock().inode_count)),
            store_flushable(old(self).store_view()) ==> store_flushable(final(self).store_view()),
    {
        let ghost s0 = self.store_view();
        let (block, offset) = self.inode_location(ino)?;
        let read = self.store.read_block(block);
        let ghost s1 = self.store_view();
        proof {
            if store_flushable(s0) {
                lemma_flushable_loaded(s0, s1);
            }
        }
        let mut payload = match read {
            Ok(p) => p,
            Err(e) => return Err(e),
        };
        proof {
            assert forall|other: u64| #[trigger] physical_block(s1, other) == physical_block(s0, other) by {
                lemma_loaded_from_blocks(s0, s1, other);
            }
            if store_flushable(s0) {
                lemma_flushable_loaded(s0, s1);
            }
        }
        let encoded = inode.encode();
        write_at(&mut payload, offset, encoded.as_slice());
        self.store.write_block(block, payload.as_slice())
    }

    /// How many inodes are in use.
    pub fn used_inodes(&mut self) -> (res: Result<u64, FsError>)
        requires
            old(self).wf(),
        ensures
            final(self).wf(),
            final(self).superblock() == old(self).superblock(),
            final(self).blocks_in_use() == old(self).blocks_in_use(),
            loaded_from(old(self).store_view(), final(self).store_view()),
            res matches Ok(n) ==> n <= old(self).superblock().inode_count,
            res matches Ok(n) ==> n == used_count(
                old(self).store_view(),
                old(self).superblock(),
                old(self).superblock().inode_count as nat,
            ),
            (forall|k: u64|
                1 <= k <= old(self).superblock().inode_count ==> #[trigger] inode_readable(
                    old(self).store_view(),
                    old(self).superblock(),
                    k,
                )) ==> res is Ok,
    {
        let ghost s0 = self.store_view();
        let count = self.sb.inode_count;
        let mut used: u64 = 0;
        let mut ino: u64 = 1;
        while ino <= count
            invariant
                self.wf(),
                self.superblock() == old(self).superblock(),
                self.blocks_in_use() == old(self).blocks_in_use(),
                s0 == old(self).store_view(),
                store_wf(s0),
                loaded_from(s0, self.store_view()),
                count == self.sb.inode_count,
                1 <= ino,
                ino <= count + 1,
                used < ino,
                used == used_count(s0, self.superblock(), (ino - 1) as nat),
            decreases count + 1 - ino,
        {
            let ghost cur = self.store_view();
            proof {
                let sb = self.superblock();
                match inode_slot(sb.inode_table_start, sb.inode_count, ino) {
                    Some((t, _)) => {
                        lemma_loaded_from_blocks(s0, cur, t);
                    },
                    None => {},
                }
                assert(inode_readable(s0, sb, ino) == inode_readable(cur, sb, ino));
            }
            let inode = self.read_inode(ino)?;
            proof {
                super::block::lemma_loaded_from_trans(s0, cur, self.store_view());
                lemma_stored_inode_loaded(s0, cur, self.superblock(), ino);
                let sb = self.superblock();
                assert(stored_inode(s0, sb, ino, inode));
                if inode.mode != 0 {
                    assert(inode_in_use(s0, sb, ino));
                } else {
                    assert forall|i: Inode| #[trigger] stored_inode(s0, sb, ino, i) implies i.mode == 0 by {
                        lemma_stored_inode_unique(s0, sb, ino, i, inode);
                    }
                    assert(!inode_in_use(s0, sb, ino));
                }
            }
            if inode.mode != 0 {
                used += 1;
            }
            if ino == count {
                return Ok(used);
            }
            ino += 1;
        }
        Ok(used)
    }

    /// The first free inode: the first whose mode is zero.
    pub fn alloc_inode(&mut self) -> (res: Result<u64, FsError>)
        requires
            old(self).wf(),
        ensures
            final(self).wf(),
            final(self).superblock() == old(self).superblock(),
            final(self).blocks_in_use() == old(self).blocks_in_use(),
            res matches Ok(ino) ==> 1 <= ino <= old(self).superblock().inode_count,
            old(self).superblock().inode_count == 0 ==> (res matches Err(FsError::NoSpace)),
            loaded_from(old(self).store_view(), final(self).store_view()),
            res matches Ok(ino) ==> inode_free(old(self).store_view(), old(self).superblock(), ino),
            res matches Ok(ino) ==> forall|k: u64|
                1 <= k < ino ==> #[trigger] inode_in_use(old(self).store_view(), old(self).superblock(), k),
            (forall|k: u64|
                1 <= k <= old(self).superblock().inode_count ==> #[trigger] inode_readable(
                    old(self).store_view(),
                    old(self).superblock(),
                    k,
                )) ==> (res is Ok <==> exists|k: u64|
                1 <= k <= old(self).superblock().inode_count && !#[trigger] inode_in_use(
                    old(self).store_view(),
                    old(self).superblock(),
                    k,
                )),
            (forall|k: u64|
                1 <= k <= old(self).superblock().inode_count ==> #[trigger] inode_in_use(
                    old(self).store_view(),
                    old(self).superblock(),
                    k,
                )) ==> (res matches Err(FsError::NoSpace)),
    {
        let ghost s0 = self.store_view();
        let count = self.sb.inode_count;
        let ghost full = forall|k: u64| 1 <= k <= count ==> #[trigger] inode_in_use(s0, self.superblock(), k);
        let mut ino: u64 = 1;
        while ino <= count
            invariant
                self.wf(),
                self.superblock() == old(self).superblock(),
                self.blocks_in_use() == old(self).blocks_in_use(),
                s0 == old(self).store_view(),
                store_wf(s0),
                loaded_from(s0, self.store_view()),
                count == self.sb.inode_count,
                1 <= ino,
                ino <= count + 1,
                forall|k: u64| 1 <= k < ino ==> #[trigger] inode_in_use(s0, self.superblock(), k),
                full == forall|k: u64| 1 <= k <= count ==> #[trigger] inode_in_use(s0, self.superblock(), k),
            decreases count + 1 - ino,
        {
            let ghost cur = self.store_view();
            proof {
                let sb = self.superblock();
                match inode_slot(sb.inode_table_start, sb.inode_count, ino) {
                    Some((t, _)) => {
                        lemma_loaded_from_blocks(s0, cur, t);
                    },
                    None => {},
                }
                assert(inode_readable(s0, sb, ino) == inode_readable(cur, sb, ino));
                if full {
                    assert(inode_in_use(s0, sb, ino));
                    let i = choose|i: Inode| #[trigger] stored_inode(s0, sb, ino, i) && i.mode != 0;
                    assert(inode_readable(s0, sb, ino));
                }
            }
            let inode = self.read_inode(ino)?;
            proof {
                super::block::lemma_loaded_from_trans(s0, cur, self.store_view());
                lemma_stored_inode_loaded(s0, cur, self.superblock(), ino);
                let sb = self.superblock();
                assert(stored_inode(s0, sb, ino, inode));
                if inode.mode == 0 {
                    assert forall|i: Inode| #[trigger] stored_inode(s0, sb, ino, i) implies i.mode == 0 by {
                        lemma_stored_inode_unique(s0, sb, ino, i, inode);
                    }
                    assert(!inode_in_use(s0, sb, ino));
                } else {
                    assert(inode_in_use(s0, sb, ino));
                }
            }
            if inode.mode == 0 {
                return Ok(ino);
            }
            if ino == count {
                return Err(FsError::NoSpace);
            }
            ino += 1;
        }
        Err(FsError::NoSpace)
    }

    /// Clears inode `ino`.
    pub fn free_inode(&mut self, ino: u64) -> (res: Result<(), FsError>)
        requires
            old(self).wf(),
        ensures
            final(self).wf(),
            final(self).superblock() == old(self).superblock(),
            final(self).blocks_in_use() == old(self).blocks_in_use(),
            ino == 0 || ino > old(self).superblock().inode_count ==> (res matches Err(
                FsError::NotFound,
            )),
            res is Ok ==> exists|z: Inode|
                is_zero_inode(z) && inode_written(
                    old(self).store_view(),
                    final(self).store_view(),
                    old(self).superblock(),
                    ino,
                    z,
                ),
            res matches Err(e) ==> !request_error(e) || (e is NotFound && (ino == 0 || ino > old(self).superblock().inode_count)),
    {
        let zero = Inode::default();
        self.write_inode(ino, &zero)
    }

    /// The inode numbered `ino`, where it is in use.
    pub fn getattr(&mut self, ino: u64) -> (res: Result<Inode, FsError>)
        requires
            old(self).wf(),
        ensures
            final(self).wf(),
            final(self).superblock() == old(self).superblock(),
            final(self).blocks_in_use() == old(self).blocks_in_use(),
            loaded_from(old(self).store_view(), final(self).store_view()),
            ino == 0 || ino > old(self).superblock().inode_count ==> (res matches Err(
                FsError::NotFound,
            )),
            res matches Ok(i) ==> i.mode != 0 && stored_inode(
                old(self).store_view(),
                old(self).superblock(),
                ino,
                i,
            ),
            inode_readable(old(self).store_view(), old(self).superblock(), ino) ==> (res is Ok
                <==> inode_in_use(old(self).store_view(), old(self).superblock(), ino)),
            inode_readable(old(self).store_view(), old(self).superblock(), ino) && !inode_in_use(
                old(self).store_view(),
                old(self).superblock(),
                ino,
            ) ==> (res matches Err(FsError::NotFound)),
            res matches Err(e) ==> !request_error(e) || (e is NotFound && (ino == 0 || ino > old(self).superblock().inode_count
                || !inode_in_use(old(self).store_view(), old(self).superblock(), ino))),
    {
        let inode = self.read_inode(ino)?;
        proof {
            let s = old(self).store_view();
            let sb = old(self).superblock();
            if inode.mode == 0 {
                assert forall|i: Inode| #[trigger] stored_inode(s, sb, ino, i) implies i.mode == 0 by {
                    lemma_stored_inode_unique(s, sb, ino, i, inode);
                }
            } else {
                assert(stored_inode(s, sb, ino, inode));
            }
        }
        if inode.mode == 0 {
            Err(FsError::NotFound)
        } else {
            Ok(inode)
        }
    }

    /// Takes the first free block from the data area and clears it.
    fn allocate_block(&mut self) -> (res: Result<u64, FsError>)
        requires
            old(self).wf(),
        ensures
            final(self).wf(),
            final(self).superblock() == old(self).superblock(),
            same_frame(old(self).store_view(), final(self).store_view()),
            match res {
                Ok(b) => old(self).superblock().data_start <= b < old(self).superblock().total_blocks
                    && !old(self).blocks_in_use()[b as int] && final(self).blocks_in_use()
                    == old(self).blocks_in_use().update(b as int, true) && (forall|other: u64|
                    other != b ==> #[trigger] physical_block(final(self).store_view(), other)
                        == physical_block(old(self).store_view(), other)) && (!old(
                    self,
                ).store_view().encrypted ==> read_block_spec(final(self).store_view(), b) == Ok::<
                    Seq<u8>,
                    FsFault,
                >(zeros(UB as nat))),
                Err(_) => true,
            },
            res matches Ok(b) ==> forall|j: int|
                old(self).superblock().data_start <= j < b ==> old(self).blocks_in_use()[j],
            !old(self).store_view().encrypted && (forall|b: u64|
                old(self).superblock().data_start <= b < old(self).superblock().total_blocks
                    && !old(self).blocks_in_use()[b as int] ==> #[trigger] physical_block(
                    old(self).store_view(),
                    b,
                ) is Ok) ==> (res is Ok <==> exists|b: int|
                old(self).superblock().data_start <= b < old(self).superblock().total_blocks
                    && !#[trigger] old(self).blocks_in_use()[b]),
            res matches Err(e) ==> !request_error(e) || e is NoSpace,
    {
        let block = self.bitmap.alloc_from(self.sb.data_start)?;
        let empty: Vec<u8> = Vec::new();
        self.store.write_block(block, empty.as_slice())?;
        proof {
            if !old(self).store_view().encrypted {
                let s = self.store_view();
                let blk = physical_block(s, block)->Ok_0;
                lemma_read_after_write(s, block, empty@, blk);
                assert(padded(empty@) =~= zeros(UB as nat));
            }
        }
        Ok(block)
    }

    /// Pointer `index` of an indirect block.
    fn pointer_at(block: &[u8], index: usize) -> (p: u64)
        requires
            index < POINTERS_PER_BLOCK,
            block@.len() == UB,
        ensures
            p == get64(block@, 8 * index),
    {
        crate::layout::get64_at(block, index * 8)
    }

    /// Sets pointer `index` of an indirect block.
    fn set_pointer(block: &mut Vec<u8>, index: usize, pointer: u64)
        requires
            index < POINTERS_PER_BLOCK,
            old(block)@.len() == UB,
        ensures
            final(block)@ == splice(old(block)@, 8 * index, le64(pointer)),
            final(block)@.len() == UB,
    {
        put64(block, index * 8, pointer);
    }

    /// The block that holds block `index` of the file, allocating it (and
    /// the indirect blocks on the way) where `allocate` is set and it has
    /// none.
    pub fn bmap(&mut self, inode: &mut Inode, index: u64, allocate: bool) -> (res: Result<
        Option<u64>,
        FsError,
    >)
        requires
            old(self).wf(),
        ensures
            final(self).wf(),
            final(self).superblock() == old(self).superblock(),
            index >= 12 + POINTERS_PER_BLOCK + POINTERS_PER_BLOCK * POINTERS_PER_BLOCK ==> (res matches Err(
                FsError::BadBlock(b),
            ) && b == index),
            index < 12 && old(inode).direct[index as int] != 0 ==> res == Ok::<
                Option<u64>,
                FsError,
            >(Some(old(inode).direct[index as int])) && *final(inode) == *old(inode),
            index < 12 && old(inode).direct[index as int] == 0 && !allocate ==> res == Ok::<
                Option<u64>,
                FsError,
            >(None::<u64>),
            index < 12 ==> (res matches Ok(Some(b)) ==> final(inode).direct[index as int] == b),
            !allocate ==> *final(inode) == *old(inode) && final(self).blocks_in_use()
                == old(self).blocks_in_use() && loaded_from(
                old(self).store_view(),
                final(self).store_view(),
            ),
            old(self).superblock().data_start > 0 ==> (res matches Ok(Some(b)) ==> b != 0),
            old(self).superblock().data_start > 0 ==> (res matches Ok(None) ==> !allocate),
            !allocate ==> match file_block(old(self).store_view(), *old(inode), index) {
                Ok(o) => res == Ok::<Option<u64>, FsError>(o),
                Err(f) => res matches Err(e) && fs_fault(e) == f,
            },
            final(inode).size == old(inode).size,
            final(inode).mode == old(inode).mode,
            allocate ==> bmap_grew(
                old(self).store_view(),
                final(self).store_view(),
                old(self).blocks_in_use(),
                final(self).blocks_in_use(),
                old(self).superblock().data_start,
                *old(inode),
                *final(inode),
                index,
                res,
            ),
            allocate && index < 12 + POINTERS_PER_BLOCK && single_growable(*old(self), *old(inode), index) ==> res is Ok,
            index < 12 && old(inode).direct[index as int] != 0 ==> *final(self) == *old(self),
            allocate && index < 12 && old(inode).direct[index as int] == 0 && res is Ok && res->Ok_0 is Some ==> ({
                let b = res->Ok_0->Some_0;
                &&& !old(self).blocks_in_use()[b as int]
                &&& final(self).blocks_in_use() == old(self).blocks_in_use().update(b as int, true)
                &&& final(inode).block_count == (if old(inode).block_count == u32::MAX {
                    0
                } else {
                    old(inode).block_count + 1
                })
                &&& !old(self).store_view().encrypted ==> read_block_spec(final(self).store_view(), b) == Ok::<
                    Seq<u8>,
                    FsFault,
                >(zeros(UB as nat))
            }),
            res matches Err(e) ==> !request_error(e) || (allocate && e is NoSpace),
    {
        proof {
            reveal(bmap_grew);
        }
        if index < 12 {
            return self.bmap_direct(inode, index, allocate);
        }
        if index - 12 >= POINTERS_PER_BLOCK && index - 12 - POINTERS_PER_BLOCK >= POINTERS_PER_BLOCK
            * POINTERS_PER_BLOCK {
            return Err(FsError::BadBlock(index));
        }
        if !allocate {
            return self.lookup_indirect(inode, index);
        }
        if index - 12 < POINTERS_PER_BLOCK {
            self.grow_single(inode, index)
        } else {
            self.grow_double(inode, index)
        }
    }

    /// `bmap` for the direct pointers.
    #[verifier::spinoff_prover]
    #[verifier::rlimit(100)]
    fn bmap_direct(&mut self, inode: &mut Inode, index: u64, allocate: bool) -> (res: Result<
        Option<u64>,
        FsError,
    >)
        requires
            old(self).wf(),
            index < 12,
        ensures
            bmap_ok(*old(self), *final(self), *old(inode), *final(inode), index, allocate, res),
            old(inode).direct[index as int] != 0 ==> *final(self) == *old(self),
            allocate && index < 12 && old(inode).direct[index as int] == 0 && res is Ok && res->Ok_0 is Some ==> ({
                let b = res->Ok_0->Some_0;
                &&& !old(self).blocks_in_use()[b as int]
                &&& final(self).blocks_in_use() == old(self).blocks_in_use().update(b as int, true)
                &&& final(inode).block_count == (if old(inode).block_count == u32::MAX {
                    0
                } else {
                    old(inode).block_count + 1
                })
                &&& !old(self).store_view().encrypted ==> read_block_spec(final(self).store_view(), b) == Ok::<
                    Seq<u8>,
                    FsFault,
                >(zeros(UB as nat))
            }),
            !old(self).store_view().encrypted && free_blocks_writable(*old(self)) && frees_at_least(
                old(self).blocks_in_use(),
                old(self).superblock().data_start,
                old(self).superblock().total_blocks,
                1,
            ) ==> res is Ok,
            res matches Err(e) ==> !request_error(e) || (allocate && e is NoSpace),
    {
        let ghost s0 = self.store_view();
        let ghost used0 = self.blocks_in_use();
        let ghost i0 = *inode;
        let ghost ds = self.sb.data_start;
        proof {
            if !s0.encrypted && free_blocks_writable(*self) && frees_at_least(used0, ds, self.sb.total_blocks, 1) {
                lemma_some_free(used0, ds, self.sb.total_blocks, 1);
                lemma_free_writable_use(s0, used0, ds, self.sb.total_blocks);
            }
        }
        let ghost track = allocate && !s0.encrypted && ds > 0 && file_ok(s0, used0, ds, i0);
        proof {
            self.bitmap.lemma_len();
            if track {
                lemma_map_start(s0, used0, ds, i0);
            }
        }
        let i = index as usize;
        let mut current = inode.direct[i];
        if current == 0 && allocate {
            let block = self.allocate_block()?;
            let ghost s1 = self.store_view();
            let ghost used1 = self.blocks_in_use();
            inode.direct[i] = block;
            inode.block_count = inode.block_count.wrapping_add(1);
            proof {
                if track {
                    let i1 = *inode;
                    assert(map_grown(s0, s1, used1, ds, i0, i1) && file_block(s1, i1, index) == Ok::<
                        Option<u64>,
                        FsFault,
                    >(Some(block))) by {
                        lemma_map_alloc(s0, s0, s1, used0, used1, ds, i0, i0, block);
                        lemma_map_facts(s0, s1, used1, ds, i0, i0);
                        lemma_set_direct(s1, used1, ds, i0, i1, i as int, block);
                        lemma_map_make(s0, s1, used1, ds, i0, i1);
                    }
                }
            }
            current = block;
        }
        Ok(
            if current != 0 {
                Some(current)
            } else {
                None
            },
        )
    }

    /// The block that maps block `index` of the file through its indirect
    /// blocks, without allocating.
    fn lookup_indirect(&mut self, inode: &Inode, index: u64) -> (res: Result<Option<u64>, FsError>)
        requires
            old(self).wf(),
            12 <= index,
            index - 12 < POINTERS_PER_BLOCK || index - 12 - POINTERS_PER_BLOCK < POINTERS_PER_BLOCK
                * POINTERS_PER_BLOCK,
        ensures
            final(self).wf(),
            final(self).superblock() == old(self).superblock(),
            final(self).blocks_in_use() == old(self).blocks_in_use(),
            loaded_from(old(self).store_view(), final(self).store_view()),
            match file_block(old(self).store_view(), *inode, index) {
                Ok(o) => res == Ok::<Option<u64>, FsError>(o),
                Err(f) => res matches Err(e) && fs_fault(e) == f,
            },
            res matches Err(e) ==> !request_error(e),
    {
        let ghost s0 = self.store_view();
        if index - 12 < POINTERS_PER_BLOCK {
            let relative = index - 12;
            if inode.single_indirect == 0 {
                return Ok(None);
            }
            let pointers = self.store.read_block(inode.single_indirect)?;
            let pointer = Self::pointer_at(pointers.as_slice(), relative as usize);
            return Ok(
                if pointer != 0 {
                    Some(pointer)
                } else {
                    None
                },
            );
        }
        let relative = index - 12 - POINTERS_PER_BLOCK;
        if inode.double_indirect == 0 {
            return Ok(None);
        }
        let outer_index = (relative / POINTERS_PER_BLOCK) as usize;
        let inner_index = (relative % POINTERS_PER_BLOCK) as usize;
        assert(outer_index < POINTERS_PER_BLOCK) by (nonlinear_arith)
            requires
                outer_index == relative / 504,
                relative < 504 * 504,
        ;
        let outer = self.store.read_block(inode.double_indirect)?;
        let inner_block = Self::pointer_at(outer.as_slice(), outer_index);
        if inner_block == 0 {
            return Ok(None);
        }
        let ghost s1 = self.store_view();
        let inner = self.store.read_block(inner_block)?;
        proof {
            lemma_loaded_from_blocks(s0, s1, inner_block);
            super::block::lemma_loaded_from_trans(s0, s1, self.store_view());
        }
        let pointer = Self::pointer_at(inner.as_slice(), inner_index);
        Ok(
            if pointer != 0 {
                Some(pointer)
            } else {
                None
            },
        )
    }

    /// `bmap` with allocation for the blocks behind the single-indirect block.
    #[verifier::spinoff_prover]
    #[verifier::rlimit(100)]
    fn grow_single(&mut self, inode: &mut Inode, index: u64) -> (res: Result<
        Option<u64>,
        FsError,
    >)
        requires
            old(self).wf(),
            12 <= index < 12 + POINTERS_PER_BLOCK,
        ensures
            grow_ok(*old(self), *final(self), *old(inode), *final(inode), index, res),
            !old(self).store_view().encrypted && free_blocks_writable(*old(self)) && (if old(inode).single_indirect
                == 0 {
                frees_at_least(
                    old(self).blocks_in_use(),
                    old(self).superblock().data_start,
                    old(self).superblock().total_blocks,
                    2,
                )
            } else {
                read_block_spec(old(self).store_view(), old(inode).single_indirect) is Ok && frees_at_least(
                    old(self).blocks_in_use(),
                    old(self).superblock().data_start,
                    old(self).superblock().total_blocks,
                    1,
                )
            }) ==> res is Ok,
            res matches Err(e) ==> !request_error(e) || e is NoSpace,
    {
        let ghost s0 = self.store_view();
        let ghost used0 = self.blocks_in_use();
        let ghost i0 = *inode;
        let ghost ds = self.sb.data_start;
        let ghost track = !s0.encrypted && ds > 0 && file_ok(s0, used0, ds, i0);
        let ghost total = self.sb.total_blocks;
        let ghost ok = !s0.encrypted && free_blocks_writable(*self) && (if i0.single_indirect == 0 {
            frees_at_least(used0, ds, total, 2)
        } else {
            read_block_spec(s0, i0.single_indirect) is Ok && frees_at_least(used0, ds, total, 1)
        });
        proof {
            self.bitmap.lemma_len();
            if track {
                lemma_map_start(s0, used0, ds, i0);
            }
        }
        let relative = index - 12;
        if inode.single_indirect == 0 {
            proof {
                if ok {
                    lemma_some_free(used0, ds, total, 2);
                    lemma_free_writable_use(s0, used0, ds, total);
                }
            }
            let block = self.allocate_block()?;
            let ghost s1 = self.store_view();
            let ghost used1 = self.blocks_in_use();
            inode.single_indirect = block;
            proof {
                if ok {
                    lemma_take_free(used0, ds, total, 2, block as int);
                    lemma_free_writable_step(s0, s1, used0, used1, ds, total, block);
                }
                if track {
                    lemma_root_step(s0, s0, s1, used0, used1, ds, i0, i0, *inode, block, false);
                }
            }
        }
        let ghost sa = self.store_view();
        let ghost usa = self.blocks_in_use();
        let ghost ia = *inode;
        proof {
            self.bitmap.lemma_len();
            if track {
                assert(map_grown(s0, sa, usa, ds, i0, ia));
                assert(ia.single_indirect != 0);
            }
        }
        let single = inode.single_indirect;
        proof {
            if ok {
                assert(read_block_spec(sa, single) is Ok);
                assert(frees_at_least(usa, ds, total, 1));
                assert(free_writable(sa, usa, ds, total));
            }
        }
        let mut pointers = self.store.read_block(single)?;
        let ghost sb = self.store_view();
        proof {
            if ok {
                assert forall|x: u64| #[trigger] physical_block(sb, x) == physical_block(sa, x) by {
                    lemma_loaded_from_blocks(sa, sb, x);
                }
                lemma_free_writable_step(sa, sb, usa, usa, ds, total, single);
            }
            if track {
                lemma_loaded_step(s0, sa, sb, usa, ds, i0, ia);
            }
            lemma_loaded_from_blocks(sa, sb, single);
        }
        let pointer = Self::pointer_at(pointers.as_slice(), relative as usize);
        if pointer == 0 {
            proof {
                if ok {
                    lemma_some_free(usa, ds, total, 1);
                    lemma_free_writable_use(sb, usa, ds, total);
                    assert(self.blocks_in_use() == usa);
                    assert(self.store_view() == sb);
                    assert(!self.store_view().encrypted);
                    assert(exists|c: int| ds <= c < total && !#[trigger] self.blocks_in_use()[c]);
                }
            }
            let new_block = self.allocate_block()?;
            let ghost sc = self.store_view();
            let ghost usc = self.blocks_in_use();
            let ghost old_ptrs = pointers@;
            Self::set_pointer(&mut pointers, relative as usize, new_block);
            proof {
                if ok {
                    if single != new_block {
                        assert(physical_block(sc, single) == physical_block(sb, single));
                    }
                    assert(physical_block(sc, single) is Ok);
                }
            }
            self.store.write_block(single, pointers.as_slice())?;
            let ghost sd = self.store_view();
            inode.block_count = inode.block_count.wrapping_add(1);
            proof {
                if track {
                    let ib = *inode;
                    let blk = physical_block(sd, single)->Ok_0;
                    assert(slot_block(sb, ia, RefSlot::Single) == single);
                    lemma_entry_step(
                        s0,
                        sb,
                        sc,
                        sd,
                        usa,
                        usc,
                        ds,
                        i0,
                        ia,
                        ib,
                        RefSlot::Single,
                        relative as int,
                        new_block,
                        old_ptrs,
                        pointers@,
                        blk,
                    );
                    assert(slot_of(index) == RefSlot::SingleEntry(relative as int));
                }
            }
            return Ok(Some(new_block));
        }
        if pointer != 0 {
            return Ok(Some(pointer));
        }
        Ok(None)
    }

    /// `bmap` with allocation for the blocks behind the double-indirect block.
    #[verifier::spinoff_prover]
    #[verifier::rlimit(100)]
    fn grow_double(&mut self, inode: &mut Inode, index: u64) -> (res: Result<
        Option<u64>,
        FsError,
    >)
        requires
            old(self).wf(),
            12 + POINTERS_PER_BLOCK <= index,
            index - 12 - POINTERS_PER_BLOCK < POINTERS_PER_BLOCK * POINTERS_PER_BLOCK,
        ensures
            grow_ok(*old(self), *final(self), *old(inode), *final(inode), index, res),
            res matches Err(e) ==> !request_error(e) || e is NoSpace,
    {
        let ghost s0 = self.store_view();
        let ghost used0 = self.blocks_in_use();
        let ghost i0 = *inode;
        let ghost ds = self.sb.data_start;
        let ghost track = !s0.encrypted && ds > 0 && file_ok(s0, used0, ds, i0);
        proof {
            self.bitmap.lemma_len();
            if track {
                lemma_map_start(s0, used0, ds, i0);
            }
        }
        let relative = index - 12 - POINTERS_PER_BLOCK;
        if inode.double_indirect == 0 {
            let block = self.allocate_block()?;
            let ghost s1 = self.store_view();
            let ghost used1 = self.blocks_in_use();
            inode.double_indirect = block;
            proof {
                if track {
                    lemma_root_step(s0, s0, s1, used0, used1, ds, i0, i0, *inode, block, true);
                }
            }
        }
        let ghost sa = self.store_view();
        let ghost usa = self.blocks_in_use();
        let ghost ia = *inode;
        proof {
            self.bitmap.lemma_len();
            if track {
                assert(map_grown(s0, sa, usa, ds, i0, ia));
                assert(ia.double_indirect != 0);
            }
        }
        let double = inode.double_indirect;
        let outer_index = (relative / POINTERS_PER_BLOCK) as usize;
        let inner_index = (relative % POINTERS_PER_BLOCK) as usize;
        assert(outer_index < POINTERS_PER_BLOCK) by (nonlinear_arith)
            requires
                outer_index == relative / 504,
                relative < 504 * 504,
        ;
        let mut outer = self.store.read_block(double)?;
        let ghost sb = self.store_view();
        proof {
            if track {
                lemma_loaded_step(s0, sa, sb, usa, ds, i0, ia);
            }
            lemma_loaded_from_blocks(sa, sb, double);
        }
        let mut inner_block = Self::pointer_at(outer.as_slice(), outer_index);
        if inner_block == 0 {
            inner_block = self.allocate_block()?;
            let ghost sc = self.store_view();
            let ghost usc = self.blocks_in_use();
            let ghost old_outer = outer@;
            Self::set_pointer(&mut outer, outer_index, inner_block);
            self.store.write_block(double, outer.as_slice())?;
            let ghost sd = self.store_view();
            proof {
                if track {
                    let blk = physical_block(sd, double)->Ok_0;
                    assert(slot_block(sb, ia, RefSlot::Double) == double);
                    lemma_entry_step(
                        s0,
                        sb,
                        sc,
                        sd,
                        usa,
                        usc,
                        ds,
                        i0,
                        ia,
                        ia,
                        RefSlot::Double,
                        outer_index as int,
                        inner_block,
                        old_outer,
                        outer@,
                        blk,
                    );
                }
            }
        }
        let ghost se = self.store_view();
        let ghost use_ = self.blocks_in_use();
        proof {
            self.bitmap.lemma_len();
            if track {
                assert(map_grown(s0, se, use_, ds, i0, ia));
                assert(read_block_spec(se, double) == Ok::<Seq<u8>, FsFault>(outer@));
                assert(slot_block(se, ia, RefSlot::DoubleEntry(outer_index as int)) == inner_block);
            }
        }
        let mut inner = self.store.read_block(inner_block)?;
        let ghost sf = self.store_view();
        proof {
            if track {
                lemma_loaded_step(s0, se, sf, use_, ds, i0, ia);
            }
            lemma_loaded_from_blocks(se, sf, inner_block);
            lemma_loaded_from_blocks(se, sf, double);
        }
        let pointer = Self::pointer_at(inner.as_slice(), inner_index);
        if pointer == 0 {
            let new_block = self.allocate_block()?;
            let ghost sg = self.store_view();
            let ghost usg = self.blocks_in_use();
            let ghost old_inner = inner@;
            Self::set_pointer(&mut inner, inner_index, new_block);
            self.store.write_block(inner_block, inner.as_slice())?;
            let ghost sh = self.store_view();
            inode.block_count = inode.block_count.wrapping_add(1);
            proof {
                if track {
                    let ib = *inode;
                    let blk = physical_block(sh, inner_block)->Ok_0;
                    assert(slot_block(sf, ia, RefSlot::DoubleEntry(outer_index as int)) == inner_block);
                    lemma_entry_step(
                        s0,
                        sf,
                        sg,
                        sh,
                        use_,
                        usg,
                        ds,
                        i0,
                        ia,
                        ib,
                        RefSlot::DoubleEntry(outer_index as int),
                        inner_index as int,
                        new_block,
                        old_inner,
                        inner@,
                        blk,
                    );
                    assert(slot_of(index) == RefSlot::InnerEntry(outer_index as int, inner_index as int));
                }
            }
            return Ok(Some(new_block));
        }
        if pointer != 0 {
            return Ok(Some(pointer));
        }
        Ok(None)
    }

    #[verifier::loop_isolation(false)]
    /// Every entry of a directory with its position in the directory: each
    /// mapped block of the directory's size read record by record.
    fn directory_entries(&mut self, inode: &Inode) -> (res: Result<Vec<(u64, DirEntry)>, FsError>)
        requires
            old(self).wf(),
        ensures
            final(self).wf(),
            final(self).superblock() == old(self).superblock(),
            final(self).blocks_in_use() == old(self).blocks_in_use(),
            loaded_from(old(self).store_view(), final(self).store_view()),
            res matches Ok(v) ==> dir_listing(old(self).store_view(), *inode) == Ok::<
                Seq<(u64, Seq<char>, u8)>,
                FsFault,
            >(entries_view(v@)),
            dir_listing(old(self).store_view(), *inode) is Err ==> res is Err,
            dir_listing(old(self).store_view(), *inode) is Ok && inode.size + UB <= u64::MAX ==> res is Ok,
    {
        let mut entries: Vec<(u64, DirEntry)> = Vec::new();
        let blocks = ceil_div(inode.size, UB as u64);
        let mut copy = *inode;
        let ghost start = self.store_view();
        let mut logical: u64 = 0;
        proof {
            assert(entries_view(entries@) =~= Seq::<(u64, Seq<char>, u8)>::empty());
            lemma_blocks_cover(inode.size);
        }
        while logical < blocks
            invariant
                self.wf(),
                self.superblock() == old(self).superblock(),
                self.blocks_in_use() == old(self).blocks_in_use(),
                start == old(self).store_view(),
                store_wf(start),
                loaded_from(start, self.store_view()),
                copy == *inode,
                blocks == div_ceil(inode.size as int, UB as int),
                (blocks - 1) * UB < inode.size || blocks == 0,
                logical <= blocks,
                listing_upto(start, *inode, logical as nat) == Ok::<
                    Seq<(u64, Seq<char>, u8)>,
                    FsFault,
                >(entries_view(entries@)),
            decreases blocks - logical,
        {
            let ghost s1 = self.store_view();
            proof {
                lemma_file_block_loaded(start, s1, *inode, logical);
                lemma_block_listing(start, *inode, logical);
            }
            let mapped = match self.bmap(&mut copy, logical, false) {
                Ok(m) => m,
                Err(e) => {
                    proof {
                        lemma_listing_err_persists(start, *inode, (logical + 1) as nat, blocks as nat);
                    }
                    return Err(e);
                },
            };
            proof {
                super::block::lemma_loaded_from_trans(start, s1, self.store_view());
            }
            if let Some(block) = mapped {
                let ghost s2 = self.store_view();
                proof {
                    lemma_loaded_from_blocks(start, s2, block);
                }
                let payload = match self.store.read_block(block) {
                    Ok(p) => p,
                    Err(e) => {
                        proof {
                            lemma_listing_err_persists(start, *inode, (logical + 1) as nat, blocks as nat);
                        }
                        return Err(e);
                    },
                };
                proof {
                    super::block::lemma_loaded_from_trans(start, s2, self.store_view());
                    assert(logical * UB <= (blocks - 1) * UB) by (nonlinear_arith)
                        requires
                            logical <= blocks - 1,
                    ;
                }
                let base = logical * UB as u64;
                let mut found = match block_entries(payload.as_slice(), base) {
                    Ok(f) => f,
                    Err(e) => {
                        proof {
                            if inode.size + UB <= u64::MAX {
                                lemma_listing_err_persists(start, *inode, (logical + 1) as nat, blocks as nat);
                            }
                        }
                        return Err(e);
                    },
                };
                let ghost before = entries@;
                let ghost got = found@;
                entries.append(&mut found);
                proof {
                    assert(entries@ =~= before + got);
                    assert(entries_view(entries@) =~= entries_view(before) + entries_view(got));
                }
            }
            logical += 1;
        }
        Ok(entries)
    }

    #[verifier::loop_isolation(false)]
    /// The inode a directory's entry `name` names: the first live record of
    /// that name.
    pub fn lookup(&mut self, parent_ino: u64, name: &str) -> (res: Result<Option<u64>, FsError>)
        requires
            old(self).wf(),
        ensures
            final(self).wf(),
            final(self).superblock() == old(self).superblock(),
            final(self).blocks_in_use() == old(self).blocks_in_use(),
            loaded_from(old(self).store_view(), final(self).store_view()),
            parent_ino == 0 || parent_ino > old(self).superblock().inode_count ==> (res matches Err(
                FsError::NotFound,
            )),
            res matches Ok(r) ==> named_in(
                old(self).store_view(),
                old(self).superblock(),
                parent_ino,
                name@,
                r,
            ),
            res matches Ok(Some(ino)) ==> ino != 0,
            forall|r: Option<u64>|
                #[trigger] named_in(old(self).store_view(), old(self).superblock(), parent_ino, name@, r)
                    && dir_has_room(old(self).store_view(), old(self).superblock(), parent_ino) ==> res
                    == Ok::<Option<u64>, FsError>(r),
            forall|i: Inode|
                #[trigger] stored_inode(old(self).store_view(), old(self).superblock(), parent_ino, i) ==> (i.mode
                    == 0 ==> (res matches Err(FsError::NotFound))) && (i.mode != 0 && i.mode & S_IFMT != S_IFDIR
                    ==> (res matches Err(FsError::NotDir))),
    {
        let ghost start = self.store_view();
        let ghost sb = self.superblock();
        proof {
            lemma_named_dir_readable(start, sb, parent_ino, name@);
            assert forall|i: Inode| #[trigger] stored_inode(start, sb, parent_ino, i) implies inode_readable(
                start,
                sb,
                parent_ino,
            ) && (i.mode == 0 ==> !inode_in_use(start, sb, parent_ino)) && (i.mode != 0 ==> inode_in_use(
                start,
                sb,
                parent_ino,
            )) by {
                if i.mode == 0 && inode_in_use(start, sb, parent_ino) {
                    let j = choose|j: Inode| #[trigger] stored_inode(start, sb, parent_ino, j) && j.mode != 0;
                    lemma_stored_inode_unique(start, sb, parent_ino, i, j);
                }
            }
        }
        let parent = self.getattr(parent_ino)?;
        proof {
            assert forall|i: Inode| #[trigger] stored_inode(start, sb, parent_ino, i) implies i == parent by {
                lemma_stored_inode_unique(start, sb, parent_ino, i, parent);
            }
        }
        proof {
            lemma_named_dir_is(start, sb, parent_ino, name@, parent);
        }
        if !parent.is_dir() {
            return Err(FsError::NotDir);
        }
        let ghost s1 = self.store_view();
        proof {
            lemma_listing_loaded(start, s1, parent);
        }
        let entries = self.directory_entries(&parent)?;
        let ghost l = entries_view(entries@);
        proof {
            super::block::lemma_loaded_from_trans(start, s1, self.store_view());
            lemma_listing_loaded(start, s1, parent);
        }
        let found = first_named(&entries, name);
        proof {
            assert(stored_inode(start, old(self).superblock(), parent_ino, parent));
            assert(dir_listing(start, parent) == Ok::<Seq<(u64, Seq<char>, u8)>, FsFault>(l));
            assert(find_entry(l, name@) == found);
            assert forall|r: Option<u64>|
                #[trigger] named_in(start, sb, parent_ino, name@, r) implies r == found by {
                lemma_named_in_unique(start, sb, parent_ino, name@, r, found);
            }
        }
        Ok(found)
    }

    #[verifier::loop_isolation(false)]
    /// The live entries of a directory, in order: inode, name and file type.
    pub fn readdir(&mut self, ino: u64) -> (res: Result<Vec<(u64, String, u8)>, FsError>)
        requires
            old(self).wf(),
        ensures
            final(self).wf(),
            final(self).superblock() == old(self).superblock(),
            final(self).blocks_in_use() == old(self).blocks_in_use(),
            loaded_from(old(self).store_view(), final(self).store_view()),
            ino == 0 || ino > old(self).superblock().inode_count ==> (res matches Err(
                FsError::NotFound,
            )),
            res matches Ok(list) ==> exists|l: Seq<(u64, Seq<char>, u8)>|
                #[trigger] dir_lists(old(self).store_view(), old(self).superblock(), ino, l) && listed_view(list@)
                    == live_entries(l),
            res matches Ok(list) ==> forall|k: int| 0 <= k < list@.len() ==> (#[trigger] list@[k]).0 != 0,
            forall|l: Seq<(u64, Seq<char>, u8)>|
                #[trigger] dir_lists(old(self).store_view(), old(self).superblock(), ino, l) && dir_has_room(
                    old(self).store_view(),
                    old(self).superblock(),
                    ino,
                ) ==> res is Ok && listed_view(res->Ok_0@) == live_entries(l),
    {
        let ghost start = self.store_view();
        let ghost sb = self.superblock();
        proof {
            lemma_listing_dir_readable(start, sb, ino);
        }
        let inode = self.getattr(ino)?;
        proof {
            lemma_listing_dir_is(start, sb, ino, inode);
        }
        if !inode.is_dir() {
            return Err(FsError::NotDir);
        }
        let ghost s1 = self.store_view();
        proof {
            lemma_listing_loaded(start, s1, inode);
        }
        let entries = self.directory_entries(&inode)?;
        let ghost l = entries_view(entries@);
        proof {
            super::block::lemma_loaded_from_trans(start, s1, self.store_view());
            lemma_listing_loaded(start, s1, inode);
        }
        let mut out: Vec<(u64, String, u8)> = Vec::new();
        let n = entries.len();
        let mut i: usize = 0;
        proof {
            assert(l.subrange(0, 0) =~= Seq::<(u64, Seq<char>, u8)>::empty());
            assert(listed_view(out@) =~= Seq::<(u64, Seq<char>, u8)>::empty());
        }
        while i < n
            invariant
                n == entries@.len(),
                i <= n,
                l == entries_view(entries@),
                listed_view(out@) == live_entries(l.subrange(0, i as int)),
                forall|k: int| 0 <= k < out@.len() ==> (#[trigger] out@[k]).0 != 0,
            decreases n - i,
        {
            let (_, entry) = &entries[i];
            let ghost before = out@;
            proof {
                assert(l.subrange(0, i + 1).drop_last() =~= l.subrange(0, i as int));
                assert(l.subrange(0, i + 1).last() == entry_view(*entry));
            }
            if entry.inode != 0 {
                out.push((entry.inode, entry.name.clone(), entry.file_type));
                proof {
                    assert(listed_view(out@) =~= listed_view(before).push(entry_view(*entry)));
                }
            }
            i += 1;
        }
        proof {
            assert(l.subrange(0, n as int) =~= l);
            assert(stored_inode(start, sb, ino, inode));
            assert(dir_lists(start, sb, ino, l));
            assert forall|l2: Seq<(u64, Seq<char>, u8)>| #[trigger] dir_lists(start, sb, ino, l2) implies l2 == l by {
                let q = choose|q: Inode| #[trigger] stored_inode(start, sb, ino, q) && q.mode & S_IFMT == S_IFDIR
                    && dir_listing(start, q) == Ok::<Seq<(u64, Seq<char>, u8)>, FsFault>(l2);
                lemma_stored_inode_unique(start, sb, ino, q, inode);
            }
        }
        Ok(out)
    }

    /// Stamps a directory's modification and change times and writes it.
    fn bump_directory(&mut self, ino: u64, inode: Inode) -> (res: Result<(), FsError>)
        requires
            old(self).wf(),
        ensures
            final(self).wf(),
            final(self).superblock() == old(self).superblock(),
            final(self).blocks_in_use() == old(self).blocks_in_use(),
            same_frame(old(self).store_view(), final(self).store_view()),
            !old(self).store_view().encrypted && inode_readable(
                old(self).store_view(),
                old(self).superblock(),
                ino,
            ) ==> res is Ok,
            res is Ok ==> exists|i: Inode|
                #[trigger] inode_written(old(self).store_view(), final(self).store_view(), old(self).superblock(), ino, i)
                    && same_tree(i, inode),
            forall|other: u64|
                (inode_slot(
                    old(self).superblock().inode_table_start,
                    old(self).superblock().inode_count,
                    ino,
                ) matches Some((b, _)) ==> other != b) ==> #[trigger] physical_block(
                    final(self).store_view(),
                    other,
                ) == physical_block(old(self).store_view(), other),
    {
        let mut inode = inode;
        inode.mtime = now();
        inode.ctime = inode.mtime;
        self.write_inode(ino, &inode)
    }

    #[verifier::spinoff_prover]
    #[verifier::rlimit(100)]
    /// Adds the entry `name` for inode `ino` to a directory: into a free
    /// record or the spare room of a live one where either fits, else into
    /// a new block at the directory's end.
    #[verifier::spinoff_prover]
    #[verifier::rlimit(60)]
    fn add_dir_entry(&mut self, parent_ino: u64, ino: u64, name: &str, file_type: u8) -> (res: Result<
        (),
        FsError,
    >)
        requires
            old(self).wf(),
        ensures
            final(self).wf(),
            final(self).superblock() == old(self).superblock(),
            parent_ino == 0 || parent_ino > old(self).superblock().inode_count ==> (res matches Err(
                FsError::NotFound,
            )),
            res is Ok && ino != 0 && dir_takes(*old(self), parent_ino, name@) ==> named_in(
                final(self).store_view(),
                final(self).superblock(),
                parent_ino,
                name@,
                Some(ino),
            ) && file_in_order(*final(self), parent_ino),
            forall|p: Inode|
                #[trigger] stored_inode(old(self).store_view(), old(self).superblock(), parent_ino, p) && p.mode != 0
                    && p.mode & S_IFMT == S_IFDIR && !old(self).store_view().encrypted && name.spec_bytes().len()
                    <= 255 && dir_blocks_listed(old(self).store_view(), p) && dir_block_with_room(
                    old(self).store_view(),
                    p,
                    0,
                    required_len_spec(name.spec_bytes().len() as int),
                ) ==> res is Ok,
    {
        let ghost s0 = self.store_view();
        let ghost used0 = self.blocks_in_use();
        let ghost sb = self.superblock();
        let ghost g = ino != 0 && dir_takes(*old(self), parent_ino, name@);
        let ghost req = required_len_spec(name.spec_bytes().len() as int);
        proof {
            assert forall|i: Inode|
                #[trigger] stored_inode(s0, sb, parent_ino, i) && i.mode != 0 implies inode_readable(
                s0,
                sb,
                parent_ino,
            ) && inode_in_use(s0, sb, parent_ino) by {}
        }
        let mut parent = self.getattr(parent_ino)?;
        let ghost p0 = parent;
        proof {
            assert forall|i: Inode| #[trigger] stored_inode(s0, sb, parent_ino, i) implies i == p0 by {
                lemma_stored_inode_unique(s0, sb, parent_ino, i, p0);
            }
        }
        let ghost good = !s0.encrypted && name.spec_bytes().len() <= 255 && dir_blocks_listed(s0, p0)
            && dir_block_with_room(s0, p0, 0, req) && inode_readable(s0, sb, parent_ino);
        if !parent.is_dir() {
            return Err(FsError::NotDir);
        }
        proof {
            if g {
                lemma_dir_takes(*old(self), parent_ino, name@, p0);
            }
        }
        let name_len = name.as_bytes().len();
        if name_len > 255 {
            return Err(FsError::NoSpace);
        }
        let block_count = ceil_div(parent.size, UB as u64);
        let mut logical: u64 = 0;
        while logical < block_count
            invariant
                self.wf(),
                self.superblock() == sb,
                sb == old(self).superblock(),
                !(parent_ino == 0 || parent_ino > sb.inode_count),
                self.blocks_in_use() == used0,
                store_wf(s0),
                loaded_from(s0, self.store_view()),
                parent == p0,
                p0.mode & S_IFMT == S_IFDIR,
                name_len == name.spec_bytes().len(),
                name_len <= 255,
                block_count == div_ceil(p0.size as int, UB as int),
                logical <= block_count,
                g == (ino != 0 && dir_takes(*old(self), parent_ino, name@)),
                g ==> dir_takes_facts(s0, sb, used0, p0, name@),
                g ==> forall|k: u64|
                    k < logical ==> (#[trigger] block_listing(s0, p0, k) matches Ok(Some(_))),
                good ==> !s0.encrypted && dir_blocks_listed(s0, p0) && dir_block_with_room(s0, p0, logical, req)
                    && inode_readable(s0, sb, parent_ino),
                s0 == old(self).store_view(),
                good == (!s0.encrypted && name.spec_bytes().len() <= 255 && dir_blocks_listed(s0, p0)
                    && dir_block_with_room(s0, p0, 0, req) && inode_readable(s0, sb, parent_ino)),
                forall|i: Inode| #[trigger] stored_inode(s0, sb, parent_ino, i) ==> i == p0,
                stored_inode(s0, sb, parent_ino, p0),
                req == required_len_spec(name.spec_bytes().len() as int),
            decreases block_count - logical,
        {
            let ghost before = self.store_view();
            proof {
                if good {
                    assert((block_listing(before, p0, logical) matches Ok(Some(_))) && inode_readable(
                        before,
                        sb,
                        parent_ino,
                    )) by {
                        lemma_block_listing_loaded(s0, before, p0, logical);
                        lemma_readable_loaded(s0, before, sb, parent_ino);
                        assert(block_listing(s0, p0, logical) matches Ok(Some(_)));
                    }
                }
            }
            if self.add_in_block(parent_ino, &parent, logical, ino, name, file_type, Ghost(g), Ghost(s0), Ghost(used0))? {
                return Ok(());
            }
            proof {
                super::block::lemma_loaded_from_trans(s0, before, self.store_view());
                if good {
                    assert(!block_with_room(s0, p0, logical, req)) by {
                        reveal(block_with_room);
                        lemma_file_block_loaded(s0, before, p0, logical);
                        let b = file_block(before, p0, logical)->Ok_0->Some_0;
                        lemma_loaded_from_blocks(s0, before, b);
                    }
                    lemma_room_moves_on(s0, p0, logical, req);
                }
            }
            logical += 1;
        }
        self.append_dir_block(parent_ino, parent, ino, name, file_type, Ghost(g), Ghost(s0), Ghost(used0))
    }

    /// Tries to add the record of `ino` named `name` to block `logical` of a
    /// directory, in place: `Ok(true)` where it took it and was written
    /// back, `Ok(false)`, with nothing written, where it had no room.
    #[verifier::spinoff_prover]
    fn add_in_block(
        &mut self,
        parent_ino: u64,
        parent: &Inode,
        logical: u64,
        ino: u64,
        name: &str,
        file_type: u8,
        Ghost(g): Ghost<bool>,
        Ghost(s0): Ghost<StoreView>,
        Ghost(used0): Ghost<Seq<bool>>,
    ) -> (res: Result<bool, FsError>)
        requires
            old(self).wf(),
            name.spec_bytes().len() <= 255,
            g ==> {
                &&& ino != 0
                &&& dir_takes_facts(s0, old(self).superblock(), used0, *parent, name@)
                &&& parent.mode & S_IFMT == S_IFDIR
                &&& store_wf(s0)
                &&& loaded_from(s0, old(self).store_view())
                &&& old(self).blocks_in_use() == used0
                &&& logical < div_ceil(parent.size as int, UB as int)
            },
        ensures
            final(self).wf(),
            final(self).superblock() == old(self).superblock(),
            res matches Ok(false) ==> final(self).blocks_in_use() == old(self).blocks_in_use() && loaded_from(
                old(self).store_view(),
                final(self).store_view(),
            ) && (g ==> (block_listing(s0, *parent, logical) matches Ok(Some(_)))),
            res matches Ok(true) && g ==> named_in(
                final(self).store_view(),
                final(self).superblock(),
                parent_ino,
                name@,
                Some(ino),
            ) && file_in_order(*final(self), parent_ino),
            res matches Ok(false) ==> file_block(old(self).store_view(), *parent, logical) matches Ok(
                Some(b),
            ) && read_block_spec(old(self).store_view(), b) matches Ok(p) && !room_from(
                p,
                0,
                required_len_spec(name.spec_bytes().len() as int),
            ),
            !old(self).store_view().encrypted && (block_listing(
                old(self).store_view(),
                *parent,
                logical,
            ) matches Ok(Some(_))) && inode_readable(
                old(self).store_view(),
                old(self).superblock(),
                parent_ino,
            ) ==> res is Ok,
    {
        let ghost s1 = self.store_view();
        let mut copy = *parent;
        proof {
            lemma_block_listing(s1, *parent, logical);
            if g {
                reveal(dir_takes_facts);
                lemma_file_block_loaded(s0, s1, *parent, logical);
                lemma_block_listing(s0, *parent, logical);
            }
        }
        let block = match self.bmap(&mut copy, logical, false)? {
            Some(b) => b,
            None => return Err(FsError::Manifest("directory has a hole".to_string())),
        };
        let ghost s2 = self.store_view();
        proof {
            lemma_loaded_from_blocks(s1, s2, block);
            lemma_used_count_loaded(s1, s2, self.superblock(), 0);
            if g {
                super::block::lemma_loaded_from_trans(s0, s1, s2);
                lemma_loaded_from_blocks(s0, s2, block);
            }
        }
        let mut payload = self.store.read_block(block)?;
        proof {
            super::block::lemma_loaded_from_trans(s1, s2, self.store_view());
            lemma_used_count_loaded(s1, self.store_view(), self.superblock(), 0);
            lemma_loaded_from_blocks(s1, self.store_view(), block);
        }
        let ghost pold = payload@;
        if insert_record(&mut payload, ino, name, file_type)? {
            self.write_dir_block(
                parent_ino,
                *parent,
                block,
                payload,
                Ghost(g),
                Ghost(s0),
                Ghost(used0),
                Ghost(logical),
                Ghost(pold),
                Ghost(name@),
                Ghost(ino),
            )?;
            return Ok(true);
        }
        proof {
            if g {
                reveal(dir_takes_facts);
                lemma_listing_piece(s0, *parent, div_ceil(parent.size as int, UB as int) as nat, logical as nat);
            }
        }
        Ok(false)
    }

    /// Writes back a directory block that took a new record in place, and
    /// stamps the directory.
    #[verifier::spinoff_prover]
    fn write_dir_block(
        &mut self,
        parent_ino: u64,
        parent: Inode,
        block: u64,
        payload: Vec<u8>,
        Ghost(g): Ghost<bool>,
        Ghost(s0): Ghost<StoreView>,
        Ghost(used0): Ghost<Seq<bool>>,
        Ghost(j): Ghost<u64>,
        Ghost(pold): Ghost<Seq<u8>>,
        Ghost(name): Ghost<Seq<char>>,
        Ghost(ino): Ghost<u64>,
    ) -> (res: Result<(), FsError>)
        requires
            old(self).wf(),
            g ==> {
                &&& dir_takes_facts(s0, old(self).superblock(), used0, parent, name)
                &&& parent.mode & S_IFMT == S_IFDIR
                &&& store_wf(s0)
                &&& loaded_from(s0, old(self).store_view())
                &&& old(self).blocks_in_use() == used0
                &&& j < div_ceil(parent.size as int, UB as int)
                &&& file_block(s0, parent, j) == Ok::<Option<u64>, FsFault>(Some(block))
                &&& read_block_spec(s0, block) == Ok::<Seq<u8>, FsFault>(pold)
                &&& payload@.len() == UB
                &&& (records_from(pold, 0) is Some ==> records_from(payload@, 0) is Some && (find_entry(
                    records_from(pold, 0)->Some_0,
                    name,
                ) is None ==> find_entry(records_from(payload@, 0)->Some_0, name) == Some(ino)))
            },
        ensures
            final(self).wf(),
            final(self).superblock() == old(self).superblock(),
            res is Ok && g ==> named_in(
                final(self).store_view(),
                final(self).superblock(),
                parent_ino,
                name,
                Some(ino),
            ) && file_in_order(*final(self), parent_ino),
            !old(self).store_view().encrypted && payload@.len() <= UB && physical_block(
                old(self).store_view(),
                block,
            ) is Ok && inode_readable(old(self).store_view(), old(self).superblock(), parent_ino)
                ==> res is Ok,
    {
        let ghost cur = self.store_view();
        let ghost sb = self.superblock();
        self.store.write_block(block, payload.as_slice())?;
        let ghost sw = self.store_view();
        proof {
            if !cur.encrypted && payload@.len() <= UB {
                lemma_write_keeps_reads(cur, sw, block, payload@);
            }
        }
        let r = self.bump_directory(parent_ino, parent);
        proof {
            if g && r is Ok {
                reveal(dir_takes_facts);
                let sf = self.store_view();
                let pf = choose|i: Inode| #[trigger] inode_written(sw, sf, sb, parent_ino, i) && same_tree(i, parent);
                lemma_inplace_law(
                    s0,
                    cur,
                    sw,
                    sf,
                    sb,
                    used0,
                    parent_ino,
                    parent,
                    pf,
                    j,
                    block,
                    pold,
                    payload@,
                    physical_block(sw, block)->Ok_0,
                    name,
                    ino,
                );
            }
        }
        r
    }

    /// Adds a block at a directory's end that holds the new record alone,
    /// and stamps the directory with its grown size.
    #[verifier::spinoff_prover]
    #[verifier::rlimit(100)]
    fn append_dir_block(
        &mut self,
        parent_ino: u64,
        parent: Inode,
        ino: u64,
        name: &str,
        file_type: u8,
        Ghost(g): Ghost<bool>,
        Ghost(s0): Ghost<StoreView>,
        Ghost(used0): Ghost<Seq<bool>>,
    ) -> (res: Result<(), FsError>)
        requires
            old(self).wf(),
            name.spec_bytes().len() <= 255,
            g ==> {
                &&& ino != 0
                &&& dir_takes_facts(s0, old(self).superblock(), used0, parent, name@)
                &&& parent.mode & S_IFMT == S_IFDIR
                &&& store_wf(s0)
                &&& loaded_from(s0, old(self).store_view())
                &&& old(self).blocks_in_use() == used0
                &&& forall|k: u64|
                    k < div_ceil(parent.size as int, UB as int) ==> (#[trigger] block_listing(s0, parent, k) matches Ok(Some(_)))
            },
        ensures
            final(self).wf(),
            final(self).superblock() == old(self).superblock(),
            res is Ok && g ==> named_in(
                final(self).store_view(),
                final(self).superblock(),
                parent_ino,
                name@,
                Some(ino),
            ) && file_in_order(*final(self), parent_ino),
    {
        let ghost cur = self.store_view();
        let ghost sb = self.superblock();
        let mut parent = parent;
        let ghost p0 = parent;
        let block_count = ceil_div(parent.size, UB as u64);
        proof {
            if g {
                reveal(dir_takes_facts);
                assert forall|lba: u64| lba >= sb.data_start implies #[trigger] physical_block(cur, lba)
                    == physical_block(s0, lba) by {
                    lemma_loaded_from_blocks(s0, cur, lba);
                }
                lemma_tree_frame(s0, cur, used0, sb.data_start, p0);
            }
        }
        let block = self.grow_dir(&mut parent, block_count, Ghost(g))?;
        let ghost sa = self.store_view();
        let ghost grown = parent;
        let (payload, Ghost(record)) = fresh_dir_block(ino, name, file_type)?;
        parent.size = parent.size.wrapping_add(UB as u64);
        proof {
            if g {
                assert(parent.size == p0.size + UB);
                assert(resized(parent, p0.size) == grown);
                lemma_same_pointers(sa, grown, parent);
            }
        }
        self.write_new_dir_block(
            parent_ino,
            parent,
            block,
            payload,
            Ghost(g),
            Ghost(s0),
            Ghost(cur),
            Ghost(used0),
            Ghost(p0),
            Ghost(ino),
            Ghost(name@),
            Ghost(file_type),
            Ghost(record),
        )
    }

    /// Writes a directory's fresh last block and stamps the directory with
    /// its grown size.
    #[verifier::spinoff_prover]
    #[verifier::rlimit(100)]
    fn write_new_dir_block(
        &mut self,
        parent_ino: u64,
        parent: Inode,
        block: u64,
        payload: Vec<u8>,
        Ghost(g): Ghost<bool>,
        Ghost(s0): Ghost<StoreView>,
        Ghost(cur): Ghost<StoreView>,
        Ghost(used0): Ghost<Seq<bool>>,
        Ghost(p0): Ghost<Inode>,
        Ghost(ino): Ghost<u64>,
        Ghost(name): Ghost<Seq<char>>,
        Ghost(file_type): Ghost<u8>,
        Ghost(record): Ghost<DirEntry>,
    ) -> (res: Result<(), FsError>)
        requires
            old(self).wf(),
            g ==> {
                &&& ino != 0
                &&& dir_takes_facts(s0, old(self).superblock(), used0, p0, name)
                &&& p0.mode & S_IFMT == S_IFDIR
                &&& store_wf(s0)
                &&& loaded_from(s0, cur)
                &&& forall|k: u64|
                    k < div_ceil(p0.size as int, UB as int) ==> (#[trigger] block_listing(s0, p0, k) matches Ok(Some(_)))
                &&& map_grown(
                    cur,
                    old(self).store_view(),
                    old(self).blocks_in_use(),
                    old(self).superblock().data_start,
                    p0,
                    resized(parent, p0.size),
                )
                &&& file_block(old(self).store_view(), parent, div_ceil(p0.size as int, UB as int) as u64)
                    == Ok::<Option<u64>, FsFault>(Some(block))
                &&& parent.size == p0.size + UB
                &&& parent.mode == p0.mode
                &&& new_block_record(record, ino, name, file_type, payload@)
            },
        ensures
            final(self).wf(),
            final(self).superblock() == old(self).superblock(),
            res is Ok && g ==> named_in(
                final(self).store_view(),
                final(self).superblock(),
                parent_ino,
                name,
                Some(ino),
            ) && file_in_order(*final(self), parent_ino),
            !old(self).store_view().encrypted && payload@.len() <= UB && physical_block(
                old(self).store_view(),
                block,
            ) is Ok && inode_readable(old(self).store_view(), old(self).superblock(), parent_ino)
                ==> res is Ok,
    {
        let ghost sa = self.store_view();
        let ghost used_a = self.blocks_in_use();
        let ghost sb = self.superblock();
        self.store.write_block(block, payload.as_slice())?;
        let ghost sbb = self.store_view();
        proof {
            if !sa.encrypted && payload@.len() <= UB {
                lemma_write_keeps_reads(sa, sbb, block, payload@);
            }
        }
        let r = self.bump_directory(parent_ino, parent);
        proof {
            if g && r is Ok {
                let pf = choose|i: Inode|
                    #[trigger] inode_written(sbb, self.store_view(), sb, parent_ino, i) && same_tree(i, parent);
                lemma_append_finish(
                    s0,
                    cur,
                    sa,
                    sbb,
                    *self,
                    sb,
                    used0,
                    used_a,
                    parent_ino,
                    p0,
                    parent,
                    pf,
                    block,
                    record,
                    physical_block(sbb, block)->Ok_0,
                    name,
                );
            }
        }
        r
    }

    /// Maps block `index` of a directory to a fresh block.
    fn grow_dir(&mut self, parent: &mut Inode, index: u64, Ghost(g): Ghost<bool>) -> (res: Result<u64, FsError>)
        requires
            old(self).wf(),
            g ==> !old(self).store_view().encrypted && old(self).superblock().data_start > 0 && file_ok(
                old(self).store_view(),
                old(self).blocks_in_use(),
                old(self).superblock().data_start,
                *old(parent),
            ),
        ensures
            final(self).wf(),
            final(self).superblock() == old(self).superblock(),
            final(parent).size == old(parent).size,
            final(parent).mode == old(parent).mode,
            res is Ok && g ==> map_grown(
                old(self).store_view(),
                final(self).store_view(),
                final(self).blocks_in_use(),
                old(self).superblock().data_start,
                *old(parent),
                *final(parent),
            ) && file_block(final(self).store_view(), *final(parent), index) == Ok::<Option<u64>, FsFault>(
                Some(res->Ok_0),
            ),
            index < 12 && old(parent).direct[index as int] != 0 ==> res == Ok::<u64, FsError>(
                old(parent).direct[index as int],
            ),
            index >= 12 + POINTERS_PER_BLOCK + POINTERS_PER_BLOCK * POINTERS_PER_BLOCK ==> (res matches Err(
                FsError::BadBlock(b),
            ) && b == index),
            old(self).superblock().data_start > 0 && index < 12 + POINTERS_PER_BLOCK && single_growable(
                *old(self),
                *old(parent),
                index,
            ) ==> res is Ok,
    {
        let r = self.bmap(parent, index, true)?;
        proof {
            reveal(bmap_grew);
        }
        match r {
            Some(b) => Ok(b),
            None => Err(FsError::NoSpace),
        }
    }

    #[verifier::loop_isolation(false)]
    /// Removes the live entry `name` from a directory: its record joins the
    /// previous live record, or, as the block's first, is marked free.
    fn remove_dir_entry(&mut self, parent_ino: u64, name: &str) -> (res: Result<(), FsError>)
        requires
            old(self).wf(),
        ensures
            final(self).wf(),
            final(self).superblock() == old(self).superblock(),
            parent_ino == 0 || parent_ino > old(self).superblock().inode_count ==> (res matches Err(
                FsError::NotFound,
            )),
    {
        let mut parent = self.getattr(parent_ino)?;
        if !parent.is_dir() {
            return Err(FsError::NotDir);
        }
        let blocks = ceil_div(parent.size, UB as u64);
        let mut logical: u64 = 0;
        while logical < blocks
            invariant
                self.wf(),
                self.superblock() == old(self).superblock(),
            decreases blocks - logical,
        {
            let block = match self.bmap(&mut parent, logical, false)? {
                Some(b) => b,
                None => return Err(FsError::Manifest("directory has a hole".to_string())),
            };
            let mut payload = self.store.read_block(block)?;
            let mut offset: usize = 0;
            let mut previous: Option<usize> = None;
            while offset < UB
                invariant
                    payload@.len() == UB,
                    previous matches Some(p) ==> p < offset,
                    self.wf(),
                    self.superblock() == old(self).superblock(),
                decreases UB - offset,
            {
                let entry = DirEntry::decode(payload.as_slice(), offset)?;
                let rec_len = entry.rec_len as usize;
                if entry.inode != 0 && same_name(entry.name.as_str(), name) {
                    match previous {
                        Some(p) => {
                            let old_len = crate::layout::get16_at(payload.as_slice(), p + 8) as usize;
                            let combined = old_len + rec_len;
                            crate::layout::put16(&mut payload, p + 8, combined as u16);
                        },
                        None => {
                            crate::layout::fill_zero(&mut payload, offset, 8);
                        },
                    }
                    self.store.write_block(block, payload.as_slice())?;
                    return self.bump_directory(parent_ino, parent);
                }
                if entry.inode != 0 {
                    previous = Some(offset);
                }
                offset += rec_len;
            }
            logical += 1;
        }
        Err(FsError::NotFound)
    }

    #[verifier::loop_isolation(false)]
    /// Points a directory's ".." entry at its new parent.
    #[verifier::spinoff_prover]
    #[verifier::rlimit(40)]
    fn update_dotdot(&mut self, directory: &Inode, new_parent: u64) -> (res: Result<(), FsError>)
        requires
            old(self).wf(),
        ensures
            final(self).wf(),
            final(self).superblock() == old(self).superblock(),
            final(self).blocks_in_use() == old(self).blocks_in_use(),
            same_frame(old(self).store_view(), final(self).store_view()),
            directory.direct[0] == 0 ==> (res matches Err(FsError::Manifest(_))),
            res is Ok ==> directory.direct[0] != 0 && forall|x: u64|
                x != directory.direct[0] ==> #[trigger] physical_block(final(self).store_view(), x)
                    == physical_block(old(self).store_view(), x),
    {
        let ghost s0 = self.store_view();
        let mut copy = *directory;
        let block = match self.bmap(&mut copy, 0, false)? {
            Some(b) => b,
            None => return Err(FsError::Manifest("directory has no first block".to_string())),
        };
        let ghost s1 = self.store_view();
        let mut payload = self.store.read_block(block)?;
        proof {
            let s2 = self.store_view();
            super::block::lemma_loaded_from_trans(s0, s1, s2);
            assert forall|x: u64| #[trigger] physical_block(s2, x) == physical_block(s0, x) by {
                lemma_loaded_from_blocks(s0, s2, x);
            }
        }
        let mut offset: usize = 0;
        while offset < UB
            invariant
                payload@.len() == UB,
                self.wf(),
                self.superblock() == old(self).superblock(),
                self.blocks_in_use() == old(self).blocks_in_use(),
                s0 == old(self).store_view(),
                block == directory.direct[0],
                block != 0,
                same_frame(s0, self.store_view()),
                forall|x: u64| #[trigger] physical_block(self.store_view(), x) == physical_block(s0, x),
            decreases UB - offset,
        {
            let entry = DirEntry::decode(payload.as_slice(), offset)?;
            if entry.inode != 0 && same_name(entry.name.as_str(), "..") {
                put64(&mut payload, offset, new_parent);
                return self.store.write_block(block, payload.as_slice());
            }
            offset += entry.rec_len as usize;
        }
        Err(FsError::Manifest("directory has no parent entry".to_string()))
    }

    /// Creates a regular file `name` in a directory.
    pub fn create(&mut self, parent_ino: u64, name: &str, mode: u32) -> (res: Result<u64, FsError>)
        requires
            old(self).wf(),
        ensures
            final(self).wf(),
            final(self).superblock() == old(self).superblock(),
            parent_ino == 0 || parent_ino > old(self).superblock().inode_count ==> (res matches Err(
                FsError::NotFound,
            )),
            res matches Ok(ino) ==> 1 <= ino <= old(self).superblock().inode_count,
            res is Ok ==> named_in(
                old(self).store_view(),
                old(self).superblock(),
                parent_ino,
                name@,
                None,
            ),
            (exists|other: u64|
                #[trigger] named_in(old(self).store_view(), old(self).superblock(), parent_ino, name@, Some(other)))
                && dir_has_room(old(self).store_view(), old(self).superblock(), parent_ino) ==> (res matches Err(
                FsError::Exists,
            )),
            res is Ok && dir_fits(*old(self), parent_ino) ==> named_in(
                final(self).store_view(),
                final(self).superblock(),
                parent_ino,
                name@,
                Some(res->Ok_0),
            ),
            res matches Ok(ino) ==> inode_free(old(self).store_view(), old(self).superblock(), ino) && forall|k: u64|
                1 <= k < ino ==> #[trigger] inode_in_use(old(self).store_view(), old(self).superblock(), k),
            forall|i: Inode|
                #[trigger] stored_inode(old(self).store_view(), old(self).superblock(), parent_ino, i) ==> (i.mode
                    == 0 ==> (res matches Err(FsError::NotFound))) && (i.mode != 0 && i.mode & S_IFMT != S_IFDIR
                    ==> (res matches Err(FsError::NotDir))),
    {
        let ghost gf = dir_fits(*old(self), parent_ino);
        let ghost sb = self.superblock();
        if self.lookup(parent_ino, name)?.is_some() {
            return Err(FsError::Exists);
        }
        let ghost f1 = *self;
        let ino = self.alloc_inode()?;
        proof {
            lemma_alloc_facts_loaded(old(self).store_view(), f1.store_view(), f1.superblock(), ino);
        }
        let ghost f2 = *self;
        proof {
            if gf {
                reveal(dir_takes);
                lemma_dir_takes_loaded(*old(self), f1, parent_ino, name@);
                lemma_free_not_dir(f1.store_view(), sb, parent_ino, name@, ino);
                super::block::lemma_loaded_from_trans(old(self).store_view(), f1.store_view(), f2.store_view());
                lemma_dir_takes_loaded(*old(self), f2, parent_ino, name@);
            }
        }
        let now = now();
        let mut inode = Inode::default();
        inode.mode = S_IFREG | (mode & 0o7777);
        inode.nlink = 1;
        inode.atime = now;
        inode.mtime = now;
        inode.ctime = now;
        self.write_inode(ino, &inode)?;
        proof {
            if gf {
                lemma_dir_takes_inode_write(f2, *self, ino, inode, parent_ino, name@);
            }
        }
        self.add_dir_entry(parent_ino, ino, name, FILE_TYPE_FILE)?;
        let ghost f4 = *self;
        self.sync()?;
        proof {
            if gf {
                lemma_named_in_kept(
                    f4.store_view(),
                    self.store_view(),
                    sb,
                    f4.blocks_in_use(),
                    parent_ino,
                    name@,
                    Some(ino),
                );
            }
        }
        Ok(ino)
    }

    /// Creates a directory `name` in a directory, with its "." and ".."
    /// entries.
    pub fn mkdir(&mut self, parent_ino: u64, name: &str, mode: u32) -> (res: Result<u64, FsError>)
        requires
            old(self).wf(),
        ensures
            final(self).wf(),
            final(self).superblock() == old(self).superblock(),
            parent_ino == 0 || parent_ino > old(self).superblock().inode_count ==> (res matches Err(
                FsError::NotFound,
            )),
            res matches Ok(ino) ==> 1 <= ino <= old(self).superblock().inode_count,
            res is Ok ==> named_in(
                old(self).store_view(),
                old(self).superblock(),
                parent_ino,
                name@,
                None,
            ),
            (exists|other: u64|
                #[trigger] named_in(old(self).store_view(), old(self).superblock(), parent_ino, name@, Some(other)))
                && dir_has_room(old(self).store_view(), old(self).superblock(), parent_ino) ==> (res matches Err(
                FsError::Exists,
            )),
            res is Ok && dir_fits(*old(self), parent_ino) ==> named_in(
                final(self).store_view(),
                final(self).superblock(),
                parent_ino,
                name@,
                Some(res->Ok_0),
            ),
            res matches Ok(ino) ==> inode_free(old(self).store_view(), old(self).superblock(), ino) && forall|k: u64|
                1 <= k < ino ==> #[trigger] inode_in_use(old(self).store_view(), old(self).superblock(), k),
            forall|i: Inode|
                #[trigger] stored_inode(old(self).store_view(), old(self).superblock(), parent_ino, i) ==> (i.mode
                    == 0 ==> (res matches Err(FsError::NotFound))) && (i.mode != 0 && i.mode & S_IFMT != S_IFDIR
                    ==> (res matches Err(FsError::NotDir))),
    {
        let ghost gf = dir_fits(*old(self), parent_ino);
        let ghost sb = self.superblock();
        if self.lookup(parent_ino, name)?.is_some() {
            return Err(FsError::Exists);
        }
        let ghost f1 = *self;
        if !self.getattr(parent_ino)?.is_dir() {
            return Err(FsError::NotDir);
        }
        let ghost f1b = *self;
        let ino = self.alloc_inode()?;
        proof {
            super::block::lemma_loaded_from_trans(old(self).store_view(), f1.store_view(), f1b.store_view());
            lemma_alloc_facts_loaded(old(self).store_view(), f1b.store_view(), f1b.superblock(), ino);
        }
        let ghost f2 = *self;
        proof {
            if gf {
                reveal(dir_takes);
                super::block::lemma_loaded_from_trans(old(self).store_view(), f1.store_view(), f1b.store_view());
                lemma_dir_takes_loaded(*old(self), f1b, parent_ino, name@);
                lemma_free_not_dir(f1b.store_view(), sb, parent_ino, name@, ino);
                super::block::lemma_loaded_from_trans(old(self).store_view(), f1b.store_view(), f2.store_view());
                lemma_dir_takes_loaded(*old(self), f2, parent_ino, name@);
            }
        }
        let now = now();
        self.make_directory_inode(ino, parent_ino, mode, now, Ghost(gf), Ghost(name@))?;
        self.link_directory(parent_ino, ino, name, now, Ghost(gf))?;
        Ok(ino)
    }

    /// Makes inode `ino` a directory of one block that lists "." and "..".
    #[verifier::spinoff_prover]
    #[verifier::rlimit(60)]
    fn make_directory_inode(
        &mut self,
        ino: u64,
        parent_ino: u64,
        mode: u32,
        now: u64,
        Ghost(g): Ghost<bool>,
        Ghost(name): Ghost<Seq<char>>,
    ) -> (res: Result<(), FsError>)
        requires
            old(self).wf(),
            g ==> dir_takes(*old(self), parent_ino, name) && ino != parent_ino,
        ensures
            final(self).wf(),
            final(self).superblock() == old(self).superblock(),
            res is Ok && g ==> dir_takes(*final(self), parent_ino, name),
            res is Ok ==> exists|d: int|
                old(self).superblock().data_start <= d < old(self).superblock().total_blocks
                    && !old(self).blocks_in_use()[d] && final(self).blocks_in_use() == #[trigger] old(
                    self,
                ).blocks_in_use().update(d, true),
            res is Ok && !old(self).store_view().encrypted && layout_ok(old(self).superblock()) ==> new_directory(
                final(self).store_view(),
                final(self).superblock(),
                ino,
                parent_ino,
                mode,
            ),
    {
        let ghost f2 = *self;
        let data_block = self.allocate_block()?;
        let ghost f3 = *self;
        let directory = initial_directory_block(ino, parent_ino)?;
        self.store.write_block(data_block, directory.as_slice())?;
        proof {
            if g {
                assert forall|other: u64| other != data_block implies #[trigger] physical_block(
                    self.store_view(),
                    other,
                ) == physical_block(f2.store_view(), other) by {
                    assert(physical_block(f3.store_view(), other) == physical_block(f2.store_view(), other));
                }
                lemma_used_len(f2);
                lemma_dir_takes_outside(f2, *self, data_block, parent_ino, name);
            }
            if !f2.store_view().encrypted {
                let blk = physical_block(self.store_view(), data_block)->Ok_0;
                super::block::lemma_read_after_write(self.store_view(), data_block, directory@, blk);
                crate::layout::lemma_le_roundtrip();
                assert(directory@.len() == UB);
                assert(padded(directory@) =~= directory@);
            }
        }
        let ghost f3b = *self;
        let mut inode = Inode::default();
        inode.mode = S_IFDIR | (mode & 0o7777);
        inode.nlink = 2;
        inode.size = UB as u64;
        inode.atime = now;
        inode.mtime = now;
        inode.ctime = now;
        inode.block_count = 1;
        inode.direct[0] = data_block;
        self.write_inode(ino, &inode)?;
        proof {
            if g {
                lemma_dir_takes_inode_write(f3b, *self, ino, inode, parent_ino, name);
            }
            if !f2.store_view().encrypted && layout_ok(f2.superblock()) {
                lemma_new_directory(
                    f3b.store_view(),
                    self.store_view(),
                    f2.superblock(),
                    ino,
                    parent_ino,
                    mode,
                    inode,
                    data_block,
                    directory@,
                );
            }
        }
        Ok(())
    }

    /// Enters directory `ino` into its parent under `name`, counts the new
    /// link to the parent, and syncs.
    #[verifier::spinoff_prover]
    fn link_directory(&mut self, parent_ino: u64, ino: u64, name: &str, now: u64, Ghost(g): Ghost<bool>) -> (res:
        Result<(), FsError>)
        requires
            old(self).wf(),
            g ==> dir_takes(*old(self), parent_ino, name@) && ino != 0,
        ensures
            final(self).wf(),
            final(self).superblock() == old(self).superblock(),
            res is Ok && g ==> named_in(
                final(self).store_view(),
                final(self).superblock(),
                parent_ino,
                name@,
                Some(ino),
            ),
    {
        let ghost sb = self.superblock();
        self.add_dir_entry(parent_ino, ino, name, FILE_TYPE_DIR)?;
        let ghost f5 = *self;
        let mut parent = self.getattr(parent_ino)?;
        let ghost pv = parent;
        let ghost f6 = *self;
        parent.nlink = parent.nlink.wrapping_add(1);
        parent.mtime = now;
        parent.ctime = now;
        self.write_inode(parent_ino, &parent)?;
        proof {
            if g {
                lemma_named_in_rewrite(
                    f5.store_view(),
                    f6.store_view(),
                    self.store_view(),
                    sb,
                    f5.blocks_in_use(),
                    parent_ino,
                    name@,
                    Some(ino),
                    pv,
                    parent,
                );
            }
        }
        let ghost f7 = *self;
        self.sync()?;
        proof {
            if g {
                lemma_named_in_kept(
                    f7.store_view(),
                    self.store_view(),
                    sb,
                    f7.blocks_in_use(),
                    parent_ino,
                    name@,
                    Some(ino),
                );
            }
        }
        Ok(())
    }

    /// Up to `len` bytes of a file from `offset`; holes read as zeros.
    #[verifier::loop_isolation(false)]
    #[verifier::spinoff_prover]
    #[verifier::rlimit(100)]
    pub fn read(&mut self, ino: u64, offset: u64, len: usize) -> (res: Result<Vec<u8>, FsError>)
        requires
            old(self).wf(),
        ensures
            final(self).wf(),
            final(self).superblock() == old(self).superblock(),
            final(self).blocks_in_use() == old(self).blocks_in_use(),
            loaded_from(old(self).store_view(), final(self).store_view()),
            ino == 0 || ino > old(self).superblock().inode_count ==> (res matches Err(
                FsError::NotFound,
            )),
            res matches Ok(v) ==> exists|i: Inode|
                stored_inode(old(self).store_view(), old(self).superblock(), ino, i) && v@.len()
                    == read_len(i.size, offset, len) && forall|k: int|
                    0 <= k < v@.len() ==> #[trigger] file_byte(old(self).store_view(), i, offset + k)
                        == Ok::<u8, FsFault>(v@[k]),
            forall|i: Inode|
                #[trigger] stored_inode(old(self).store_view(), old(self).superblock(), ino, i) && i.mode != 0
                    && i.mode & S_IFMT == S_IFDIR ==> (res matches Err(FsError::IsDir)),
            forall|i: Inode|
                #[trigger] stored_inode(old(self).store_view(), old(self).superblock(), ino, i) && i.mode != 0
                    && i.mode & S_IFMT != S_IFDIR && bytes_readable(old(self).store_view(), i, offset as int, len as int)
                    ==> res is Ok,
    {
        let ghost start = self.store_view();
        proof {
            assert forall|i: Inode|
                #[trigger] stored_inode(start, self.sb, ino, i) && i.mode != 0 implies inode_readable(
                start,
                self.sb,
                ino,
            ) && inode_in_use(start, self.sb, ino) by {}
        }
        let mut inode = self.getattr(ino)?;
        let ghost found = inode;
        proof {
            assert forall|i: Inode| #[trigger] stored_inode(start, self.sb, ino, i) implies i == found by {
                lemma_stored_inode_unique(start, self.sb, ino, i, found);
            }
        }
        if inode.is_dir() {
            return Err(FsError::IsDir);
        }
        if offset >= inode.size || len == 0 {
            return Ok(Vec::new());
        }
        let limit = offset.saturating_add(len as u64);
        let end = if inode.size < limit {
            inode.size
        } else {
            limit
        };
        let mut position = offset;
        let mut output: Vec<u8> = Vec::new();
        let ghost ok = bytes_readable(start, found, offset as int, len as int);
        while position < end
            invariant
                ok == bytes_readable(start, found, offset as int, len as int),
                end <= found.size,
                store_wf(start),
                self.wf(),
                self.superblock() == old(self).superblock(),
                self.blocks_in_use() == old(self).blocks_in_use(),
                start == old(self).store_view(),
                loaded_from(start, self.store_view()),
                offset <= position <= end,
                end <= offset + len,
                output@.len() == position - offset,
                inode == found,
                forall|j: int|
                    0 <= j < output@.len() ==> #[trigger] file_byte(start, found, offset + j) == Ok::<
                        u8,
                        FsFault,
                    >(output@[j]),
            decreases end - position,
        {
            let logical = position / UB as u64;
            let within = (position % UB as u64) as usize;
            let remaining = (end - position) as usize;
            let take = if remaining < UB - within {
                remaining
            } else {
                UB - within
            };
            let ghost s1 = self.store_view();
            proof {
                if ok {
                    assert(file_byte(start, found, position as int) is Ok);
                    lemma_file_block_loaded(start, s1, found, logical);
                    assert(position as int / UB as int == logical);
                }
            }
            let mapped = self.bmap(&mut inode, logical, false)?;
            proof {
                lemma_file_byte_loaded(start, s1, found, position as int);
                super::block::lemma_loaded_from_trans(start, s1, self.store_view());
            }
            let piece = match mapped {
                Some(block) => {
                    let ghost s2 = self.store_view();
                    proof {
                        if ok {
                            assert(file_block(start, found, logical) == Ok::<Option<u64>, FsFault>(Some(block)));
                            lemma_loaded_from_blocks(start, s2, block);
                        }
                    }
                    let payload = self.store.read_block(block)?;
                    proof {
                        lemma_loaded_from_blocks(start, s2, block);
                        super::block::lemma_loaded_from_trans(start, s2, self.store_view());
                        lemma_piece_bytes(start, found, position, take as int, mapped, payload@);
                    }
                    copy_range(payload.as_slice(), within, within + take)
                },
                None => {
                    proof {
                        lemma_piece_bytes(start, found, position, take as int, mapped, zeros(UB as nat));
                    }
                    zero_bytes(take)
                },
            };
            let ghost before = output@;
            push_bytes(&mut output, piece.as_slice());
            proof {
                assert forall|j: int| 0 <= j < output@.len() implies #[trigger] file_byte(start, found, offset + j)
                    == Ok::<u8, FsFault>(output@[j]) by {
                    if j >= before.len() {
                        assert(output@[j] == piece@[j - before.len()]);
                        assert(offset + j == position + (j - before.len()));
                    } else {
                        assert(output@[j] == before[j]);
                    }
                }
            }
            position += take as u64;
        }
        Ok(output)
    }

    /// Writes one piece of `data`, `take` bytes from `consumed` on, into
    /// the file block that holds file position `position`, allocating it
    /// where the file has none there.
    #[verifier::spinoff_prover]
    fn write_piece(
        &mut self,
        inode: &mut Inode,
        offset: u64,
        consumed: usize,
        take: usize,
        data: &[u8],
        Ghost(s0): Ghost<StoreView>,
        Ghost(i0): Ghost<Inode>,
        Ghost(track): Ghost<bool>,
    ) -> (res: Result<(), FsError>)
        requires
            old(self).wf(),
            consumed + take <= data@.len(),
            offset + data@.len() <= u64::MAX,
            0 < take,
            ((offset + consumed) % UB as int) + take <= UB,
            track ==> old(self).superblock().data_start > 0,
            track ==> write_progress(
                s0,
                old(self).store_view(),
                old(self).blocks_in_use(),
                old(self).superblock().data_start,
                i0,
                *old(inode),
                offset as int,
                offset + consumed,
                data@,
            ),
            track ==> !s0.encrypted,
        ensures
            final(self).wf(),
            final(self).superblock() == old(self).superblock(),
            final(inode).size == old(inode).size,
            final(inode).mode == old(inode).mode,
            track && res is Ok ==> write_progress(
                s0,
                final(self).store_view(),
                final(self).blocks_in_use(),
                old(self).superblock().data_start,
                i0,
                *final(inode),
                offset as int,
                offset + consumed + take,
                data@,
            ),
            !old(self).store_view().encrypted && (offset + consumed) / (UB as int) < 12 && old(inode).direct[(offset
                + consumed) / (UB as int)] != 0 && read_block_spec(
                old(self).store_view(),
                old(inode).direct[(offset + consumed) / (UB as int)],
            ) is Ok ==> res is Ok,
            res matches Err(e) ==> !request_error(e) || e is NoSpace,
    {
        let ghost ds = self.sb.data_start;
        let position = offset + consumed as u64;
        let logical = position / UB as u64;
        let within = (position % UB as u64) as usize;
        let ghost sa = self.store_view();
        let ghost ua = self.blocks_in_use();
        let ghost ia = *inode;
        proof {
            if track {
                lemma_progress_facts(s0, sa, ua, ds, i0, ia, offset as int, position as int, data@);
            }
        }
        let mapped = self.bmap(inode, logical, true)?;
        let block = match mapped {
            Some(b) => b,
            None => return Err(FsError::NoSpace),
        };
        let ghost sb = self.store_view();
        let ghost ub = self.blocks_in_use();
        proof {
            if track {
                reveal(bmap_grew);
                lemma_progress_map(s0, sa, sb, ua, ub, ds, i0, ia, *inode, offset as int, position as int, data@);
            }
        }
        let mut payload = self.store.read_block(block)?;
        let ghost sc = self.store_view();
        proof {
            lemma_loaded_from_blocks(sb, sc, block);
            if track {
                lemma_progress_loaded(s0, sb, sc, ub, ds, i0, *inode, offset as int, position as int, data@);
                lemma_loaded_from_blocks(sb, sc, block);
                lemma_progress_facts(s0, sc, ub, ds, i0, *inode, offset as int, position as int, data@);
            }
        }
        let ghost old_payload = payload@;
        let part = vstd::slice::slice_subrange(data, consumed, consumed + take);
        write_at(&mut payload, within, part);
        self.store.write_block(block, payload.as_slice())?;
        proof {
            if track {
                let sd = self.store_view();
                let physical = physical_block(sd, block)->Ok_0;
                assert(part@ == data@.subrange(position - offset, position - offset + take));
                lemma_progress_write(
                    s0,
                    sc,
                    sd,
                    ub,
                    ds,
                    i0,
                    *inode,
                    offset as int,
                    position as int,
                    take as int,
                    data@,
                    block,
                    old_payload,
                    payload@,
                    physical,
                );
            }
        }
        Ok(())
    }

    /// Writes `data` into a file at `offset`, allocating the blocks it
    /// needs, and grows the file where the write ends past it.
    #[verifier::spinoff_prover]
    #[verifier::rlimit(100)]
    pub fn write(&mut self, ino: u64, offset: u64, data: &[u8]) -> (res: Result<usize, FsError>)
        requires
            old(self).wf(),
        ensures
            final(self).wf(),
            final(self).superblock() == old(self).superblock(),
            ino == 0 || ino > old(self).superblock().inode_count ==> (res matches Err(
                FsError::NotFound,
            )),
            res matches Ok(n) ==> n == data@.len(),
            file_in_order(*old(self), ino) && res is Ok ==> file_written(
                *old(self),
                *final(self),
                ino,
                offset,
                data@,
            ) && file_in_order(*final(self), ino),
            forall|i: Inode|
                #[trigger] stored_inode(old(self).store_view(), old(self).superblock(), ino, i) && i.mode != 0
                    && i.mode & S_IFMT == S_IFDIR ==> (res matches Err(FsError::IsDir)),
            forall|i: Inode|
                #[trigger] stored_inode(old(self).store_view(), old(self).superblock(), ino, i) && i.mode != 0
                    && i.mode & S_IFMT != S_IFDIR && offset + data@.len() > u64::MAX ==> (res matches Err(
                    FsError::Manifest(_),
                )),
            res matches Err(FsError::NotFound) ==> ino == 0 || ino > old(self).superblock().inode_count || !inode_in_use(
                old(self).store_view(),
                old(self).superblock(),
                ino,
            ),
            res matches Err(FsError::NoSpace) ==> data@.len() > 0,
            sync_ready(*old(self)) && data@.len() == 0 && inode_readable(
                old(self).store_view(),
                old(self).superblock(),
                ino,
            ) && inode_in_use(old(self).store_view(), old(self).superblock(), ino) && (forall|i: Inode|
                #[trigger] stored_inode(old(self).store_view(), old(self).superblock(), ino, i) ==> i.mode & S_IFMT
                    != S_IFDIR) ==> res == Ok::<usize, FsError>(0),
    {
        let ghost f0 = *self;
        let ghost s0 = self.store_view();
        let ghost ds = self.sb.data_start;
        let ghost track = file_in_order(f0, ino);
        proof {
            assert forall|i: Inode|
                #[trigger] stored_inode(s0, self.sb, ino, i) && i.mode != 0 implies inode_readable(
                s0,
                self.sb,
                ino,
            ) && inode_in_use(s0, self.sb, ino) by {}
        }
        let ghost ready = sync_ready(*old(self)) && data@.len() == 0 && inode_readable(s0, self.sb, ino)
            && inode_in_use(s0, self.sb, ino);
        let mut inode = self.getattr(ino)?;
        let ghost i0 = inode;
        let ghost s1 = self.store_view();
        let ghost f1 = *self;
        proof {
            assert forall|i: Inode| #[trigger] stored_inode(s0, self.sb, ino, i) implies i == i0 by {
                lemma_stored_inode_unique(s0, self.sb, ino, i, i0);
            }
            if ready {
                lemma_readable_loaded(s0, s1, self.sb, ino);
                lemma_flushable_loaded(s0, s1);
                assert forall|lba: u64| #[trigger] physical_block(s1, lba) == physical_block(s0, lba) by {
                    lemma_loaded_from_blocks(s0, s1, lba);
                }
            }
        }
        proof {
            if track {
                assert(stored_inode(s0, self.sb, ino, i0));
                lemma_progress_start(s0, f0.blocks_in_use(), ds, i0, offset as int, data@);
                lemma_progress_loaded(
                    s0,
                    s0,
                    self.store_view(),
                    f0.blocks_in_use(),
                    ds,
                    i0,
                    i0,
                    offset as int,
                    offset as int,
                    data@,
                );
            }
        }
        if inode.is_dir() {
            return Err(FsError::IsDir);
        }
        let end = match offset.checked_add(data.len() as u64) {
            Some(e) => e,
            None => return Err(FsError::Manifest("file offset overflow".to_string())),
        };
        let mut position = offset;
        let mut consumed: usize = 0;
        while consumed < data.len()
            invariant
                s0 == old(self).store_view(),
                forall|i: Inode|
                    #[trigger] stored_inode(s0, old(self).superblock(), ino, i) ==> !(i.mode != 0 && i.mode & S_IFMT
                        == S_IFDIR),
                self.wf(),
                self.superblock() == old(self).superblock(),
                ds == self.sb.data_start,
                ino != 0 && ino <= self.superblock().inode_count,
                consumed <= data@.len(),
                position == offset + consumed,
                end == offset + data@.len(),
                inode.size == i0.size,
                inode.mode == i0.mode,
                ready ==> data@.len() == 0 && *self == f1,
                track ==> ds > 0 && !s0.encrypted,
                track ==> write_progress(
                    s0,
                    self.store_view(),
                    self.blocks_in_use(),
                    ds,
                    i0,
                    inode,
                    offset as int,
                    position as int,
                    data@,
                ),
            decreases data@.len() - consumed,
        {
            let within = (position % UB as u64) as usize;
            let remaining = data.len() - consumed;
            let take = if remaining < UB - within {
                remaining
            } else {
                UB - within
            };
            self.write_piece(&mut inode, offset, consumed, take, data, Ghost(s0), Ghost(i0), Ghost(track))?;
            position += take as u64;
            consumed += take;
        }
        let ghost i_loop = inode;
        if end > inode.size {
            inode.size = end;
        }
        let timestamp = now();
        inode.mtime = timestamp;
        inode.ctime = timestamp;
        let ghost sd = self.store_view();
        let ghost ud = self.blocks_in_use();
        proof {
            if track {
                lemma_progress_pointers(s0, sd, ud, ds, i0, i_loop, inode, offset as int, end as int, data@);
                lemma_progress_facts(s0, sd, ud, ds, i0, inode, offset as int, end as int, data@);
            }
        }
        self.write_inode(ino, &inode)?;
        let ghost se = self.store_view();
        proof {
            if ready {
                assert forall|lba: u64|
                    self.sb.bitmap_start <= lba < self.sb.inode_table_start implies #[trigger] physical_block(
                    se,
                    lba,
                ) is Ok by {
                    assert(physical_block(s1, lba) is Ok);
                }
            }
            if track {
                lemma_table_below_data(self.sb, ino);
                lemma_progress_frame(s0, sd, se, ud, ds, i0, inode, offset as int, end as int, data@);
                lemma_inode_write_then_read(sd, se, self.sb, ino, inode);
            }
        }
        self.sync()?;
        proof {
            if track {
                let sf = self.store_view();
                lemma_progress_frame(s0, se, sf, ud, ds, i0, inode, offset as int, end as int, data@);
                lemma_progress_facts(s0, sf, ud, ds, i0, inode, offset as int, end as int, data@);
                lemma_stored_inode_frame(se, sf, self.sb, ino);
                assert(stored_inode(sf, self.sb, ino, inode));
                assert forall|i: Inode| #[trigger] stored_inode(sf, self.sb, ino, i) implies file_ok(
                    sf,
                    self.blocks_in_use(),
                    ds,
                    i,
                ) by {
                    lemma_stored_inode_unique(sf, self.sb, ino, i, inode);
                }
                assert(file_written(f0, *self, ino, offset, data@));
            }
        }
        Ok(consumed)
    }

    /// Whether every byte is zero.
    fn all_zero(bytes: &[u8]) -> (r: bool)
        ensures
            r == forall|i: int| 0 <= i < bytes@.len() ==> bytes@[i] == 0,
    {
        let n = bytes.len();
        let mut i: usize = 0;
        while i < n
            invariant
                n == bytes@.len(),
                i <= n,
                forall|j: int| 0 <= j < i ==> bytes@[j] == 0,
            decreases n - i,
        {
            if bytes[i] != 0 {
                return false;
            }
            i += 1;
        }
        true
    }

    /// Unmaps block `index` of a file and frees it, freeing an indirect
    /// block too once it maps nothing.
    #[verifier::spinoff_prover]
    #[verifier::rlimit(100)]
    fn remove_mapped_block(&mut self, inode: &mut Inode, index: u64) -> (res: Result<(), FsError>)
        requires
            old(self).wf(),
        ensures
            final(self).wf(),
            final(self).superblock() == old(self).superblock(),
            final(self).store_view().encrypted == old(self).store_view().encrypted,
            final(inode).size == old(inode).size,
            final(inode).mode == old(inode).mode,
            index < 12 ==> res is Ok && final(self).store_view() == old(self).store_view() && final(inode).direct@
                == old(inode).direct@.update(index as int, 0) && final(inode).single_indirect == old(
                inode,
            ).single_indirect && final(inode).double_indirect == old(inode).double_indirect
                && final(inode).nlink == old(inode).nlink && final(inode).block_count == (if old(
                inode,
            ).direct[index as int] != 0 {
                if old(inode).block_count == 0 {
                    u32::MAX as int
                } else {
                    old(inode).block_count - 1
                }
            } else {
                old(inode).block_count as int
            }) && final(self).blocks_in_use() == (if old(inode).direct[index as int] != 0
                && old(inode).direct[index as int] < old(self).superblock().total_blocks {
                old(self).blocks_in_use().update(old(inode).direct[index as int] as int, false)
            } else {
                old(self).blocks_in_use()
            }),
            12 <= index < 12 + POINTERS_PER_BLOCK && old(inode).single_indirect == 0 ==> res is Ok && *final(inode)
                == *old(inode) && *final(self) == *old(self),
            12 <= index < 12 + POINTERS_PER_BLOCK && old(inode).single_indirect != 0
                && !old(self).store_view().encrypted && res is Ok ==> file_block(
                final(self).store_view(),
                *final(inode),
                index,
            ) == Ok::<Option<u64>, FsFault>(None) && pointer_in(
                old(self).store_view(),
                old(inode).single_indirect,
                index - 12,
            ) is Ok && (pointer_in(old(self).store_view(), old(inode).single_indirect, index - 12)->Ok_0 != 0
                && pointer_in(old(self).store_view(), old(inode).single_indirect, index - 12)->Ok_0
                < old(self).superblock().total_blocks ==> !final(self).blocks_in_use()[pointer_in(
                old(self).store_view(),
                old(inode).single_indirect,
                index - 12,
            )->Ok_0 as int]) && final(inode).double_indirect == old(inode).double_indirect
                && final(inode).direct == old(inode).direct,
            12 + POINTERS_PER_BLOCK <= index && (index - 12 - POINTERS_PER_BLOCK >= POINTERS_PER_BLOCK
                * POINTERS_PER_BLOCK || old(inode).double_indirect == 0) ==> res is Ok && *final(inode) == *old(inode)
                && *final(self) == *old(self),
            12 + POINTERS_PER_BLOCK <= index && index - 12 - POINTERS_PER_BLOCK < POINTERS_PER_BLOCK
                * POINTERS_PER_BLOCK && old(inode).double_indirect != 0 && !old(self).store_view().encrypted
                && res is Ok && double_inner(old(self).store_view(), *old(inode), index) != old(inode).double_indirect
                ==> file_block(final(self).store_view(), *final(inode), index) == Ok::<Option<u64>, FsFault>(None)
                && (double_inner(old(self).store_view(), *old(inode), index) != 0 ==> {
                let p = pointer_in(
                    old(self).store_view(),
                    double_inner(old(self).store_view(), *old(inode), index),
                    (index - 12 - POINTERS_PER_BLOCK) % POINTERS_PER_BLOCK as int,
                )->Ok_0;
                p != 0 && p < old(self).superblock().total_blocks ==> !final(self).blocks_in_use()[p as int]
            }),
            res matches Err(e) ==> !request_error(e),
            index >= 12 ==> final(inode).direct == old(inode).direct,
    {
        if index < 12 {
            let i = index as usize;
            let block = inode.direct[i];
            inode.direct[i] = 0;
            if block != 0 {
                self.bitmap.clear(block);
                inode.block_count = inode.block_count.wrapping_sub(1);
            }
            return Ok(());
        }
        let relative = index - 12;
        if relative < POINTERS_PER_BLOCK {
            if inode.single_indirect == 0 {
                return Ok(());
            }
            let single = inode.single_indirect;
            let ghost s0 = self.store_view();
            let mut pointers = self.store.read_block(single)?;
            proof {
                self.bitmap.lemma_len();
                if !s0.encrypted {
                    assert(pointers@.len() == UB);
                }
            }
            let ghost read = pointers@;
            let block = Self::pointer_at(pointers.as_slice(), relative as usize);
            if block != 0 {
                self.bitmap.clear(block);
                inode.block_count = inode.block_count.wrapping_sub(1);
                Self::set_pointer(&mut pointers, relative as usize, 0);
                proof {
                    lemma_get64_splice(read, relative as int, 0, relative as int);
                }
            }
            let ghost cleared = self.blocks_in_use();
            if Self::all_zero(pointers.as_slice()) {
                self.bitmap.clear(single);
                inode.single_indirect = 0;
            } else {
                let ghost s1 = self.store_view();
                self.store.write_block(single, pointers.as_slice())?;
                proof {
                    if !s0.encrypted {
                        let blk = physical_block(self.store_view(), single)->Ok_0;
                        lemma_read_after_write(self.store_view(), single, pointers@, blk);
                        assert(padded(pointers@) =~= pointers@);
                    }
                }
            }
            return Ok(());
        }
        self.remove_double_mapped(inode, index)
    }

    /// `remove_mapped_block` for the blocks behind the double-indirect block.
    #[verifier::spinoff_prover]
    #[verifier::rlimit(100)]
    fn remove_double_mapped(&mut self, inode: &mut Inode, index: u64) -> (res: Result<(), FsError>)
        requires
            old(self).wf(),
            12 + POINTERS_PER_BLOCK <= index,
        ensures
            final(self).wf(),
            final(self).superblock() == old(self).superblock(),
            final(self).store_view().encrypted == old(self).store_view().encrypted,
            final(inode).size == old(inode).size,
            final(inode).mode == old(inode).mode,
            12 + POINTERS_PER_BLOCK <= index && (index - 12 - POINTERS_PER_BLOCK >= POINTERS_PER_BLOCK
                * POINTERS_PER_BLOCK || old(inode).double_indirect == 0) ==> res is Ok && *final(inode) == *old(inode)
                && *final(self) == *old(self),
            12 + POINTERS_PER_BLOCK <= index && index - 12 - POINTERS_PER_BLOCK < POINTERS_PER_BLOCK
                * POINTERS_PER_BLOCK && old(inode).double_indirect != 0 && !old(self).store_view().encrypted
                && res is Ok && double_inner(old(self).store_view(), *old(inode), index) != old(inode).double_indirect
                ==> file_block(final(self).store_view(), *final(inode), index) == Ok::<Option<u64>, FsFault>(None)
                && (double_inner(old(self).store_view(), *old(inode), index) != 0 ==> {
                let p = pointer_in(
                    old(self).store_view(),
                    double_inner(old(self).store_view(), *old(inode), index),
                    (index - 12 - POINTERS_PER_BLOCK) % POINTERS_PER_BLOCK as int,
                )->Ok_0;
                p != 0 && p < old(self).superblock().total_blocks ==> !final(self).blocks_in_use()[p as int]
            }),
            res matches Err(e) ==> !request_error(e),
            final(inode).direct == old(inode).direct,
    {
        let relative = index - 12;
        let relative = relative - POINTERS_PER_BLOCK;
        if relative >= POINTERS_PER_BLOCK * POINTERS_PER_BLOCK || inode.double_indirect == 0 {
            return Ok(());
        }
        let double = inode.double_indirect;
        let outer_index = (relative / POINTERS_PER_BLOCK) as usize;
        let inner_index = (relative % POINTERS_PER_BLOCK) as usize;
        assert(outer_index < POINTERS_PER_BLOCK) by (nonlinear_arith)
            requires
                outer_index == relative / 504,
                relative < 504 * 504,
        ;
        let ghost s0 = self.store_view();
        let ghost i0 = *inode;
        let mut outer = self.store.read_block(double)?;
        let ghost s1 = self.store_view();
        proof {
            lemma_loaded_from_blocks(s0, s1, double);
            if !s0.encrypted {
                assert(outer@.len() == UB);
            }
        }
        let ghost outer0 = outer@;
        let inner_block = Self::pointer_at(outer.as_slice(), outer_index);
        proof {
            assert(double_inner(s0, i0, index) == inner_block);
        }
        if inner_block == 0 {
            proof {
                if !s0.encrypted {
                    lemma_file_block_loaded(s0, s1, i0, index);
                }
            }
            return Ok(());
        }
        let mut inner = self.store.read_block(inner_block)?;
        let ghost s2 = self.store_view();
        proof {
            lemma_loaded_from_blocks(s1, s2, inner_block);
            lemma_loaded_from_blocks(s0, s1, inner_block);
            if !s0.encrypted {
                assert(inner@.len() == UB);
            }
        }
        let ghost inner0 = inner@;
        let block = Self::pointer_at(inner.as_slice(), inner_index);
        proof {
            self.bitmap.lemma_len();
            assert(block == pointer_in(s0, inner_block, (index - 12 - POINTERS_PER_BLOCK) % POINTERS_PER_BLOCK as int)->Ok_0);
        }
        if block != 0 {
            self.bitmap.clear(block);
            inode.block_count = inode.block_count.wrapping_sub(1);
            Self::set_pointer(&mut inner, inner_index, 0);
            proof {
                lemma_get64_splice(inner0, inner_index as int, 0, inner_index as int);
            }
        }
        let inner_empty = Self::all_zero(inner.as_slice());
        if inner_empty {
            self.bitmap.clear(inner_block);
            Self::set_pointer(&mut outer, outer_index, 0);
            proof {
                lemma_get64_splice(outer0, outer_index as int, 0, outer_index as int);
            }
        } else {
            self.store.write_block(inner_block, inner.as_slice())?;
            proof {
                if !s0.encrypted {
                    let blk = physical_block(self.store_view(), inner_block)->Ok_0;
                    lemma_read_after_write(self.store_view(), inner_block, inner@, blk);
                    assert(padded(inner@) =~= inner@);
                }
            }
        }
        let ghost s3 = self.store_view();
        let ghost freed = self.blocks_in_use();
        proof {
            self.bitmap.lemma_len();
            assert(block != 0 && block < self.sb.total_blocks ==> !freed[block as int]);
        }
        if Self::all_zero(outer.as_slice()) {
            self.bitmap.clear(double);
            inode.double_indirect = 0;
        } else {
            self.store.write_block(double, outer.as_slice())?;
            proof {
                if !s0.encrypted {
                    let blk = physical_block(self.store_view(), double)->Ok_0;
                    lemma_read_after_write(self.store_view(), double, outer@, blk);
                    assert(padded(outer@) =~= outer@);
                    if inner_block != double {
                        lemma_read_same(s3, self.store_view(), inner_block);
                    }
                }
            }
        }
        Ok(())
    }

    /// Frees every block a file maps and empties it.
    fn free_all_blocks(&mut self, inode: &mut Inode) -> (res: Result<(), FsError>)
        requires
            old(self).wf(),
        ensures
            final(self).wf(),
            final(self).superblock() == old(self).superblock(),
            res is Ok ==> final(inode).size == 0,
            old(inode).single_indirect == 0 && old(inode).double_indirect == 0 ==> res is Ok && forall|k: int|
                0 <= k < 12 && k < div_ceil(old(inode).size as int, UB as int) ==> #[trigger] final(inode).direct[k]
                    == 0,
            res matches Err(e) ==> !request_error(e),
    {
        let blocks = ceil_div(inode.size, UB as u64);
        let ghost flat = inode.single_indirect == 0 && inode.double_indirect == 0;
        let mut index: u64 = 0;
        while index < blocks
            invariant
                self.wf(),
                self.superblock() == old(self).superblock(),
                blocks == div_ceil(old(inode).size as int, UB as int),
                inode.size == old(inode).size,
                flat == (old(inode).single_indirect == 0 && old(inode).double_indirect == 0),
                flat ==> inode.single_indirect == 0 && inode.double_indirect == 0,
                flat ==> forall|k: int| 0 <= k < 12 && k < index ==> #[trigger] inode.direct[k] == 0,
            decreases blocks - index,
        {
            let ghost before = *inode;
            self.remove_mapped_block(inode, index)?;
            proof {
                if flat && index < 12 {
                    assert(inode.direct@ == before.direct@.update(index as int, 0));
                    assert forall|k: int| 0 <= k < 12 && k < index + 1 implies #[trigger] inode.direct[k] == 0 by {
                        if k < index {
                            assert(before.direct[k] == 0);
                            assert(inode.direct@[k] == before.direct@[k]);
                        } else {
                            assert(inode.direct@[k] == 0);
                        }
                    }
                }
            }
            index += 1;
        }
        inode.size = 0;
        Ok(())
    }

    /// Removes a file's entry; the file goes with its last link.
    pub fn unlink(&mut self, parent_ino: u64, name: &str) -> (res: Result<(), FsError>)
        requires
            old(self).wf(),
        ensures
            final(self).wf(),
            final(self).superblock() == old(self).superblock(),
            parent_ino == 0 || parent_ino > old(self).superblock().inode_count ==> (res matches Err(
                FsError::NotFound,
            )),
            res is Ok ==> exists|ino: u64|
                ino != 0 && named_in(
                    old(self).store_view(),
                    old(self).superblock(),
                    parent_ino,
                    name@,
                    Some(ino),
                ),
            named_in(old(self).store_view(), old(self).superblock(), parent_ino, name@, None) && dir_has_room(
                old(self).store_view(),
                old(self).superblock(),
                parent_ino,
            ) ==> (res matches Err(FsError::NotFound)),
            forall|c: u64, d: Inode|
                named_in(old(self).store_view(), old(self).superblock(), parent_ino, name@, Some(c)) && dir_has_room(
                    old(self).store_view(),
                    old(self).superblock(),
                    parent_ino,
                ) && #[trigger] stored_inode(old(self).store_view(), old(self).superblock(), c, d) && d.mode != 0
                    && d.mode & S_IFMT == S_IFDIR ==> (res matches Err(FsError::IsDir)),
            forall|i: Inode|
                #[trigger] stored_inode(old(self).store_view(), old(self).superblock(), parent_ino, i) ==> (i.mode
                    == 0 ==> (res matches Err(FsError::NotFound))) && (i.mode != 0 && i.mode & S_IFMT != S_IFDIR
                    ==> (res matches Err(FsError::NotDir))),
    {
        let ghost s0 = self.store_view();
        let ghost sb = self.superblock();
        let ino = match self.lookup(parent_ino, name)? {
            Some(i) => i,
            None => return Err(FsError::NotFound),
        };
        let ghost s1 = self.store_view();
        proof {
            assert forall|c: u64| #[trigger] named_in(s0, sb, parent_ino, name@, Some(c)) implies c == ino by {
                lemma_named_in_unique(s0, sb, parent_ino, name@, Some(c), Some(ino));
            }
            lemma_stored_inode_loaded(s0, s1, sb, ino);
            assert forall|d: Inode| #[trigger] stored_inode(s0, sb, ino, d) && d.mode != 0 implies inode_readable(
                s1,
                sb,
                ino,
            ) && inode_in_use(s1, sb, ino) by {
                assert(stored_inode(s1, sb, ino, d));
            }
        }
        let mut inode = self.getattr(ino)?;
        proof {
            assert forall|d: Inode| #[trigger] stored_inode(s0, sb, ino, d) implies d == inode by {
                assert(stored_inode(s1, sb, ino, d));
                lemma_stored_inode_unique(s1, sb, ino, d, inode);
            }
        }
        if inode.is_dir() {
            return Err(FsError::IsDir);
        }
        self.remove_dir_entry(parent_ino, name)?;
        inode.nlink = inode.nlink.saturating_sub(1);
        if inode.nlink == 0 {
            self.free_all_blocks(&mut inode)?;
            self.free_inode(ino)?;
        } else {
            inode.ctime = now();
            self.write_inode(ino, &inode)?;
        }
        self.sync()
    }

    /// Removes an empty directory.
    #[verifier::loop_isolation(false)]
    #[verifier::spinoff_prover]
    pub fn rmdir(&mut self, parent_ino: u64, name: &str) -> (res: Result<(), FsError>)
        requires
            old(self).wf(),
        ensures
            final(self).wf(),
            final(self).superblock() == old(self).superblock(),
            parent_ino == 0 || parent_ino > old(self).superblock().inode_count ==> (res matches Err(
                FsError::NotFound,
            )),
            res is Ok ==> exists|ino: u64|
                ino != 0 && named_in(
                    old(self).store_view(),
                    old(self).superblock(),
                    parent_ino,
                    name@,
                    Some(ino),
                ),
            named_in(old(self).store_view(), old(self).superblock(), parent_ino, name@, None) && dir_has_room(
                old(self).store_view(),
                old(self).superblock(),
                parent_ino,
            ) ==> (res matches Err(FsError::NotFound)),
            res is Ok ==> empty_dir_named(old(self).store_view(), old(self).superblock(), parent_ino, name@),
            forall|c: u64, d: Inode|
                named_in(old(self).store_view(), old(self).superblock(), parent_ino, name@, Some(c)) && dir_has_room(
                    old(self).store_view(),
                    old(self).superblock(),
                    parent_ino,
                ) && #[trigger] stored_inode(old(self).store_view(), old(self).superblock(), c, d) && d.mode != 0
                    && d.mode & S_IFMT != S_IFDIR ==> (res matches Err(FsError::NotDir)),
            forall|c: u64, l: Seq<(u64, Seq<char>, u8)>|
                named_in(old(self).store_view(), old(self).superblock(), parent_ino, name@, Some(c)) && dir_has_room(
                    old(self).store_view(),
                    old(self).superblock(),
                    parent_ino,
                ) && #[trigger] dir_lists(old(self).store_view(), old(self).superblock(), c, l) && dir_has_room(
                    old(self).store_view(),
                    old(self).superblock(),
                    c,
                ) && !only_dots(live_entries(l)) ==> (res matches Err(FsError::NotEmpty)),
            forall|i: Inode|
                #[trigger] stored_inode(old(self).store_view(), old(self).superblock(), parent_ino, i) ==> (i.mode
                    == 0 ==> (res matches Err(FsError::NotFound))) && (i.mode != 0 && i.mode & S_IFMT != S_IFDIR
                    ==> (res matches Err(FsError::NotDir))),
    {
        let ghost s0 = self.store_view();
        let ghost sb = self.superblock();
        let ghost hd = named_in(s0, sb, parent_ino, name@, None) || dir_has_room(s0, sb, parent_ino);
        let ino = match self.lookup(parent_ino, name)? {
            Some(i) => i,
            None => return Err(FsError::NotFound),
        };
        let ghost s1 = self.store_view();
        proof {
            assert forall|c: u64| #[trigger] named_in(s0, sb, parent_ino, name@, Some(c)) implies c == ino by {
                lemma_named_in_unique(s0, sb, parent_ino, name@, Some(c), Some(ino));
            }
            lemma_stored_inode_loaded(s0, s1, sb, ino);
            assert forall|d: Inode| #[trigger] stored_inode(s0, sb, ino, d) && d.mode != 0 implies inode_readable(
                s1,
                sb,
                ino,
            ) && inode_in_use(s1, sb, ino) by {
                assert(stored_inode(s1, sb, ino, d));
            }
            lemma_listing_dir_readable(s0, sb, ino);
            lemma_readable_loaded(s0, s1, sb, ino);
            lemma_inode_use_loaded(s0, s1, sb, ino);
        }
        let mut inode = self.getattr(ino)?;
        proof {
            assert forall|d: Inode| #[trigger] stored_inode(s0, sb, ino, d) implies d == inode by {
                assert(stored_inode(s1, sb, ino, d));
                lemma_stored_inode_unique(s1, sb, ino, d, inode);
            }
        }
        if !inode.is_dir() {
            return Err(FsError::NotDir);
        }
        let ghost s2 = self.store_view();
        proof {
            super::block::lemma_loaded_from_trans(s0, s1, s2);
            lemma_stored_inode_loaded(s0, s2, sb, ino);
            assert forall|l: Seq<(u64, Seq<char>, u8)>| #[trigger] dir_lists(s0, sb, ino, l) implies dir_lists(
                s2,
                sb,
                ino,
                l,
            ) by {
                let p = choose|p: Inode| #[trigger] stored_inode(s0, sb, ino, p) && p.mode & S_IFMT == S_IFDIR
                    && dir_listing(s0, p) == Ok::<Seq<(u64, Seq<char>, u8)>, FsFault>(l);
                lemma_listing_loaded(s0, s2, p);
                assert(stored_inode(s2, sb, ino, p));
            }
            assert(dir_has_room(s0, sb, ino) ==> dir_has_room(s2, sb, ino));
        }
        let entries = self.readdir(ino)?;
        let n = entries.len();
        let mut i: usize = 0;
        while i < n
            invariant
                n == entries@.len(),
                i <= n,
                forall|k: int| 0 <= k < i ==> #[trigger] dot_name(listed_view(entries@)[k].1),
            decreases n - i,
        {
            let (_, entry_name, _) = &entries[i];
            if !same_name(entry_name.as_str(), ".") && !same_name(entry_name.as_str(), "..") {
                return Err(FsError::NotEmpty);
            }
            proof {
                assert(listed_view(entries@)[i as int].1 == entry_name@);
                assert(dot_name(listed_view(entries@)[i as int].1));
            }
            i += 1;
        }
        proof {
            let l = choose|l: Seq<(u64, Seq<char>, u8)>|
                #[trigger] dir_lists(s2, sb, ino, l) && listed_view(entries@) == live_entries(l);
            lemma_dir_lists_loaded(s0, s2, sb, ino, l);
            assert(empty_dir_named(s0, sb, parent_ino, name@)) by {
                assert(named_in(s0, sb, parent_ino, name@, Some(ino)));
                assert(dir_lists(s0, sb, ino, l));
                assert(only_dots(live_entries(l)));
            }
        }
        self.remove_dir_entry(parent_ino, name)?;
        self.free_all_blocks(&mut inode)?;
        self.free_inode(ino)?;
        let mut parent = self.getattr(parent_ino)?;
        parent.nlink = parent.nlink.saturating_sub(1);
        parent.mtime = now();
        parent.ctime = parent.mtime;
        self.write_inode(parent_ino, &parent)?;
        self.sync()
    }

    /// Moves entry `name` of one directory to `new_name` in another,
    /// replacing what the target held where the kinds agree.
    #[verifier::spinoff_prover]
    #[verifier::rlimit(80)]
    pub fn rename(&mut self, parent_ino: u64, name: &str, new_parent_ino: u64, new_name: &str) -> (res:
        Result<(), FsError>)
        requires
            old(self).wf(),
        ensures
            final(self).wf(),
            final(self).superblock() == old(self).superblock(),
            parent_ino == new_parent_ino && name@ == new_name@ ==> res is Ok,
            res is Ok && !(parent_ino == new_parent_ino && name@ == new_name@) ==> exists|ino: u64|
                ino != 0 && named_in(
                    old(self).store_view(),
                    old(self).superblock(),
                    parent_ino,
                    name@,
                    Some(ino),
                ),
            !(parent_ino == new_parent_ino && name@ == new_name@) && named_in(
                old(self).store_view(),
                old(self).superblock(),
                parent_ino,
                name@,
                None,
            ) && dir_has_room(old(self).store_view(), old(self).superblock(), parent_ino) ==> (res matches Err(
                FsError::NotFound,
            )),
            forall|c: u64|
                #![trigger named_in(old(self).store_view(), old(self).superblock(), parent_ino, name@, Some(c))]
                #![trigger named_in(old(self).store_view(), old(self).superblock(), new_parent_ino, new_name@, Some(c))]
                named_in(old(self).store_view(), old(self).superblock(), parent_ino, name@, Some(c)) && dir_has_room(
                    old(self).store_view(),
                    old(self).superblock(),
                    parent_ino,
                ) && inode_in_use(old(self).store_view(), old(self).superblock(), c) && named_in(
                    old(self).store_view(),
                    old(self).superblock(),
                    new_parent_ino,
                    new_name@,
                    Some(c),
                ) && dir_has_room(old(self).store_view(), old(self).superblock(), new_parent_ino) ==> res is Ok,
            forall|c: u64, t: u64, d: Inode, e: Inode|
                named_in(old(self).store_view(), old(self).superblock(), parent_ino, name@, Some(c)) && dir_has_room(
                    old(self).store_view(),
                    old(self).superblock(),
                    parent_ino,
                ) && named_in(old(self).store_view(), old(self).superblock(), new_parent_ino, new_name@, Some(t))
                    && dir_has_room(old(self).store_view(), old(self).superblock(), new_parent_ino) && t != c
                    && #[trigger] stored_inode(old(self).store_view(), old(self).superblock(), c, d)
                    && #[trigger] stored_inode(old(self).store_view(), old(self).superblock(), t, e) && d.mode != 0
                    && e.mode != 0 ==> (d.mode & S_IFMT == S_IFDIR && e.mode & S_IFMT != S_IFDIR ==> (res matches Err(
                    FsError::NotDir,
                ))) && (d.mode & S_IFMT != S_IFDIR && e.mode & S_IFMT == S_IFDIR ==> (res matches Err(
                    FsError::IsDir,
                ))),
    {
        let ghost s0 = self.store_view();
        let ghost sb = self.superblock();
        if parent_ino == new_parent_ino && same_name(name, new_name) {
            proof {
                assert forall|c: u64, t: u64|
                    #[trigger] named_in(s0, sb, parent_ino, name@, Some(c)) && #[trigger] named_in(
                        s0,
                        sb,
                        new_parent_ino,
                        new_name@,
                        Some(t),
                    ) implies c == t by {
                    lemma_named_in_unique(s0, sb, parent_ino, name@, Some(c), Some(t));
                }
            }
            return Ok(());
        }
        let ino = match self.lookup(parent_ino, name)? {
            Some(i) => i,
            None => return Err(FsError::NotFound),
        };
        let ghost s1 = self.store_view();
        proof {
            assert forall|c: u64| #[trigger] named_in(s0, sb, parent_ino, name@, Some(c)) implies c == ino by {
                lemma_named_in_unique(s0, sb, parent_ino, name@, Some(c), Some(ino));
            }
            lemma_stored_inode_loaded(s0, s1, sb, ino);
            lemma_readable_loaded(s0, s1, sb, ino);
            lemma_inode_use_loaded(s0, s1, sb, ino);
            assert(inode_in_use(s0, sb, ino) ==> inode_readable(s0, sb, ino)) by {
                if inode_in_use(s0, sb, ino) {
                    let d = choose|d: Inode| #[trigger] stored_inode(s0, sb, ino, d) && d.mode != 0;
                }
            }
            assert forall|d: Inode| #[trigger] stored_inode(s0, sb, ino, d) && d.mode != 0 implies inode_in_use(
                s0,
                sb,
                ino,
            ) by {}
        }
        let source = self.getattr(ino)?;
        let ghost s2 = self.store_view();
        proof {
            assert forall|d: Inode| #[trigger] stored_inode(s0, sb, ino, d) implies d == source by {
                assert(stored_inode(s1, sb, ino, d));
                lemma_stored_inode_unique(s1, sb, ino, d, source);
            }
            super::block::lemma_loaded_from_trans(s0, s1, s2);
            assert forall|t: u64|
                #[trigger] named_in(s0, sb, new_parent_ino, new_name@, Some(t)) && dir_has_room(
                    s0,
                    sb,
                    new_parent_ino,
                ) implies named_in(s2, sb, new_parent_ino, new_name@, Some(t)) && dir_has_room(
                s2,
                sb,
                new_parent_ino,
            ) by {
                lemma_named_in_loaded(s0, s2, sb, new_parent_ino, new_name@, Some(t));
            }
        }
        if let Some(target_ino) = self.lookup(new_parent_ino, new_name)? {
            if target_ino == ino {
                return Ok(());
            }
            let ghost s3 = self.store_view();
            proof {
                super::block::lemma_loaded_from_trans(s0, s2, s3);
                lemma_stored_inode_loaded(s0, s3, sb, target_ino);
                assert forall|e: Inode| #[trigger] stored_inode(s0, sb, target_ino, e) && e.mode != 0 implies inode_readable(
                    s3,
                    sb,
                    target_ino,
                ) && inode_in_use(s3, sb, target_ino) by {
                    assert(stored_inode(s3, sb, target_ino, e));
                }
            }
            let target = self.getattr(target_ino)?;
            proof {
                assert forall|e: Inode| #[trigger] stored_inode(s0, sb, target_ino, e) implies e == target by {
                    assert(stored_inode(s3, sb, target_ino, e));
                    lemma_stored_inode_unique(s3, sb, target_ino, e, target);
                }
            }
            let source_dir = source.is_dir();
            let target_dir = target.is_dir();
            if source_dir && !target_dir {
                return Err(FsError::NotDir);
            }
            if !source_dir && target_dir {
                return Err(FsError::IsDir);
            }
            if source_dir {
                self.rmdir(new_parent_ino, new_name)?;
            } else {
                self.unlink(new_parent_ino, new_name)?;
            }
        }
        let file_type = if source.is_dir() {
            FILE_TYPE_DIR
        } else {
            FILE_TYPE_FILE
        };
        self.add_dir_entry(new_parent_ino, ino, new_name, file_type)?;
        self.remove_dir_entry(parent_ino, name)?;
        if source.is_dir() && parent_ino != new_parent_ino {
            self.update_dotdot(&source, new_parent_ino)?;
            let timestamp = now();
            let mut old_parent = self.getattr(parent_ino)?;
            old_parent.nlink = old_parent.nlink.saturating_sub(1);
            old_parent.mtime = timestamp;
            old_parent.ctime = timestamp;
            self.write_inode(parent_ino, &old_parent)?;
            let mut new_parent = self.getattr(new_parent_ino)?;
            new_parent.nlink = new_parent.nlink.wrapping_add(1);
            new_parent.mtime = timestamp;
            new_parent.ctime = timestamp;
            self.write_inode(new_parent_ino, &new_parent)?;
        }
        self.sync()
    }

    /// Unmaps and frees blocks `from..to` of a file.
    #[verifier::loop_isolation(false)]
    #[verifier::spinoff_prover]
    #[verifier::rlimit(60)]
    fn cut_blocks(&mut self, inode: &mut Inode, from: u64, to: u64, Ghost(i0): Ghost<Inode>) -> (res: Result<
        (),
        FsError,
    >)
        requires
            old(self).wf(),
            *old(inode) == i0,
        ensures
            final(self).wf(),
            final(self).superblock() == old(self).superblock(),
            final(self).store_view().encrypted == old(self).store_view().encrypted,
            final(inode).size == i0.size,
            final(inode).mode == i0.mode,
            res matches Err(e) ==> !request_error(e),
            forall|k: int| 0 <= k < 12 ==> #[trigger] final(inode).direct[k] == 0 || final(inode).direct[k] == i0.direct[k],
            forall|k: int| 0 <= k < 12 && k < from ==> #[trigger] final(inode).direct[k] == i0.direct[k],
            res is Ok ==> forall|k: int| from <= k < to && k < 12 ==> #[trigger] final(inode).direct[k] == 0,
            to <= 12 ==> final(self).store_view() == old(self).store_view(),
            res is Ok && to <= 12 ==> forall|k: int|
                from <= k < to && #[trigger] i0.direct[k] != 0 && i0.direct[k] < old(self).superblock().total_blocks
                    ==> !final(self).blocks_in_use()[i0.direct[k] as int],
    {
        let ghost sg = self.store_view();
        let mut index = from;
        while index < to
            invariant
                self.wf(),
                self.superblock() == old(self).superblock(),
                self.store_view().encrypted == sg.encrypted,
                sg == old(self).store_view(),
                from <= index,
                inode.size == i0.size,
                inode.mode == i0.mode,
                forall|k: int| 0 <= k < 12 ==> #[trigger] inode.direct[k] == 0 || inode.direct[k] == i0.direct[k],
                forall|k: int| 0 <= k < 12 && k < from ==> #[trigger] inode.direct[k] == i0.direct[k],
                forall|k: int| from <= k < index && k < 12 ==> #[trigger] inode.direct[k] == 0,
                to <= 12 ==> self.store_view() == sg,
                to <= 12 ==> forall|k: int|
                    from <= k < index && #[trigger] i0.direct[k] != 0 && i0.direct[k] < self.superblock().total_blocks
                        ==> !self.blocks_in_use()[i0.direct[k] as int],
                to <= 12 ==> forall|k: int| index <= k < 12 ==> #[trigger] inode.direct[k] == i0.direct[k],
            decreases to - index,
        {
            let ghost u0 = self.blocks_in_use();
            let ghost d0 = inode.direct[index as int];
            proof {
                lemma_used_len(*self);
            }
            self.remove_mapped_block(inode, index)?;
            proof {
                lemma_used_len(*self);
                if to <= 12 {
                    assert forall|k: int|
                        from <= k < index + 1 && #[trigger] i0.direct[k] != 0 && i0.direct[k]
                            < self.superblock().total_blocks implies !self.blocks_in_use()[i0.direct[k] as int] by {
                        if k < index {
                            assert(!u0[i0.direct[k] as int]);
                        } else {
                            assert(d0 == i0.direct[k]);
                        }
                    }
                }
            }
            index += 1;
        }
        Ok(())
    }

    /// Cuts a file's blocks down to `new_size` bytes: frees the blocks past
    /// its new end and zeros the rest of its new last block.
    #[verifier::loop_isolation(false)]
    #[verifier::spinoff_prover]
    #[verifier::rlimit(100)]
    fn shrink_blocks(
        &mut self,
        inode: &mut Inode,
        new_size: u64,
        Ghost(s0): Ghost<StoreView>,
        Ghost(i0): Ghost<Inode>,
        Ghost(used0): Ghost<Seq<bool>>,
        Ghost(g): Ghost<bool>,
        Ghost(g2): Ghost<bool>,
    ) -> (res: Result<(), FsError>)
        requires
            old(self).wf(),
            *old(inode) == i0,
            new_size < i0.size,
            store_wf(s0),
            loaded_from(s0, old(self).store_view()),
            g ==> !s0.encrypted && new_size <= 12 * UB && file_ok(s0, used0, old(self).superblock().data_start, i0),
            g2 ==> g && i0.size <= 12 * UB,
        ensures
            final(self).wf(),
            final(self).superblock() == old(self).superblock(),
            final(self).store_view().encrypted == old(self).store_view().encrypted,
            final(inode).size == i0.size,
            final(inode).mode == i0.mode,
            res matches Err(e) ==> !request_error(e),
            res is Ok && g ==> zero_to_block_end(final(self).store_view(), *final(inode), new_size as int),
            g ==> forall|k: int|
                0 <= k < 12 ==> #[trigger] final(inode).direct[k] == 0 || final(inode).direct[k] == i0.direct[k],
            res is Ok && g2 ==> forall|p: int|
                0 <= p < new_size ==> #[trigger] file_byte(final(self).store_view(), *final(inode), p) == file_byte(
                    s0,
                    i0,
                    p,
                ),
            res is Ok && g ==> forall|k: int|
                div_ceil(new_size as int, UB as int) <= k < div_ceil(i0.size as int, UB as int) && k < 12
                    ==> #[trigger] final(inode).direct[k] == 0,
            res is Ok && g2 ==> forall|k: int|
                div_ceil(new_size as int, UB as int) <= k < div_ceil(i0.size as int, UB as int) && #[trigger] i0.direct[k]
                    != 0 && i0.direct[k] < old(self).superblock().total_blocks ==> !final(self).blocks_in_use()[i0.direct[k] as int],
    {
        let ghost ds = self.sb.data_start;
        let ghost sg = self.store_view();
        let ghost enc = sg.encrypted;
        let keep_blocks = ceil_div(new_size, UB as u64);
        let old_blocks = ceil_div(inode.size, UB as u64);
        self.cut_blocks(inode, keep_blocks, old_blocks, Ghost(i0))?;
        let tail = (new_size % UB as u64) as usize;
        let ghost zp: Seq<u8> = Seq::empty();
        proof {
            if g2 {
                lemma_below_keep(i0.size as int, 0);
                if new_size > 0 {
                    lemma_below_keep(new_size as int, 0);
                }
            }
        }
        if tail != 0 {
            proof {
                if g {
                    lemma_tail_direct(new_size as int, new_size as int);
                    assert((new_size as int) / (UB as int) == div_ceil(new_size as int, UB as int) - 1) by {
                        lemma_tail_positions(new_size as int, new_size as int);
                    }
                }
            }
            let bm = self.bmap(inode, keep_blocks - 1, false);
            let ghost sb1 = self.store_view();
            proof {
                if g2 {
                    super::block::lemma_loaded_from_trans(s0, sg, sb1);
                }
            }
            if let Some(block) = bm? {
                let mut payload = self.store.read_block(block)?;
                let ghost pr = payload@;
                crate::layout::fill_zero(&mut payload, tail, UB - tail);
                let ghost sp = self.store_view();
                self.store.write_block(block, payload.as_slice())?;
                proof {
                    let sw = self.store_view();
                    if g {
                        let blk = physical_block(sw, block)->Ok_0;
                        lemma_read_after_write(sw, block, payload@, blk);
                        assert(padded(payload@) =~= payload@);
                        assert forall|j: int| (new_size as int) % (UB as int) <= j < UB implies #[trigger] payload@[j]
                            == 0 by {}
                        lemma_tail_zeroed(sw, *inode, new_size, payload@);
                    }
                    if g2 {
                        super::block::lemma_loaded_from_trans(s0, sb1, sp);
                        assert forall|lba: u64| #[trigger] physical_block(sp, lba) == physical_block(s0, lba) by {
                            lemma_loaded_from_blocks(s0, sp, lba);
                        }
                        assert(read_block_spec(s0, block) == read_block_spec(sp, block));
                        assert forall|j: int| 0 <= j < (new_size as int) % (UB as int) implies #[trigger] payload@[j]
                            == pr[j] by {}
                        lemma_tail_block_kept(s0, sp, sw, i0, *inode, new_size, block, pr, payload@, used0, ds);
                    }
                }
            } else {
                proof {
                    if g {
                        lemma_tail_zeroed(self.store_view(), *inode, new_size, zp);
                    }
                    if g2 {
                        assert forall|k: int|
                            0 <= k < div_ceil(new_size as int, UB as int) && #[trigger] i0.direct[k] != 0 implies physical_block(
                            sb1,
                            i0.direct[k],
                        ) == physical_block(s0, i0.direct[k]) by {
                            lemma_loaded_from_blocks(s0, sb1, i0.direct[k]);
                        }
                        lemma_kept_below(s0, sb1, i0, *inode, new_size);
                    }
                }
            }
        } else {
            proof {
                assert forall|p: int| new_size <= p < div_ceil(new_size as int, UB as int) * UB implies #[trigger] file_byte(
                    self.store_view(),
                    *inode,
                    p,
                ) == Ok::<u8, FsFault>(0u8) by {
                    lemma_tail_positions(new_size as int, p);
                }
                if g2 {
                    assert forall|k: int|
                        0 <= k < div_ceil(new_size as int, UB as int) && #[trigger] i0.direct[k] != 0 implies physical_block(
                        sg,
                        i0.direct[k],
                    ) == physical_block(s0, i0.direct[k]) by {
                        lemma_loaded_from_blocks(s0, sg, i0.direct[k]);
                    }
                    lemma_kept_below(s0, sg, i0, *inode, new_size);
                }
            }
        }
        Ok(())
    }

    /// Sets a file's size: blocks past the new end are freed and the rest of
    /// the last block is zeroed.
    #[verifier::spinoff_prover]
    #[verifier::rlimit(100)]
    pub fn truncate(&mut self, ino: u64, new_size: u64) -> (res: Result<(), FsError>)
        requires
            old(self).wf(),
        ensures
            final(self).wf(),
            final(self).superblock() == old(self).superblock(),
            final(self).store_view().encrypted == old(self).store_view().encrypted,
            ino == 0 || ino > old(self).superblock().inode_count ==> (res matches Err(
                FsError::NotFound,
            )),
            res is Ok && !old(self).store_view().encrypted ==> inode_sized(
                final(self).store_view(),
                final(self).superblock(),
                ino,
                new_size,
            ),
            res matches Err(FsError::NotFound) ==> ino == 0 || ino > old(self).superblock().inode_count || !inode_in_use(
                old(self).store_view(),
                old(self).superblock(),
                ino,
            ),
            forall|i: Inode|
                #[trigger] stored_inode(old(self).store_view(), old(self).superblock(), ino, i) && i.mode != 0
                    && i.mode & S_IFMT == S_IFDIR ==> (res matches Err(FsError::IsDir)),
            sync_ready(*old(self)) && inode_readable(old(self).store_view(), old(self).superblock(), ino) && inode_in_use(
                old(self).store_view(),
                old(self).superblock(),
                ino,
            ) && (forall|i: Inode|
                #[trigger] stored_inode(old(self).store_view(), old(self).superblock(), ino, i) ==> i.mode & S_IFMT
                    != S_IFDIR && i.size <= new_size) ==> res is Ok,
            res is Ok && file_in_order(*old(self), ino) && new_size <= 12 * UB && (forall|i: Inode|
                #[trigger] stored_inode(old(self).store_view(), old(self).superblock(), ino, i) ==> new_size < i.size)
                ==> exists|f: Inode|
                #[trigger] stored_inode(final(self).store_view(), final(self).superblock(), ino, f) && f.size == new_size
                    && zero_to_block_end(final(self).store_view(), f, new_size as int),
            res is Ok && file_in_order(*old(self), ino) && (forall|i: Inode|
                #[trigger] stored_inode(old(self).store_view(), old(self).superblock(), ino, i) ==> new_size < i.size
                    && i.size <= 12 * UB) ==> exists|f: Inode, i: Inode|
                #![trigger stored_inode(final(self).store_view(), final(self).superblock(), ino, f), stored_inode(old(self).store_view(), old(self).superblock(), ino, i)]
                stored_inode(final(self).store_view(), final(self).superblock(), ino, f) && stored_inode(
                    old(self).store_view(),
                    old(self).superblock(),
                    ino,
                    i,
                ) && forall|p: int|
                    0 <= p < new_size ==> #[trigger] file_byte(final(self).store_view(), f, p) == file_byte(
                        old(self).store_view(),
                        i,
                        p,
                    ),
            res is Ok && file_in_order(*old(self), ino) && new_size <= 12 * UB && (forall|i: Inode|
                #[trigger] stored_inode(old(self).store_view(), old(self).superblock(), ino, i) ==> new_size < i.size)
                ==> exists|f: Inode, i: Inode|
                #![trigger stored_inode(final(self).store_view(), final(self).superblock(), ino, f), stored_inode(old(self).store_view(), old(self).superblock(), ino, i)]
                stored_inode(final(self).store_view(), final(self).superblock(), ino, f) && stored_inode(
                    old(self).store_view(),
                    old(self).superblock(),
                    ino,
                    i,
                ) && forall|p: int|
                    new_size <= p < i.size && p < 12 * UB ==> #[trigger] file_byte(final(self).store_view(), f, p)
                        == Ok::<u8, FsFault>(0u8),
            res is Ok && file_in_order(*old(self), ino) && (forall|i: Inode|
                #[trigger] stored_inode(old(self).store_view(), old(self).superblock(), ino, i) ==> new_size < i.size
                    && i.size <= 12 * UB) ==> forall|i: Inode, k: int|
                #[trigger] stored_inode(old(self).store_view(), old(self).superblock(), ino, i) && div_ceil(
                    new_size as int,
                    UB as int,
                ) <= k < div_ceil(i.size as int, UB as int) && #[trigger] i.direct[k] != 0 && i.direct[k]
                    < old(self).superblock().total_blocks ==> !final(self).blocks_in_use()[i.direct[k] as int],
    {
        let ghost enc = self.store_view().encrypted;
        let ghost s0 = self.store_view();
        proof {
            assert forall|i: Inode|
                #[trigger] stored_inode(s0, self.sb, ino, i) && i.mode != 0 implies inode_readable(
                s0,
                self.sb,
                ino,
            ) && inode_in_use(s0, self.sb, ino) by {}
        }
        let ghost ready = sync_ready(*old(self)) && inode_readable(s0, self.sb, ino) && inode_in_use(s0, self.sb, ino)
            && (forall|i: Inode| #[trigger] stored_inode(s0, self.sb, ino, i) ==> i.mode & S_IFMT != S_IFDIR && i.size <= new_size);
        let mut inode = self.getattr(ino)?;
        let ghost i0 = inode;
        let ghost s1 = self.store_view();
        proof {
            assert forall|i: Inode| #[trigger] stored_inode(s0, self.sb, ino, i) implies i == i0 by {
                lemma_stored_inode_unique(s0, self.sb, ino, i, i0);
            }
            if ready {
                lemma_readable_loaded(s0, s1, self.sb, ino);
                lemma_flushable_loaded(s0, s1);
                assert forall|lba: u64| #[trigger] physical_block(s1, lba) == physical_block(s0, lba) by {
                    lemma_loaded_from_blocks(s0, s1, lba);
                }
            }
        }
        if inode.is_dir() {
            return Err(FsError::IsDir);
        }
        let ghost g = file_in_order(*old(self), ino) && new_size <= 12 * UB && new_size < i0.size;
        let ghost g2 = g && i0.size <= 12 * UB;
        let ghost ds = self.sb.data_start;
        let ghost used0 = old(self).blocks_in_use();
        proof {
            if g {
                assert(stored_inode(s0, self.sb, ino, i0));
                assert(file_ok(s0, old(self).blocks_in_use(), ds, i0));
                assert forall|k: int| 0 <= k < 12 && #[trigger] i0.direct[k] != 0 implies ds <= i0.direct[k] by {
                    lemma_direct_in_data(s0, old(self).blocks_in_use(), ds, i0, k);
                }
            }
        }
        if new_size < inode.size {
            proof {
                if g {
                    assert(file_ok(s0, used0, ds, i0));
                }
            }
            self.shrink_blocks(&mut inode, new_size, Ghost(s0), Ghost(i0), Ghost(used0), Ghost(g), Ghost(g2))?;
        }
        let ghost ut = self.blocks_in_use();
        let ghost st = self.store_view();
        let ghost it = inode;
        proof {
            if g {
                assert forall|k: int| 0 <= k < 12 && #[trigger] it.direct[k] != 0 implies ds <= it.direct[k] by {
                    assert(i0.direct[k] != 0);
                }
            }
        }
        inode.size = new_size;
        inode.mtime = now();
        inode.ctime = inode.mtime;
        let ghost s1 = self.store_view();
        self.write_inode(ino, &inode)?;
        let ghost s2 = self.store_view();
        proof {
            if !enc {
                lemma_inode_write_then_read(s1, s2, self.superblock(), ino, inode);
            }
            if ready {
                assert forall|lba: u64|
                    self.sb.bitmap_start <= lba < self.sb.inode_table_start implies #[trigger] physical_block(
                    s2,
                    lba,
                ) is Ok by {
                    assert(physical_block(s1, lba) is Ok);
                }
            }
        }
        let r = self.sync();
        proof {
            if !enc && r is Ok {
                lemma_stored_inode_frame(s2, self.store_view(), self.superblock(), ino);
                assert(stored_inode(self.store_view(), self.superblock(), ino, inode));
            }
            if g && r is Ok {
                let sf = self.store_view();
                assert(zero_to_block_end(sf, inode, new_size as int) && (g2 ==> forall|p: int|
                    0 <= p < new_size ==> #[trigger] file_byte(sf, inode, p) == file_byte(s0, i0, p)) && (forall|p: int|
                    new_size <= p < i0.size && p < 12 * UB ==> #[trigger] file_byte(sf, inode, p) == Ok::<u8, FsFault>(0u8))) by {
                    lemma_table_below_data(self.sb, ino);
                    assert forall|lba: u64| lba >= ds implies #[trigger] physical_block(sf, lba) == physical_block(
                        st,
                        lba,
                    ) by {
                        assert(physical_block(s2, lba) == physical_block(st, lba));
                    }
                    lemma_zero_tail_kept(st, sf, it, inode, new_size, ds);
                    lemma_cut_reads_zero(sf, inode, new_size, i0.size);
                    if g2 {
                        if new_size > 0 {
                            lemma_below_keep(new_size as int, 0);
                        }
                        lemma_kept_below(st, sf, it, inode, new_size);
                    }
                }
                assert(stored_inode(s0, self.sb, ino, i0));
            }
        }
        r
    }
}


/// Every byte of a file from position `from` up to the end of the block that
/// holds it reads as zero.
pub open spec fn zero_to_block_end(s: StoreView, inode: Inode, from: int) -> bool {
    forall|p: int|
        from <= p < div_ceil(from, UB as int) * UB ==> #[trigger] file_byte(s, inode, p) == Ok::<u8, FsFault>(0u8)
}

/// The positions from `n` to the end of its block lie in block
/// `div_ceil(n, UB) - 1`, at offsets from `n % UB` on; there are none where
/// `n` ends a block.
proof fn lemma_tail_positions(n: int, p: int)
    requires
        0 <= n,
        n <= p < div_ceil(n, UB as int) * UB,
    ensures
        n % (UB as int) != 0,
        p / (UB as int) == div_ceil(n, UB as int) - 1,
        p % (UB as int) >= n % (UB as int),
{
    let u = UB as int;
    let k = n / u;
    let r = n % u;
    assert(n == k * u + r && 0 <= r < u) by (nonlinear_arith)
        requires
            k == n / u,
            r == n % u,
            u == 4032,
    ;
    if r == 0 {
        assert(div_ceil(n, u) == k) by (nonlinear_arith)
            requires
                n == k * u,
                u == 4032,
        ;
        assert(false);
    }
    assert(div_ceil(n, u) == k + 1) by (nonlinear_arith)
        requires
            n == k * u + r,
            0 < r < u,
            u == 4032,
    ;
    assert(p / u == k && p % u == p - k * u) by (nonlinear_arith)
        requires
            k * u + r <= p < (k + 1) * u,
            0 < r,
            u == 4032,
    ;
}

/// Block `div_ceil(n, UB) - 1` lies among the direct blocks of a file no
/// longer than its direct blocks cover.
proof fn lemma_tail_direct(n: int, p: int)
    requires
        0 <= n <= 12 * UB,
        0 <= p < div_ceil(n, UB as int) * UB,
    ensures
        p / (UB as int) < 12,
{
    let u = UB as int;
    assert(div_ceil(n, u) <= 12) by (nonlinear_arith)
        requires
            div_ceil(n, u) == (n + u - 1) / u,
            0 <= n <= 12 * u,
            u == 4032,
    ;
    assert(p / u < 12) by (nonlinear_arith)
        requires
            0 <= p < div_ceil(n, u) * u,
            div_ceil(n, u) <= 12,
            u == 4032,
    ;
}

/// Where the block that holds position `n` is a hole, or holds zeros from
/// `n % UB` on, the file reads zero from `n` to that block's end.
proof fn lemma_tail_zeroed(s: StoreView, inode: Inode, n: u64, payload: Seq<u8>)
    requires
        n <= 12 * UB,
        div_ceil(n as int, UB as int) >= 1,
        inode.direct[div_ceil(n as int, UB as int) - 1] != 0 ==> read_block_spec(
            s,
            inode.direct[div_ceil(n as int, UB as int) - 1],
        ) == Ok::<Seq<u8>, FsFault>(payload) && payload.len() == UB && forall|j: int|
            (n as int) % (UB as int) <= j < UB ==> #[trigger] payload[j] == 0,
    ensures
        zero_to_block_end(s, inode, n as int),
{
    assert forall|p: int| n <= p < div_ceil(n as int, UB as int) * UB implies #[trigger] file_byte(s, inode, p)
        == Ok::<u8, FsFault>(0u8) by {
        lemma_tail_positions(n as int, p);
        lemma_tail_direct(n as int, p);
        let k = p / (UB as int);
        assert(file_block(s, inode, k as u64) == Ok::<Option<u64>, FsFault>(nonzero(inode.direct[k])));
        if inode.direct[k] != 0 {
            assert(payload[p % (UB as int)] == 0);
        }
    }
}

/// A position below `n` lies in a block before block `div_ceil(n, UB)`,
/// and, in the last of them, below offset `n % UB` where `n` does not end a
/// block.
proof fn lemma_below_keep(n: int, p: int)
    requires
        0 <= p < n,
    ensures
        p / (UB as int) < div_ceil(n, UB as int),
        n % (UB as int) != 0 && p / (UB as int) == div_ceil(n, UB as int) - 1 ==> p % (UB as int) < n % (UB as int),
        n <= 12 * UB ==> div_ceil(n, UB as int) <= 12,
{
    let u = UB as int;
    assert(n <= 12 * u ==> div_ceil(n, u) <= 12) by (nonlinear_arith)
        requires
            div_ceil(n, u) == (n + u - 1) / u,
            0 <= n,
            u == 4032,
    ;
    let k = n / u;
    let r = n % u;
    assert(n == k * u + r && 0 <= r < u) by (nonlinear_arith)
        requires
            k == n / u,
            r == n % u,
            u == 4032,
    ;
    let q = p / u;
    assert(p == q * u + p % u && 0 <= p % u < u) by (nonlinear_arith)
        requires
            q == p / u,
            u == 4032,
    ;
    if r == 0 {
        assert(div_ceil(n, u) == k) by (nonlinear_arith)
            requires
                n == k * u,
                u == 4032,
        ;
        assert(q < k) by (nonlinear_arith)
            requires
                p == q * u + p % u,
                0 <= p % u,
                p < k * u,
                u == 4032,
        ;
    } else {
        assert(div_ceil(n, u) == k + 1) by (nonlinear_arith)
            requires
                n == k * u + r,
                0 < r < u,
                u == 4032,
        ;
        assert(q <= k) by (nonlinear_arith)
            requires
                p == q * u + p % u,
                0 <= p % u,
                p < k * u + r,
                r < u,
                u == 4032,
        ;
        if q == k {
            assert(p % u < r);
        }
    }
}

/// A byte in a direct block reads the same through two inodes with the same
/// pointer there, in stores whose block behind it is the same.
proof fn lemma_direct_byte_same(a: StoreView, c: StoreView, inode: Inode, j: Inode, p: int)
    requires
        0 <= p,
        p / (UB as int) < 12,
        !a.encrypted,
        !c.encrypted,
        j.direct[p / (UB as int)] == inode.direct[p / (UB as int)],
        inode.direct[p / (UB as int)] != 0 ==> physical_block(c, inode.direct[p / (UB as int)]) == physical_block(
            a,
            inode.direct[p / (UB as int)],
        ),
    ensures
        file_byte(c, j, p) == file_byte(a, inode, p),
{
    let k = p / (UB as int);
    assert(file_block(c, j, k as u64) == file_block(a, inode, k as u64));
}

/// The bytes below `n` of a file whose first blocks are direct read the same
/// through another inode with the same pointers there, in a store whose
/// blocks behind them are the same.
proof fn lemma_kept_below(a: StoreView, c: StoreView, inode: Inode, j: Inode, n: u64)
    requires
        n <= 12 * UB,
        !a.encrypted,
        !c.encrypted,
        forall|k: int| 0 <= k < div_ceil(n as int, UB as int) ==> #[trigger] j.direct[k] == inode.direct[k],
        forall|k: int|
            0 <= k < div_ceil(n as int, UB as int) && #[trigger] inode.direct[k] != 0 ==> physical_block(
                c,
                inode.direct[k],
            ) == physical_block(a, inode.direct[k]),
    ensures
        forall|p: int| 0 <= p < n ==> #[trigger] file_byte(c, j, p) == file_byte(a, inode, p),
{
    assert forall|p: int| 0 <= p < n implies #[trigger] file_byte(c, j, p) == file_byte(a, inode, p) by {
        lemma_below_keep(n as int, p);
        let k = p / (UB as int);
        assert(j.direct[k] == inode.direct[k]);
        lemma_direct_byte_same(a, c, inode, j, p);
    }
}

/// The bytes below `n` of a direct file whose block holding `n` was written
/// back with its first `n % UB` bytes kept, and nothing else changed, read
/// as they did.
proof fn lemma_tail_block_kept(
    s0: StoreView,
    sp: StoreView,
    sw: StoreView,
    i0: Inode,
    inode: Inode,
    n: u64,
    block: u64,
    pr: Seq<u8>,
    payload: Seq<u8>,
    used: Seq<bool>,
    ds: u64,
)
    requires
        !s0.encrypted,
        !sw.encrypted,
        file_ok(s0, used, ds, i0),
        0 < n <= 12 * UB,
        (n as int) % (UB as int) != 0,
        block != 0,
        i0.direct[div_ceil(n as int, UB as int) - 1] == block,
        forall|k: int| 0 <= k < div_ceil(n as int, UB as int) ==> #[trigger] inode.direct[k] == i0.direct[k],
        forall|lba: u64| #[trigger] physical_block(sp, lba) == physical_block(s0, lba),
        forall|other: u64| other != block ==> #[trigger] physical_block(sw, other) == physical_block(sp, other),
        read_block_spec(sw, block) == Ok::<Seq<u8>, FsFault>(payload),
        read_block_spec(s0, block) == Ok::<Seq<u8>, FsFault>(pr),
        forall|j: int| 0 <= j < (n as int) % (UB as int) ==> #[trigger] payload[j] == pr[j],
    ensures
        forall|p: int| 0 <= p < n ==> #[trigger] file_byte(sw, inode, p) == file_byte(s0, i0, p),
{
    let kb = div_ceil(n as int, UB as int) - 1;
    lemma_below_keep(n as int, 0);
    assert forall|p: int| 0 <= p < n implies #[trigger] file_byte(sw, inode, p) == file_byte(s0, i0, p) by {
        lemma_below_keep(n as int, p);
        let k = p / (UB as int);
        assert(inode.direct[k] == i0.direct[k]);
        if k != kb {
            if i0.direct[k] != 0 {
                lemma_direct_distinct(s0, used, ds, i0, k, kb);
                assert(physical_block(sw, i0.direct[k]) == physical_block(sp, i0.direct[k]));
            }
            lemma_direct_byte_same(s0, sw, i0, inode, p);
        } else {
            assert(file_block(sw, inode, k as u64) == Ok::<Option<u64>, FsFault>(Some(block)));
            assert(file_block(s0, i0, k as u64) == Ok::<Option<u64>, FsFault>(Some(block)));
            assert(payload[p % (UB as int)] == pr[p % (UB as int)]);
        }
    }
}

/// A file cut to `n` bytes from `size` reads zero from `n` to its old end,
/// within its direct blocks: to the end of the block that holds `n`, and
/// through the blocks past it, which are no longer mapped.
proof fn lemma_cut_reads_zero(s: StoreView, inode: Inode, n: u64, size: u64)
    requires
        zero_to_block_end(s, inode, n as int),
        forall|k: int|
            div_ceil(n as int, UB as int) <= k < div_ceil(size as int, UB as int) && k < 12 ==> #[trigger] inode.direct[k]
                == 0,
    ensures
        forall|p: int| n <= p < size && p < 12 * UB ==> #[trigger] file_byte(s, inode, p) == Ok::<u8, FsFault>(0u8),
{
    assert forall|p: int| n <= p < size && p < 12 * UB implies #[trigger] file_byte(s, inode, p) == Ok::<u8, FsFault>(
        0u8,
    ) by {
        if p >= div_ceil(n as int, UB as int) * UB {
            let u = UB as int;
            let k = p / u;
            assert(div_ceil(n as int, u) <= k < div_ceil(size as int, u) && k < 12) by (nonlinear_arith)
                requires
                    div_ceil(n as int, u) * u <= p < size,
                    p < 12 * u,
                    k == p / u,
                    div_ceil(size as int, u) == (size + u - 1) / u,
                    u == 4032,
            ;
            assert(inode.direct[k] == 0);
            assert(file_block(s, inode, k as u64) == Ok::<Option<u64>, FsFault>(None));
        }
    }
}

/// Zeros a file reads from `n` to the end of its block stay where the data
/// blocks read the same, for a file whose direct blocks are data blocks and
/// cover `n`.
proof fn lemma_zero_tail_kept(a: StoreView, c: StoreView, inode: Inode, j: Inode, n: u64, ds: u64)
    requires
        zero_to_block_end(a, inode, n as int),
        n <= 12 * UB,
        !a.encrypted,
        !c.encrypted,
        j.direct == inode.direct,
        forall|lba: u64| lba >= ds ==> #[trigger] physical_block(c, lba) == physical_block(a, lba),
        forall|k: int| 0 <= k < 12 && #[trigger] inode.direct[k] != 0 ==> ds <= inode.direct[k],
    ensures
        zero_to_block_end(c, j, n as int),
{
    assert forall|p: int| n <= p < div_ceil(n as int, UB as int) * UB implies #[trigger] file_byte(c, j, p)
        == Ok::<u8, FsFault>(0u8) by {
        lemma_tail_direct(n as int, p);
        let k = p / (UB as int);
        assert(file_byte(a, inode, p) == Ok::<u8, FsFault>(0u8));
        assert(file_block(c, j, k as u64) == file_block(a, inode, k as u64));
        if inode.direct[k] != 0 {
            assert(physical_block(c, inode.direct[k]) == physical_block(a, inode.direct[k]));
        }
    }
}

/// The blocks a size spans: the last of them starts below the size.
proof fn lemma_blocks_cover(size: u64)
    ensures
        div_ceil(size as int, UB as int) == 0 || (div_ceil(size as int, UB as int) - 1) * UB < size,
{
    let u = UB as int;
    let b = div_ceil(size as int, u);
    assert(b * u <= size + u - 1) by (nonlinear_arith)
        requires
            b == (size + u - 1) / u,
            u > 0,
    ;
}


/// Loading more chunks changes no directory's listing.
proof fn lemma_listing_loaded(a: StoreView, b: StoreView, inode: Inode)
    requires
        loaded_from(a, b),
        store_wf(a),
    ensures
        dir_listing(b, inode) == dir_listing(a, inode),
{
    assert forall|lba: u64| #[trigger] read_block_spec(b, lba) == read_block_spec(a, lba) by {
        lemma_loaded_from_blocks(a, b, lba);
    }
    lemma_listing_same_reads(a, b, inode, div_ceil(inode.size as int, UB as int) as nat);
}


/// A directory's block count fits a u64.
proof fn lemma_blocks_fit(size: u64)
    ensures
        div_ceil(size as int, UB as int) <= u64::MAX,
{
    let u = UB as int;
    assert((size + u - 1) / u <= u64::MAX) by (nonlinear_arith)
        requires
            u == 4032,
            0 <= size <= u64::MAX,
    ;
}

/// A directory whose block `j` took a record of `ino` named `name` in
/// place, written back, and whose inode was then rewritten over the same
/// tree, names `ino` under `name` and stays in good order.
proof fn lemma_inplace_law(
    s0: StoreView,
    cur: StoreView,
    sw: StoreView,
    sf: StoreView,
    sb: Superblock,
    used: Seq<bool>,
    dir: u64,
    parent: Inode,
    pf: Inode,
    j: u64,
    blk: u64,
    pold: Seq<u8>,
    pnew: Seq<u8>,
    phys: Seq<u8>,
    name: Seq<char>,
    ino: u64,
)
    requires
        !s0.encrypted,
        store_wf(s0),
        layout_ok(sb),
        file_ok(s0, used, sb.data_start, parent),
        parent.mode & S_IFMT == S_IFDIR,
        dir_listing(s0, parent) is Ok,
        find_entry(dir_listing(s0, parent)->Ok_0, name) is None,
        loaded_from(s0, cur),
        j < div_ceil(parent.size as int, UB as int),
        file_block(s0, parent, j) == Ok::<Option<u64>, FsFault>(Some(blk)),
        read_block_spec(s0, blk) == Ok::<Seq<u8>, FsFault>(pold),
        pnew.len() == UB,
        records_from(pold, 0) is Some ==> records_from(pnew, 0) is Some && (find_entry(
            records_from(pold, 0)->Some_0,
            name,
        ) is None ==> find_entry(records_from(pnew, 0)->Some_0, name) == Some(ino)),
        same_frame(cur, sw),
        forall|lba: u64| lba != blk ==> #[trigger] physical_block(sw, lba) == physical_block(cur, lba),
        physical_block(sw, blk) == Ok::<Seq<u8>, FsFault>(phys),
        written_block(cur, blk, pnew, phys),
        same_frame(sw, sf),
        inode_written(sw, sf, sb, dir, pf),
        same_tree(pf, parent),
        forall|other: u64|
            (inode_slot(sb.inode_table_start, sb.inode_count, dir) matches Some((b, _)) ==> other != b)
                ==> #[trigger] physical_block(sf, other) == physical_block(sw, other),
    ensures
        named_in(sf, sb, dir, name, Some(ino)),
        stored_inode(sf, sb, dir, pf),
        forall|i: Inode| stored_inode(sf, sb, dir, i) ==> i == pf,
        file_ok(sf, used, sb.data_start, pf),
{
    let ds = sb.data_start;
    let n = div_ceil(parent.size as int, UB as int) as nat;
    lemma_blocks_fit(parent.size);
    assert forall|lba: u64| lba != blk implies #[trigger] physical_block(sw, lba) == physical_block(s0, lba) by {
        lemma_loaded_from_blocks(s0, cur, lba);
    }
    lemma_listing_one_write(s0, sw, used, ds, parent, j, blk);
    assert(written_block(sw, blk, pnew, phys));
    lemma_read_after_write(sw, blk, pnew, phys);
    assert(padded(pnew) =~= pnew);
    lemma_listing_piece(s0, parent, n, j as nat);
    lemma_block_listing(s0, parent, j);
    let r = records_from(pold, 0)->Some_0;
    let r2 = records_from(pnew, 0)->Some_0;
    lemma_listing_replace(s0, sw, parent, n, j as nat, r, r2, name, ino);
    lemma_table_below_data(sb, dir);
    assert forall|lba: u64| lba >= ds implies #[trigger] physical_block(sf, lba) == physical_block(sw, lba) by {}
    lemma_listing_frame(sw, sf, used, ds, parent, pf);
    lemma_listing_same_pieces(sw, sf, parent, pf, n);
    lemma_inode_write_then_read(sw, sf, sb, dir, pf);
    let l = listing_upto(sf, pf, n)->Ok_0;
    assert(dir_listing(sf, pf) == Ok::<Seq<(u64, Seq<char>, u8)>, FsFault>(l));
    assert(find_entry(l, name) == Some(ino));
}


/// One more block's worth of size spans one more block.
proof fn lemma_blocks_grow(size: u64)
    requires
        size + UB <= u64::MAX,
    ensures
        div_ceil(size + UB, UB as int) == div_ceil(size as int, UB as int) + 1,
{
    let u = UB as int;
    assert((size + u + u - 1) / u == (size + u - 1) / u + 1) by (nonlinear_arith)
        requires
            u == 4032,
            0 <= size,
    ;
}

/// A directory grown by a fresh block that holds one record of `ino` named
/// `name`, whose inode was then rewritten over the grown tree with one
/// more block's worth of size, names `ino` under `name` and stays in good
/// order.
proof fn lemma_append_law(
    s0: StoreView,
    cur: StoreView,
    sa: StoreView,
    sbb: StoreView,
    sc: StoreView,
    sb: Superblock,
    used0: Seq<bool>,
    used_a: Seq<bool>,
    dir: u64,
    parent: Inode,
    parent2: Inode,
    pf: Inode,
    nb: u64,
    e: DirEntry,
    phys: Seq<u8>,
    name: Seq<char>,
)
    requires
        !s0.encrypted,
        store_wf(s0),
        layout_ok(sb),
        file_ok(s0, used0, sb.data_start, parent),
        parent.mode & S_IFMT == S_IFDIR,
        parent.size + UB <= u64::MAX,
        dir_listing(s0, parent) is Ok,
        find_entry(dir_listing(s0, parent)->Ok_0, name) is None,
        forall|k: u64|
            k < div_ceil(parent.size as int, UB as int) ==> (#[trigger] block_listing(s0, parent, k) matches Ok(Some(_))),
        loaded_from(s0, cur),
        map_grown(cur, sa, used_a, sb.data_start, parent, parent2),
        file_block(sa, parent2, div_ceil(parent.size as int, UB as int) as u64) == Ok::<Option<u64>, FsFault>(Some(nb)),
        e.rec_len == UB,
        entry_well_formed(e),
        e.inode != 0,
        e.name@ == name,
        same_frame(sa, sbb),
        forall|lba: u64| lba != nb ==> #[trigger] physical_block(sbb, lba) == physical_block(sa, lba),
        physical_block(sbb, nb) == Ok::<Seq<u8>, FsFault>(phys),
        written_block(sa, nb, splice(zeros(UB as nat), 0, entry_bytes(e)), phys),
        same_frame(sbb, sc),
        inode_written(sbb, sc, sb, dir, pf),
        pf.direct == parent2.direct,
        pf.single_indirect == parent2.single_indirect,
        pf.double_indirect == parent2.double_indirect,
        pf.mode == parent.mode,
        pf.size == parent.size + UB,
        forall|other: u64|
            (inode_slot(sb.inode_table_start, sb.inode_count, dir) matches Some((b, _)) ==> other != b)
                ==> #[trigger] physical_block(sc, other) == physical_block(sbb, other),
    ensures
        named_in(sc, sb, dir, name, Some(e.inode)),
        !sc.encrypted,
        stored_inode(sc, sb, dir, pf),
        forall|i: Inode| stored_inode(sc, sb, dir, i) ==> i == pf,
        file_ok(sc, used_a, sb.data_start, pf),
{
    let ds = sb.data_start;
    let n = div_ceil(parent.size as int, UB as int) as nat;
    let pnew = splice(zeros(UB as nat), 0, entry_bytes(e));
    lemma_blocks_fit(parent.size);
    assert forall|lba: u64| lba >= ds implies #[trigger] physical_block(cur, lba) == physical_block(s0, lba) by {
        lemma_loaded_from_blocks(s0, cur, lba);
    }
    lemma_tree_frame(s0, cur, used0, ds, parent);
    lemma_map_facts(cur, sa, used_a, ds, parent, parent2);
    assert forall|k: u64| k < n implies #[trigger] block_listing(sa, parent2, k) == block_listing(s0, parent, k) by {
        lemma_block_listing_bytes(s0, sa, parent, parent2, k);
    }
    lemma_listing_one_write(sa, sbb, used_a, ds, parent2, n as u64, nb);
    lemma_entry_roundtrip(zeros(UB as nat), 0, e);
    assert(written_block(sbb, nb, pnew, phys));
    lemma_read_after_write(sbb, nb, pnew, phys);
    assert(padded(pnew) =~= pnew);
    lemma_new_block_records(e);
    let r = seq![(e.inode, e.name@, e.file_type)];
    lemma_table_below_data(sb, dir);
    assert forall|lba: u64| lba >= ds implies #[trigger] physical_block(sc, lba) == physical_block(sbb, lba) by {}
    lemma_listing_frame(sbb, sc, used_a, ds, parent2, pf);
    assert forall|k: u64| k < n implies #[trigger] block_listing(sc, pf, k) == block_listing(s0, parent, k) by {
        assert(block_listing(sc, pf, k) == block_listing(sbb, parent2, k));
        assert(block_listing(sbb, parent2, k) == block_listing(sa, parent2, k));
    }
    assert(block_listing(sc, pf, n as u64) == block_listing(sbb, parent2, n as u64));
    lemma_listing_append(s0, sc, parent, pf, n, r);
    lemma_blocks_grow(parent.size);
    lemma_inode_write_then_read(sbb, sc, sb, dir, pf);
    let l0 = dir_listing(s0, parent)->Ok_0;
    lemma_find_concat(l0, r, name);
    assert(r[0] == (e.inode, name, e.file_type));
    assert(find_entry(r, name) == Some(e.inode));
    assert(dir_listing(sc, pf) == Ok::<Seq<(u64, Seq<char>, u8)>, FsFault>(l0 + r));
}


/// The directory a filesystem takes a new entry in, as stored.
proof fn lemma_dir_takes(f: AlbumFs, dir: u64, name: Seq<char>, p: Inode)
    requires
        dir_takes(f, dir, name),
        stored_inode(f.store_view(), f.superblock(), dir, p),
    ensures
        dir_takes_facts(f.store_view(), f.superblock(), f.blocks_in_use(), p, name),
{
    reveal(dir_takes);
    let s = f.store_view();
    let sb = f.superblock();
    let (q, l) = choose|q: Inode, l: Seq<(u64, Seq<char>, u8)>|
        #![trigger dir_listing(s, q), find_entry(l, name)]
        stored_inode(s, sb, dir, q) && q.mode & S_IFMT == S_IFDIR && dir_listing(s, q) == Ok::<
            Seq<(u64, Seq<char>, u8)>,
            FsFault,
        >(l) && find_entry(l, name) == None::<u64>;
    lemma_stored_inode_unique(s, sb, dir, p, q);
    reveal(dir_takes_facts);
}


/// `e` is the record of `ino` named `name` that spans a whole block, and
/// `payload` is a fresh block that holds it.
pub open spec fn new_block_record(e: DirEntry, ino: u64, name: Seq<char>, file_type: u8, payload: Seq<u8>) -> bool {
    &&& e.rec_len == UB
    &&& entry_well_formed(e)
    &&& e.inode == ino
    &&& e.name@ == name
    &&& e.file_type == file_type
    &&& payload == splice(zeros(UB as nat), 0, entry_bytes(e))
}

/// A fresh directory block holding one record, of `ino` named `name`, that
/// spans it, with that record.
fn fresh_dir_block(ino: u64, name: &str, file_type: u8) -> (res: Result<(Vec<u8>, Ghost<DirEntry>), FsError>)
    ensures
        name.spec_bytes().len() <= 255 ==> res is Ok,
        res is Ok ==> new_block_record(res->Ok_0.1@, ino, name@, file_type, res->Ok_0.0@),
{
    let mut payload = zero_bytes(UB);
    let record = DirEntry::new(ino, name, file_type, UB)?;
    record.encode_into(&mut payload, 0)?;
    proof {
        assert(name_bytes(record) == name.spec_bytes());
    }
    Ok((payload, Ghost(record)))
}


/// What a directory's fresh last block, written and stamped, makes of it.
proof fn lemma_append_finish(
    s0: StoreView,
    cur: StoreView,
    sa: StoreView,
    sbb: StoreView,
    f: AlbumFs,
    sb: Superblock,
    used0: Seq<bool>,
    used_a: Seq<bool>,
    dir: u64,
    p0: Inode,
    parent: Inode,
    pf: Inode,
    block: u64,
    record: DirEntry,
    phys: Seq<u8>,
    name: Seq<char>,
)
    requires
        record.inode != 0,
        dir_takes_facts(s0, sb, used0, p0, name),
        p0.mode & S_IFMT == S_IFDIR,
        store_wf(s0),
        loaded_from(s0, cur),
        forall|k: u64|
            k < div_ceil(p0.size as int, UB as int) ==> (#[trigger] block_listing(s0, p0, k) matches Ok(Some(_))),
        map_grown(cur, sa, used_a, sb.data_start, p0, resized(parent, p0.size)),
        file_block(sa, parent, div_ceil(p0.size as int, UB as int) as u64) == Ok::<Option<u64>, FsFault>(Some(block)),
        parent.size == p0.size + UB,
        parent.mode == p0.mode,
        record.rec_len == UB,
        entry_well_formed(record),
        record.name@ == name,
        same_frame(sa, sbb),
        forall|lba: u64| lba != block ==> #[trigger] physical_block(sbb, lba) == physical_block(sa, lba),
        physical_block(sbb, block) == Ok::<Seq<u8>, FsFault>(phys),
        written_block(sa, block, splice(zeros(UB as nat), 0, entry_bytes(record)), phys),
        f.superblock() == sb,
        f.blocks_in_use() == used_a,
        same_frame(sbb, f.store_view()),
        inode_written(sbb, f.store_view(), sb, dir, pf),
        same_tree(pf, parent),
        forall|other: u64|
            (inode_slot(sb.inode_table_start, sb.inode_count, dir) matches Some((b, _)) ==> other != b)
                ==> #[trigger] physical_block(f.store_view(), other) == physical_block(sbb, other),
    ensures
        named_in(f.store_view(), sb, dir, name, Some(record.inode)),
        file_in_order(f, dir),
{
    reveal(dir_takes_facts);
    lemma_same_pointers(sa, parent, resized(parent, p0.size));
    lemma_append_law(
        s0,
        cur,
        sa,
        sbb,
        f.store_view(),
        sb,
        used0,
        used_a,
        dir,
        p0,
        resized(parent, p0.size),
        pf,
        block,
        record,
        phys,
        name,
    );
}


/// Whether an inode is in use, or free, reads the same in a store and in one
/// loaded from it.
proof fn lemma_inode_use_loaded(a: StoreView, b: StoreView, sb: Superblock, k: u64)
    requires
        loaded_from(a, b),
        store_wf(a),
    ensures
        inode_in_use(a, sb, k) == inode_in_use(b, sb, k),
        inode_free(a, sb, k) == inode_free(b, sb, k),
{
    lemma_stored_inode_loaded(a, b, sb, k);
    if inode_in_use(b, sb, k) {
        let j = choose|j: Inode| #[trigger] stored_inode(b, sb, k, j) && j.mode != 0;
        assert(stored_inode(a, sb, k, j));
    }
    if inode_in_use(a, sb, k) {
        let j = choose|j: Inode| #[trigger] stored_inode(a, sb, k, j) && j.mode != 0;
        assert(stored_inode(b, sb, k, j));
    }
    if inode_free(b, sb, k) {
        let j = choose|j: Inode| #[trigger] stored_inode(b, sb, k, j) && j.mode == 0;
        assert(stored_inode(a, sb, k, j));
    }
    if inode_free(a, sb, k) {
        let j = choose|j: Inode| #[trigger] stored_inode(a, sb, k, j) && j.mode == 0;
        assert(stored_inode(b, sb, k, j));
    }
}

/// The first free inode that allocation found in a store loaded from `a` is
/// free in `a`, and every inode before it is in use there.
proof fn lemma_alloc_facts_loaded(a: StoreView, b: StoreView, sb: Superblock, ino: u64)
    requires
        loaded_from(a, b),
        store_wf(a),
        inode_free(b, sb, ino),
        forall|k: u64| 1 <= k < ino ==> #[trigger] inode_in_use(b, sb, k),
    ensures
        inode_free(a, sb, ino),
        forall|k: u64| 1 <= k < ino ==> #[trigger] inode_in_use(a, sb, k),
{
    lemma_inode_use_loaded(a, b, sb, ino);
    assert forall|k: u64| 1 <= k < ino implies #[trigger] inode_in_use(a, sb, k) by {
        lemma_inode_use_loaded(a, b, sb, k);
    }
}

proof fn lemma_stored_inode_loaded(a: StoreView, b: StoreView, sb: Superblock, ino: u64)
    requires
        loaded_from(a, b),
        store_wf(a),
    ensures
        forall|j: Inode| #[trigger] stored_inode(b, sb, ino, j) == stored_inode(a, sb, ino, j),
{
    match inode_slot(sb.inode_table_start, sb.inode_count, ino) {
        Some((t, _)) => {
            lemma_loaded_from_blocks(a, b, t);
        },
        None => {},
    }
}

/// Writing inode `ino` leaves every other stored inode as it was.
proof fn lemma_other_inode_kept(s: StoreView, t: StoreView, sb: Superblock, ino: u64, inode: Inode, other: u64)
    requires
        !s.encrypted,
        same_frame(s, t),
        inode_written(s, t, sb, ino, inode),
        forall|lba: u64|
            (inode_slot(sb.inode_table_start, sb.inode_count, ino) matches Some((b, _)) ==> lba != b)
                ==> #[trigger] physical_block(t, lba) == physical_block(s, lba),
        other != ino,
    ensures
        forall|j: Inode| #[trigger] stored_inode(t, sb, other, j) == stored_inode(s, sb, other, j),
{
    let (b, o) = inode_slot(sb.inode_table_start, sb.inode_count, ino)->Some_0;
    match inode_slot(sb.inode_table_start, sb.inode_count, other) {
        Some((b2, o2)) => {
            if b2 != b {
                lemma_read_same(s, t, b2);
            } else {
                let p = read_block_spec(s, b)->Ok_0;
                let payload = splice(p, o, inode_bytes(inode));
                let blk = physical_block(t, b)->Ok_0;
                lemma_inode_roundtrip(inode);
                assert(p.len() == UB);
                assert(written_block(t, b, payload, blk));
                lemma_read_after_write(t, b, payload, blk);
                assert(padded(payload) =~= payload);
                assert(o2 + 192 <= o || o + 192 <= o2) by (nonlinear_arith)
                    requires
                        o == ((ino - 1) % 21) * 192,
                        o2 == ((other - 1) % 21) * 192,
                        (ino - 1) / 21 == (other - 1) / 21,
                        ino != other,
                        ino >= 1,
                        other >= 1,
                ;
                assert(payload.subrange(o2, o2 + INODE_SIZE) =~= p.subrange(o2, o2 + INODE_SIZE));
            }
        },
        None => {},
    }
}

/// A directory that takes a new entry still does once more chunks are
/// loaded.
proof fn lemma_dir_takes_loaded(f: AlbumFs, g: AlbumFs, dir: u64, name: Seq<char>)
    requires
        dir_takes(f, dir, name),
        loaded_from(f.store_view(), g.store_view()),
        store_wf(f.store_view()),
        g.superblock() == f.superblock(),
        g.blocks_in_use() == f.blocks_in_use(),
    ensures
        dir_takes(g, dir, name),
{
    reveal(dir_takes);
    let s = f.store_view();
    let t = g.store_view();
    let sb = f.superblock();
    lemma_stored_inode_loaded(s, t, sb, dir);
    assert forall|lba: u64| #[trigger] physical_block(t, lba) == physical_block(s, lba) by {
        lemma_loaded_from_blocks(s, t, lba);
    }
    assert forall|i: Inode| #[trigger] stored_inode(t, sb, dir, i) implies file_ok(t, g.blocks_in_use(), sb.data_start, i) by {
        lemma_tree_frame(s, t, f.blocks_in_use(), sb.data_start, i);
    }
    let (p, l) = choose|p: Inode, l: Seq<(u64, Seq<char>, u8)>|
        #![trigger dir_listing(s, p), find_entry(l, name)]
        stored_inode(s, sb, dir, p) && p.mode & S_IFMT == S_IFDIR && dir_listing(s, p) == Ok::<
            Seq<(u64, Seq<char>, u8)>,
            FsFault,
        >(l) && find_entry(l, name) == None::<u64>;
    lemma_listing_loaded(s, t, p);
    assert(dir_listing(t, p) == Ok::<Seq<(u64, Seq<char>, u8)>, FsFault>(l));
}

/// What a directory names, and its room, read the same in a store loaded
/// from another.
proof fn lemma_named_in_loaded(a: StoreView, b: StoreView, sb: Superblock, dir: u64, name: Seq<char>, r: Option<u64>)
    requires
        loaded_from(a, b),
        store_wf(a),
        named_in(a, sb, dir, name, r),
    ensures
        named_in(b, sb, dir, name, r),
        dir_has_room(a, sb, dir) ==> dir_has_room(b, sb, dir),
{
    let (p, l) = choose|p: Inode, l: Seq<(u64, Seq<char>, u8)>|
        #![trigger dir_listing(a, p), find_entry(l, name)]
        stored_inode(a, sb, dir, p) && p.mode & S_IFMT == S_IFDIR && dir_listing(a, p) == Ok::<
            Seq<(u64, Seq<char>, u8)>,
            FsFault,
        >(l) && find_entry(l, name) == r;
    lemma_stored_inode_loaded(a, b, sb, dir);
    lemma_listing_loaded(a, b, p);
    assert(stored_inode(b, sb, dir, p));
    assert(dir_listing(b, p) == Ok::<Seq<(u64, Seq<char>, u8)>, FsFault>(l));
}

/// A directory that takes a new entry still does once another inode was
/// written.
proof fn lemma_dir_takes_inode_write(f: AlbumFs, g: AlbumFs, ino: u64, inode: Inode, dir: u64, name: Seq<char>)
    requires
        dir_takes(f, dir, name),
        ino != dir,
        same_frame(f.store_view(), g.store_view()),
        inode_written(f.store_view(), g.store_view(), f.superblock(), ino, inode),
        forall|lba: u64|
            (inode_slot(f.superblock().inode_table_start, f.superblock().inode_count, ino) matches Some((b, _))
                ==> lba != b) ==> #[trigger] physical_block(g.store_view(), lba) == physical_block(
                f.store_view(),
                lba,
            ),
        g.superblock() == f.superblock(),
        g.blocks_in_use() == f.blocks_in_use(),
    ensures
        dir_takes(g, dir, name),
{
    reveal(dir_takes);
    let s = f.store_view();
    let t = g.store_view();
    let sb = f.superblock();
    let used = f.blocks_in_use();
    lemma_other_inode_kept(s, t, sb, ino, inode, dir);
    lemma_table_below_data(sb, ino);
    assert forall|lba: u64| lba >= sb.data_start implies #[trigger] physical_block(t, lba) == physical_block(s, lba) by {}
    assert forall|i: Inode| #[trigger] stored_inode(t, sb, dir, i) implies file_ok(t, used, sb.data_start, i) by {
        lemma_tree_frame(s, t, used, sb.data_start, i);
    }
    let (p, l) = choose|p: Inode, l: Seq<(u64, Seq<char>, u8)>|
        #![trigger dir_listing(s, p), find_entry(l, name)]
        stored_inode(s, sb, dir, p) && p.mode & S_IFMT == S_IFDIR && dir_listing(s, p) == Ok::<
            Seq<(u64, Seq<char>, u8)>,
            FsFault,
        >(l) && find_entry(l, name) == None::<u64>;
    let n = div_ceil(p.size as int, UB as int) as nat;
    lemma_listing_frame(s, t, used, sb.data_start, p, p);
    lemma_listing_same_pieces(s, t, p, p, n);
    assert(dir_listing(t, p) == Ok::<Seq<(u64, Seq<char>, u8)>, FsFault>(l));
}

/// What a directory names stays named where only blocks from the inode
/// table on are kept and the directory is in good order.
proof fn lemma_named_in_kept(s: StoreView, t: StoreView, sb: Superblock, used: Seq<bool>, dir: u64, name: Seq<char>, r: Option<u64>)
    requires
        named_in(s, sb, dir, name, r),
        layout_ok(sb),
        forall|i: Inode| #[trigger] stored_inode(s, sb, dir, i) ==> file_ok(s, used, sb.data_start, i),
        same_frame(s, t),
        forall|lba: u64| lba >= sb.inode_table_start ==> #[trigger] physical_block(t, lba) == physical_block(s, lba),
    ensures
        named_in(t, sb, dir, name, r),
        forall|i: Inode| #[trigger] stored_inode(t, sb, dir, i) ==> file_ok(t, used, sb.data_start, i),
{
    let (p, l) = choose|p: Inode, l: Seq<(u64, Seq<char>, u8)>|
        #![trigger dir_listing(s, p), find_entry(l, name)]
        stored_inode(s, sb, dir, p) && p.mode & S_IFMT == S_IFDIR && dir_listing(s, p) == Ok::<
            Seq<(u64, Seq<char>, u8)>,
            FsFault,
        >(l) && find_entry(l, name) == r;
    lemma_table_below_data(sb, dir);
    lemma_stored_inode_frame(s, t, sb, dir);
    assert forall|lba: u64| lba >= sb.data_start implies #[trigger] physical_block(t, lba) == physical_block(s, lba) by {}
    assert forall|i: Inode| #[trigger] stored_inode(t, sb, dir, i) implies file_ok(t, used, sb.data_start, i) by {
        lemma_tree_frame(s, t, used, sb.data_start, i);
    }
    let n = div_ceil(p.size as int, UB as int) as nat;
    lemma_listing_frame(s, t, used, sb.data_start, p, p);
    lemma_listing_same_pieces(s, t, p, p, n);
    assert(stored_inode(t, sb, dir, p));
    assert(dir_listing(t, p) == Ok::<Seq<(u64, Seq<char>, u8)>, FsFault>(l));
}

/// A directory names at most one inode under a name: what `lookup` finds
/// there is what `create` or `mkdir` entered there.
pub proof fn lemma_named_in_unique(s: StoreView, sb: Superblock, dir: u64, name: Seq<char>, r1: Option<u64>, r2: Option<u64>)
    requires
        named_in(s, sb, dir, name, r1),
        named_in(s, sb, dir, name, r2),
    ensures
        r1 == r2,
{
    let (p1, l1) = choose|p: Inode, l: Seq<(u64, Seq<char>, u8)>|
        #![trigger dir_listing(s, p), find_entry(l, name)]
        stored_inode(s, sb, dir, p) && p.mode & S_IFMT == S_IFDIR && dir_listing(s, p) == Ok::<
            Seq<(u64, Seq<char>, u8)>,
            FsFault,
        >(l) && find_entry(l, name) == r1;
    let (p2, l2) = choose|p: Inode, l: Seq<(u64, Seq<char>, u8)>|
        #![trigger dir_listing(s, p), find_entry(l, name)]
        stored_inode(s, sb, dir, p) && p.mode & S_IFMT == S_IFDIR && dir_listing(s, p) == Ok::<
            Seq<(u64, Seq<char>, u8)>,
            FsFault,
        >(l) && find_entry(l, name) == r2;
    lemma_stored_inode_unique(s, sb, dir, p1, p2);
}


/// A free inode is no directory that names anything.
proof fn lemma_free_not_dir(s: StoreView, sb: Superblock, dir: u64, name: Seq<char>, ino: u64)
    requires
        named_in(s, sb, dir, name, None),
        inode_free(s, sb, ino),
    ensures
        ino != dir,
{
    let (p, l) = choose|p: Inode, l: Seq<(u64, Seq<char>, u8)>|
        #![trigger dir_listing(s, p), find_entry(l, name)]
        stored_inode(s, sb, dir, p) && p.mode & S_IFMT == S_IFDIR && dir_listing(s, p) == Ok::<
            Seq<(u64, Seq<char>, u8)>,
            FsFault,
        >(l) && find_entry(l, name) == None::<u64>;
    let i = choose|i: Inode| #[trigger] stored_inode(s, sb, ino, i) && i.mode == 0;
    if ino == dir {
        lemma_stored_inode_unique(s, sb, dir, p, i);
        assert(0u32 & 0o170000u32 == 0u32) by (bit_vector);
    }
}


/// A directory that takes a new entry still does once a block outside
/// every tree in good order, free until then, was taken and written.
proof fn lemma_dir_takes_outside(f: AlbumFs, g: AlbumFs, x: u64, dir: u64, name: Seq<char>)
    requires
        dir_takes(f, dir, name),
        f.superblock().data_start <= x < f.blocks_in_use().len(),
        !f.blocks_in_use()[x as int],
        g.blocks_in_use() == f.blocks_in_use().update(x as int, true),
        g.superblock() == f.superblock(),
        same_frame(f.store_view(), g.store_view()),
        forall|other: u64| other != x ==> #[trigger] physical_block(g.store_view(), other) == physical_block(
            f.store_view(),
            other,
        ),
    ensures
        dir_takes(g, dir, name),
{
    reveal(dir_takes);
    let s = f.store_view();
    let t = g.store_view();
    let sb = f.superblock();
    let used = f.blocks_in_use();
    let used2 = g.blocks_in_use();
    lemma_table_below_data(sb, dir);
    lemma_stored_inode_frame(s, t, sb, dir);
    assert forall|i: Inode| #[trigger] stored_inode(t, sb, dir, i) implies file_ok(t, used2, sb.data_start, i) by {
        lemma_listing_outside(s, t, used, sb.data_start, i, x);
        lemma_file_ok_more_used(t, used, used2, sb.data_start, i);
    }
    let (p, l) = choose|p: Inode, l: Seq<(u64, Seq<char>, u8)>|
        #![trigger dir_listing(s, p), find_entry(l, name)]
        stored_inode(s, sb, dir, p) && p.mode & S_IFMT == S_IFDIR && dir_listing(s, p) == Ok::<
            Seq<(u64, Seq<char>, u8)>,
            FsFault,
        >(l) && find_entry(l, name) == None::<u64>;
    let n = div_ceil(p.size as int, UB as int) as nat;
    lemma_listing_outside(s, t, used, sb.data_start, p, x);
    lemma_listing_same_pieces(s, t, p, p, n);
    assert(dir_listing(t, p) == Ok::<Seq<(u64, Seq<char>, u8)>, FsFault>(l));
}

/// What a directory in good order names stays named once its inode was
/// read and written back over the same tree.
proof fn lemma_named_in_rewrite(
    s: StoreView,
    s6: StoreView,
    t: StoreView,
    sb: Superblock,
    used: Seq<bool>,
    dir: u64,
    name: Seq<char>,
    r: Option<u64>,
    pv: Inode,
    q: Inode,
)
    requires
        named_in(s, sb, dir, name, r),
        layout_ok(sb),
        !s.encrypted,
        store_wf(s),
        forall|i: Inode| #[trigger] stored_inode(s, sb, dir, i) ==> file_ok(s, used, sb.data_start, i),
        stored_inode(s, sb, dir, pv),
        loaded_from(s, s6),
        same_frame(s6, t),
        inode_written(s6, t, sb, dir, q),
        same_tree(q, pv),
        forall|other: u64|
            (inode_slot(sb.inode_table_start, sb.inode_count, dir) matches Some((b, _)) ==> other != b)
                ==> #[trigger] physical_block(t, other) == physical_block(s6, other),
    ensures
        named_in(t, sb, dir, name, r),
        forall|i: Inode| #[trigger] stored_inode(t, sb, dir, i) ==> file_ok(t, used, sb.data_start, i),
{
    let (p, l) = choose|p: Inode, l: Seq<(u64, Seq<char>, u8)>|
        #![trigger dir_listing(s, p), find_entry(l, name)]
        stored_inode(s, sb, dir, p) && p.mode & S_IFMT == S_IFDIR && dir_listing(s, p) == Ok::<
            Seq<(u64, Seq<char>, u8)>,
            FsFault,
        >(l) && find_entry(l, name) == r;
    lemma_stored_inode_unique(s, sb, dir, p, pv);
    assert forall|lba: u64| #[trigger] physical_block(s6, lba) == physical_block(s, lba) by {
        lemma_loaded_from_blocks(s, s6, lba);
    }
    lemma_table_below_data(sb, dir);
    assert forall|lba: u64| lba >= sb.data_start implies #[trigger] physical_block(t, lba) == physical_block(s, lba) by {}
    lemma_listing_frame(s, t, used, sb.data_start, p, q);
    let n = div_ceil(p.size as int, UB as int) as nat;
    lemma_listing_same_pieces(s, t, p, q, n);
    lemma_inode_write_then_read(s6, t, sb, dir, q);
    assert(dir_listing(t, q) == Ok::<Seq<(u64, Seq<char>, u8)>, FsFault>(l));
}


/// A filesystem in good order tracks every block of the store.
proof fn lemma_used_len(f: AlbumFs)
    requires
        f.wf(),
    ensures
        f.blocks_in_use().len() == f.superblock().total_blocks,
{
    f.bitmap.lemma_len();
}


/// A directory that names anything is a readable inode in use.
proof fn lemma_named_dir_readable(s: StoreView, sb: Superblock, dir: u64, name: Seq<char>)
    ensures
        (exists|r: Option<u64>| #[trigger] named_in(s, sb, dir, name, r)) ==> inode_readable(s, sb, dir)
            && inode_in_use(s, sb, dir),
{
    if exists|r: Option<u64>| #[trigger] named_in(s, sb, dir, name, r) {
        let r = choose|r: Option<u64>| #[trigger] named_in(s, sb, dir, name, r);
        let (p, l) = choose|p: Inode, l: Seq<(u64, Seq<char>, u8)>|
            #![trigger dir_listing(s, p), find_entry(l, name)]
            stored_inode(s, sb, dir, p) && p.mode & S_IFMT == S_IFDIR && dir_listing(s, p) == Ok::<
                Seq<(u64, Seq<char>, u8)>,
                FsFault,
            >(l) && find_entry(l, name) == r;
        assert(p.mode != 0) by {
            if p.mode == 0 {
                assert(0u32 & 0o170000u32 == 0u32) by (bit_vector);
            }
        }
        assert(stored_inode(s, sb, dir, p));
    }
}

/// The inode stored for a directory that names anything is a directory.
proof fn lemma_named_dir_is(s: StoreView, sb: Superblock, dir: u64, name: Seq<char>, p: Inode)
    requires
        stored_inode(s, sb, dir, p),
    ensures
        (exists|r: Option<u64>| #[trigger] named_in(s, sb, dir, name, r)) ==> p.mode & S_IFMT == S_IFDIR
            && dir_listing(s, p) is Ok,
{
    if exists|r: Option<u64>| #[trigger] named_in(s, sb, dir, name, r) {
        let r = choose|r: Option<u64>| #[trigger] named_in(s, sb, dir, name, r);
        let (q, l) = choose|q: Inode, l: Seq<(u64, Seq<char>, u8)>|
            #![trigger dir_listing(s, q), find_entry(l, name)]
            stored_inode(s, sb, dir, q) && q.mode & S_IFMT == S_IFDIR && dir_listing(s, q) == Ok::<
                Seq<(u64, Seq<char>, u8)>,
                FsFault,
            >(l) && find_entry(l, name) == r;
        lemma_stored_inode_unique(s, sb, dir, p, q);
    }
}


/// A directory that lists is a readable inode in use.
proof fn lemma_listing_dir_readable(s: StoreView, sb: Superblock, dir: u64)
    ensures
        (exists|l: Seq<(u64, Seq<char>, u8)>| #[trigger] dir_lists(s, sb, dir, l)) ==> inode_readable(s, sb, dir)
            && inode_in_use(s, sb, dir),
{
    if exists|l: Seq<(u64, Seq<char>, u8)>| #[trigger] dir_lists(s, sb, dir, l) {
        let l = choose|l: Seq<(u64, Seq<char>, u8)>| #[trigger] dir_lists(s, sb, dir, l);
        let p = choose|p: Inode| #[trigger] stored_inode(s, sb, dir, p) && p.mode & S_IFMT == S_IFDIR && dir_listing(
            s,
            p,
        ) == Ok::<Seq<(u64, Seq<char>, u8)>, FsFault>(l);
        assert(p.mode != 0) by {
            if p.mode == 0 {
                assert(0u32 & 0o170000u32 == 0u32) by (bit_vector);
            }
        }
        assert(stored_inode(s, sb, dir, p));
    }
}

/// The inode stored for a directory that lists is a directory whose
/// listing reads.
proof fn lemma_listing_dir_is(s: StoreView, sb: Superblock, dir: u64, p: Inode)
    requires
        stored_inode(s, sb, dir, p),
    ensures
        (exists|l: Seq<(u64, Seq<char>, u8)>| #[trigger] dir_lists(s, sb, dir, l)) ==> p.mode & S_IFMT == S_IFDIR
            && dir_listing(s, p) is Ok,
{
    if exists|l: Seq<(u64, Seq<char>, u8)>| #[trigger] dir_lists(s, sb, dir, l) {
        let l = choose|l: Seq<(u64, Seq<char>, u8)>| #[trigger] dir_lists(s, sb, dir, l);
        let q = choose|q: Inode| #[trigger] stored_inode(s, sb, dir, q) && q.mode & S_IFMT == S_IFDIR && dir_listing(
            s,
            q,
        ) == Ok::<Seq<(u64, Seq<char>, u8)>, FsFault>(l);
        lemma_stored_inode_unique(s, sb, dir, p, q);
    }
}


/// What a directory names is among what it lists: once `create` or `mkdir`
/// entered `ino` under `name` in `dir`, `readdir` of `dir` lists `ino`
/// under `name`.
pub proof fn lemma_named_is_listed(
    s: StoreView,
    sb: Superblock,
    dir: u64,
    name: Seq<char>,
    ino: u64,
    l: Seq<(u64, Seq<char>, u8)>,
)
    requires
        named_in(s, sb, dir, name, Some(ino)),
        dir_lists(s, sb, dir, l),
    ensures
        exists|k: int|
            0 <= k < live_entries(l).len() && (#[trigger] live_entries(l)[k]).0 == ino && live_entries(l)[k].1
                == name,
{
    let (p, m) = choose|p: Inode, m: Seq<(u64, Seq<char>, u8)>|
        #![trigger dir_listing(s, p), find_entry(m, name)]
        stored_inode(s, sb, dir, p) && p.mode & S_IFMT == S_IFDIR && dir_listing(s, p) == Ok::<
            Seq<(u64, Seq<char>, u8)>,
            FsFault,
        >(m) && find_entry(m, name) == Some(ino);
    let q = choose|q: Inode| #[trigger] stored_inode(s, sb, dir, q) && q.mode & S_IFMT == S_IFDIR && dir_listing(
        s,
        q,
    ) == Ok::<Seq<(u64, Seq<char>, u8)>, FsFault>(l);
    lemma_stored_inode_unique(s, sb, dir, p, q);
    lemma_found_is_live(l, name, ino);
}


/// What a directory lists it listed before more chunks were loaded.
proof fn lemma_dir_lists_loaded(s: StoreView, t: StoreView, sb: Superblock, dir: u64, l: Seq<(u64, Seq<char>, u8)>)
    requires
        loaded_from(s, t),
        store_wf(s),
        dir_lists(t, sb, dir, l),
    ensures
        dir_lists(s, sb, dir, l),
{
    let p = choose|p: Inode| #[trigger] stored_inode(t, sb, dir, p) && p.mode & S_IFMT == S_IFDIR && dir_listing(
        t,
        p,
    ) == Ok::<Seq<(u64, Seq<char>, u8)>, FsFault>(l);
    lemma_stored_inode_loaded(s, t, sb, dir);
    lemma_listing_loaded(s, t, p);
    assert(stored_inode(s, sb, dir, p));
}


/// Loading more chunks changes no count of inodes in use.
pub proof fn lemma_used_count_loaded(s: StoreView, t: StoreView, sb: Superblock, n: nat)
    requires
        loaded_from(s, t),
        store_wf(s),
    ensures
        used_count(t, sb, n) == used_count(s, sb, n),
        forall|k: u64| #[trigger] inode_readable(t, sb, k) == inode_readable(s, sb, k),
    decreases n,
{
    assert forall|k: u64| #[trigger] inode_readable(t, sb, k) == inode_readable(s, sb, k) by {
        match inode_slot(sb.inode_table_start, sb.inode_count, k) {
            Some((b, _)) => {
                lemma_loaded_from_blocks(s, t, b);
            },
            None => {},
        }
    }
    if n > 0 {
        lemma_used_count_loaded(s, t, sb, (n - 1) as nat);
        let k = n as u64;
        lemma_stored_inode_loaded(s, t, sb, k);
        if inode_in_use(t, sb, k) {
            let i = choose|i: Inode| #[trigger] stored_inode(t, sb, k, i) && i.mode != 0;
            assert(stored_inode(s, sb, k, i));
        }
        if inode_in_use(s, sb, k) {
            let i = choose|i: Inode| #[trigger] stored_inode(s, sb, k, i) && i.mode != 0;
            assert(stored_inode(t, sb, k, i));
        }
        assert(inode_in_use(t, sb, k) == inode_in_use(s, sb, k));
    }
}


/// A plaintext block write leaves every block that read readable, and the
/// written block readable too.
proof fn lemma_write_keeps_reads(s: StoreView, t: StoreView, lba: u64, payload: Seq<u8>)
    requires
        !s.encrypted,
        payload.len() <= UB,
        same_frame(s, t),
        forall|x: u64| x != lba ==> #[trigger] physical_block(t, x) == physical_block(s, x),
        physical_block(t, lba) matches Ok(blk) && written_block(s, lba, payload, blk),
    ensures
        read_block_spec(t, lba) is Ok,
        forall|x: u64| x != lba ==> #[trigger] read_block_spec(t, x) == read_block_spec(s, x),
        forall|sb: Superblock, ino: u64| #[trigger] inode_readable(s, sb, ino) ==> inode_readable(t, sb, ino),
{
    let blk = physical_block(t, lba)->Ok_0;
    assert(written_block(t, lba, payload, blk));
    lemma_read_after_write(t, lba, payload, blk);
    assert forall|x: u64| x != lba implies #[trigger] read_block_spec(t, x) == read_block_spec(s, x) by {
        lemma_read_same(s, t, x);
    }
    assert forall|sb: Superblock, ino: u64| #[trigger] inode_readable(s, sb, ino) implies inode_readable(t, sb, ino) by {
        match inode_slot(sb.inode_table_start, sb.inode_count, ino) {
            Some((b, _)) => {
                if b != lba {
                    assert(read_block_spec(t, b) == read_block_spec(s, b));
                }
            },
            None => {},
        }
    }
}


/// A directory block of "." and ".." written to a fresh data block, then an
/// inode that maps that block alone over one block's size, make a new
/// directory.
proof fn lemma_new_directory(
    sw: StoreView,
    sf: StoreView,
    sb: Superblock,
    ino: u64,
    parent: u64,
    mode: u32,
    inode: Inode,
    d: u64,
    bytes: Seq<u8>,
)
    requires
        !sw.encrypted,
        layout_ok(sb),
        sb.data_start <= d,
        bytes == initial_directory_bytes(ino, parent),
        read_block_spec(sw, d) == Ok::<Seq<u8>, FsFault>(bytes),
        same_frame(sw, sf),
        inode_written(sw, sf, sb, ino, inode),
        forall|other: u64|
            (inode_slot(sb.inode_table_start, sb.inode_count, ino) matches Some((b, _)) ==> other != b)
                ==> #[trigger] physical_block(sf, other) == physical_block(sw, other),
        inode.mode == S_IFDIR | (mode & 0o7777),
        inode.nlink == 2,
        inode.size == UB,
        inode.direct[0] == d,
    ensures
        new_directory(sf, sb, ino, parent, mode),
{
    let l2 = seq![(ino, "."@, FILE_TYPE_DIR), (parent, ".."@, FILE_TYPE_DIR)];
    lemma_inode_write_then_read(sw, sf, sb, ino, inode);
    lemma_table_below_data(sb, ino);
    assert(physical_block(sf, d) == physical_block(sw, d));
    lemma_read_same(sw, sf, d);
    assert(d != 0);
    assert(file_block(sf, inode, 0) == Ok::<Option<u64>, FsFault>(Some(d)));
    lemma_block_listing(sf, inode, 0);
    lemma_initial_directory_listing(ino, parent);
    assert(block_listing(sf, inode, 0) == Ok::<Option<Seq<(u64, Seq<char>, u8)>>, FsFault>(Some(l2)));
    assert(div_ceil(inode.size as int, UB as int) == 1);
    assert(listing_upto(sf, inode, 0) == Ok::<Seq<(u64, Seq<char>, u8)>, FsFault>(Seq::empty()));
    assert(listing_upto(sf, inode, 1) == Ok::<Seq<(u64, Seq<char>, u8)>, FsFault>(
        Seq::<(u64, Seq<char>, u8)>::empty() + l2,
    ));
    assert(Seq::<(u64, Seq<char>, u8)>::empty() + l2 =~= l2);
    assert(dir_listing(sf, inode) == Ok::<Seq<(u64, Seq<char>, u8)>, FsFault>(l2));
    assert(stored_inode(sf, sb, ino, inode));
}

} // verus!
