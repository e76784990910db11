//! The blocks a file's mapping reaches: its direct pointers, its
//! single-indirect block and the pointers in it, its double-indirect block,
//! the inner blocks it points to and the pointers in those. A file's bytes
//! are read through this tree; a file is in good order when every block the
//! tree reaches lies in the data area, is marked in use and is reached once.

use super::album::POINTERS_PER_BLOCK;
use super::block::{
    lemma_loaded_from_blocks, loaded_from, physical_block, read_block_spec, same_frame, store_wf,
    StoreView,
};
use super::inode::Inode;
use super::{FsFault, UB};
use crate::layout::{get64, le64, splice, zeros};
use vstd::prelude::*;

verus! {

/// A block pointer, where it is not zero.
pub open spec fn nonzero(p: u64) -> Option<u64> {
    if p != 0 {
        Some(p)
    } else {
        None
    }
}

/// Pointer `k` of the indirect block `block`, as the store reads it.
pub open spec fn pointer_in(s: StoreView, block: u64, k: int) -> Result<u64, FsFault> {
    match read_block_spec(s, block) {
        Ok(p) => Ok(get64(p, 8 * k)),
        Err(f) => Err(f),
    }
}

/// The block that holds block `index` of a file: through the twelve direct
/// pointers, then the single-indirect block, then the double-indirect one;
/// `None` for a hole.
pub open spec fn file_block(s: StoreView, inode: Inode, index: u64) -> Result<Option<u64>, FsFault> {
    if index < 12 {
        Ok(nonzero(inode.direct[index as int]))
    } else if index - 12 < POINTERS_PER_BLOCK {
        if inode.single_indirect == 0 {
            Ok(None)
        } else {
            match pointer_in(s, inode.single_indirect, index - 12) {
                Ok(p) => Ok(nonzero(p)),
                Err(f) => Err(f),
            }
        }
    } else if index - 12 - POINTERS_PER_BLOCK >= POINTERS_PER_BLOCK * POINTERS_PER_BLOCK {
        Err(FsFault::BadBlock(index))
    } else if inode.double_indirect == 0 {
        Ok(None)
    } else {
        let rel = index - 12 - POINTERS_PER_BLOCK;
        match pointer_in(s, inode.double_indirect, rel / POINTERS_PER_BLOCK as int) {
            Err(f) => Err(f),
            Ok(inner) => if inner == 0 {
                Ok(None)
            } else {
                match pointer_in(s, inner, rel % POINTERS_PER_BLOCK as int) {
                    Ok(p) => Ok(nonzero(p)),
                    Err(f) => Err(f),
                }
            },
        }
    }
}

/// Byte `pos` of a file: from the block that holds it, or zero in a hole.
pub open spec fn file_byte(s: StoreView, inode: Inode, pos: int) -> Result<u8, FsFault> {
    match file_block(s, inode, (pos / UB as int) as u64) {
        Ok(Some(b)) => match read_block_spec(s, b) {
            Ok(p) => Ok(p[pos % UB as int]),
            Err(f) => Err(f),
        },
        Ok(None) => Ok(0u8),
        Err(f) => Err(f),
    }
}

/// Loading more chunks changes no block of a file's map.
pub proof fn lemma_file_block_loaded(a: StoreView, b: StoreView, inode: Inode, index: u64)
    requires
        loaded_from(a, b),
        store_wf(a),
    ensures
        file_block(b, inode, index) == file_block(a, inode, index),
{
    lemma_loaded_from_blocks(a, b, inode.single_indirect);
    lemma_loaded_from_blocks(a, b, inode.double_indirect);
    let rel = index - 12 - POINTERS_PER_BLOCK;
    match pointer_in(a, inode.double_indirect, rel / POINTERS_PER_BLOCK as int) {
        Ok(inner) => {
            lemma_loaded_from_blocks(a, b, inner);
        },
        Err(_) => {},
    }
}

/// A store with more chunks loaded maps and reads every file block as
/// before.
pub proof fn lemma_file_byte_loaded(a: StoreView, b: StoreView, inode: Inode, pos: int)
    requires
        loaded_from(a, b),
        store_wf(a),
    ensures
        file_block(b, inode, (pos / UB as int) as u64) == file_block(a, inode, (pos / UB as int) as u64),
        file_byte(b, inode, pos) == file_byte(a, inode, pos),
{
    let index = (pos / UB as int) as u64;
    lemma_loaded_from_blocks(a, b, inode.single_indirect);
    lemma_loaded_from_blocks(a, b, inode.double_indirect);
    let rel = index - 12 - POINTERS_PER_BLOCK;
    match pointer_in(a, inode.double_indirect, rel / POINTERS_PER_BLOCK as int) {
        Ok(inner) => {
            lemma_loaded_from_blocks(a, b, inner);
        },
        Err(_) => {},
    }
    match file_block(a, inode, index) {
        Ok(Some(blk)) => {
            lemma_loaded_from_blocks(a, b, blk);
        },
        _ => {},
    }
}

/// The bytes of block `position / UB` from offset `position % UB` on are
/// the file's bytes from `position` on.
pub proof fn lemma_byte_in_block(s: StoreView, inode: Inode, position: u64, k: int, block: Option<u64>, payload: Seq<u8>)
    requires
        0 <= k,
        (position % UB as u64) + k < UB,
        file_block(s, inode, position / UB as u64) == Ok::<Option<u64>, FsFault>(block),
        block matches Some(b) ==> read_block_spec(s, b) == Ok::<Seq<u8>, FsFault>(payload),
    ensures
        file_byte(s, inode, position + k) == Ok::<u8, FsFault>(
            match block {
                Some(_) => payload[(position % UB as u64) + k],
                None => 0u8,
            },
        ),
{
    let q = (position / UB as u64) as int;
    let r = (position % UB as u64) as int;
    vstd::arithmetic::div_mod::lemma_fundamental_div_mod(position as int, UB as int);
    assert(position == q * UB + r);
    vstd::arithmetic::div_mod::lemma_fundamental_div_mod_converse(position + k, UB as int, q, r + k);
}


/// A place in a file's mapping tree that may hold a block number.
pub enum RefSlot {
    Direct(int),
    Single,
    Double,
    SingleEntry(int),
    DoubleEntry(int),
    InnerEntry(int, int),
}

/// Entry `k` of the indirect block `blk`, or zero where there is no such
/// block or it does not read.
pub open spec fn entry_of(s: StoreView, blk: u64, k: int) -> u64 {
    if blk != 0 && 0 <= k < POINTERS_PER_BLOCK {
        match pointer_in(s, blk, k) {
            Ok(p) => p,
            Err(_) => 0,
        }
    } else {
        0
    }
}

/// The block number a slot of the file's tree holds; zero for none.
pub open spec fn slot_block(s: StoreView, inode: Inode, slot: RefSlot) -> u64 {
    match slot {
        RefSlot::Direct(k) => if 0 <= k < 12 {
            inode.direct[k]
        } else {
            0
        },
        RefSlot::Single => inode.single_indirect,
        RefSlot::Double => inode.double_indirect,
        RefSlot::SingleEntry(k) => entry_of(s, inode.single_indirect, k),
        RefSlot::DoubleEntry(k) => entry_of(s, inode.double_indirect, k),
        RefSlot::InnerEntry(k, j) => entry_of(s, entry_of(s, inode.double_indirect, k), j),
    }
}

/// The slots that hold indirect blocks rather than file data.
pub open spec fn is_pointer_slot(slot: RefSlot) -> bool {
    match slot {
        RefSlot::Single => true,
        RefSlot::Double => true,
        RefSlot::DoubleEntry(_) => true,
        _ => false,
    }
}

/// The slot that maps block `index` of a file.
pub open spec fn slot_of(index: u64) -> RefSlot {
    if index < 12 {
        RefSlot::Direct(index as int)
    } else if index - 12 < POINTERS_PER_BLOCK {
        RefSlot::SingleEntry(index - 12)
    } else {
        let rel = index - 12 - POINTERS_PER_BLOCK;
        RefSlot::InnerEntry(rel / POINTERS_PER_BLOCK as int, rel % POINTERS_PER_BLOCK as int)
    }
}

/// Every block the file's tree reaches lies in the data area, is marked in
/// `used`, and is reached from one slot only.
pub closed spec fn file_ok(s: StoreView, used: Seq<bool>, data_start: u64, inode: Inode) -> bool {
    &&& forall|a: RefSlot|
        #[trigger] slot_block(s, inode, a) != 0 ==> data_start <= slot_block(s, inode, a)
            < used.len() && used[slot_block(s, inode, a) as int]
    &&& forall|a: RefSlot, c: RefSlot|
        a != c && #[trigger] slot_block(s, inode, a) != 0 ==> slot_block(s, inode, a)
            != #[trigger] slot_block(s, inode, c)
}

/// A direct pointer of a file in good order points at a data block.
pub proof fn lemma_direct_in_data(s: StoreView, used: Seq<bool>, data_start: u64, inode: Inode, k: int)
    requires
        file_ok(s, used, data_start, inode),
        0 <= k < 12,
        inode.direct[k] != 0,
    ensures
        data_start <= inode.direct[k],
{
    assert(slot_block(s, inode, RefSlot::Direct(k)) == inode.direct[k]);
}

/// Two direct pointers of a file in good order do not share a block.
pub proof fn lemma_direct_distinct(s: StoreView, used: Seq<bool>, data_start: u64, inode: Inode, k1: int, k2: int)
    requires
        file_ok(s, used, data_start, inode),
        0 <= k1 < 12,
        0 <= k2 < 12,
        k1 != k2,
        inode.direct[k1] != 0,
    ensures
        inode.direct[k1] != inode.direct[k2],
{
    assert(slot_block(s, inode, RefSlot::Direct(k1)) == inode.direct[k1]);
    assert(slot_block(s, inode, RefSlot::Direct(k2)) == inode.direct[k2]);
}

/// Every indirect block of the file's tree in `a` reads the same in `b`.
pub open spec fn pointers_kept(a: StoreView, b: StoreView, inode: Inode) -> bool {
    forall|slot: RefSlot|
        is_pointer_slot(slot) && #[trigger] slot_block(a, inode, slot) != 0 ==> read_block_spec(
            b,
            slot_block(a, inode, slot),
        ) == read_block_spec(a, slot_block(a, inode, slot))
}

/// Where the indirect blocks read the same, the tree holds the same blocks
/// and maps every file block the same way.
pub proof fn lemma_slots_kept(a: StoreView, b: StoreView, inode: Inode)
    requires
        pointers_kept(a, b, inode),
    ensures
        forall|slot: RefSlot| #[trigger] slot_block(b, inode, slot) == slot_block(a, inode, slot),
        forall|index: u64| #[trigger] file_block(b, inode, index) == file_block(a, inode, index),
{
    assert(slot_block(a, inode, RefSlot::Single) == inode.single_indirect);
    assert(slot_block(a, inode, RefSlot::Double) == inode.double_indirect);
    assert forall|k: int| #[trigger] entry_of(b, inode.double_indirect, k) == entry_of(a, inode.double_indirect, k) by {
        if inode.double_indirect != 0 {
            assert(is_pointer_slot(RefSlot::Double));
        }
    }
    assert forall|k: int| #[trigger] entry_of(b, inode.single_indirect, k) == entry_of(a, inode.single_indirect, k) by {
        if inode.single_indirect != 0 {
            assert(is_pointer_slot(RefSlot::Single));
        }
    }
    assert forall|k: int, j: int|
        #[trigger] entry_of(b, entry_of(a, inode.double_indirect, k), j) == entry_of(
            a,
            entry_of(a, inode.double_indirect, k),
            j,
        ) by {
        let inner = entry_of(a, inode.double_indirect, k);
        if inner != 0 {
            assert(slot_block(a, inode, RefSlot::DoubleEntry(k)) == inner);
            assert(is_pointer_slot(RefSlot::DoubleEntry(k)));
        }
    }
    assert forall|slot: RefSlot| #[trigger] slot_block(b, inode, slot) == slot_block(a, inode, slot) by {
        match slot {
            RefSlot::InnerEntry(k, j) => {
                assert(entry_of(b, inode.double_indirect, k) == entry_of(a, inode.double_indirect, k));
                assert(entry_of(b, entry_of(a, inode.double_indirect, k), j) == entry_of(
                    a,
                    entry_of(a, inode.double_indirect, k),
                    j,
                ));
            },
            RefSlot::SingleEntry(k) => {
                assert(entry_of(b, inode.single_indirect, k) == entry_of(a, inode.single_indirect, k));
            },
            RefSlot::DoubleEntry(k) => {
                assert(entry_of(b, inode.double_indirect, k) == entry_of(a, inode.double_indirect, k));
            },
            _ => {},
        }
    }
    assert forall|index: u64| #[trigger] file_block(b, inode, index) == file_block(a, inode, index) by {
        if inode.single_indirect != 0 {
            assert(is_pointer_slot(RefSlot::Single));
            assert(read_block_spec(b, inode.single_indirect) == read_block_spec(a, inode.single_indirect));
        }
        if inode.double_indirect != 0 {
            assert(is_pointer_slot(RefSlot::Double));
            assert(read_block_spec(b, inode.double_indirect) == read_block_spec(a, inode.double_indirect));
            let rel = index - 12 - POINTERS_PER_BLOCK;
            let k = rel / POINTERS_PER_BLOCK as int;
            if index >= 12 + POINTERS_PER_BLOCK && rel < POINTERS_PER_BLOCK * POINTERS_PER_BLOCK {
                assert(0 <= k < POINTERS_PER_BLOCK) by (nonlinear_arith)
                    requires
                        k == rel / 504,
                        0 <= rel < 504 * 504,
                ;
                match pointer_in(a, inode.double_indirect, k) {
                    Ok(inner) => {
                        if inner != 0 {
                            assert(slot_block(a, inode, RefSlot::DoubleEntry(k)) == inner);
                            assert(is_pointer_slot(RefSlot::DoubleEntry(k)));
                            assert(read_block_spec(b, inner) == read_block_spec(a, inner));
                        }
                    },
                    Err(_) => {},
                }
            }
        }
    }
}

/// Two states of a store with the same frame read a block the same where
/// they hold the same physical block.
pub proof fn lemma_read_same(a: StoreView, b: StoreView, lba: u64)
    requires
        same_frame(a, b),
        physical_block(b, lba) == physical_block(a, lba),
    ensures
        read_block_spec(b, lba) == read_block_spec(a, lba),
{
}

/// The slot that maps a file block holds the block it maps to, and holds
/// file data rather than pointers.
pub proof fn lemma_file_block_slot(s: StoreView, inode: Inode, index: u64)
    ensures
        !is_pointer_slot(slot_of(index)),
        file_block(s, inode, index) matches Ok(Some(b)) ==> b != 0 && slot_block(s, inode, slot_of(index)) == b,
{
    if index >= 12 + POINTERS_PER_BLOCK {
        let rel = index - 12 - POINTERS_PER_BLOCK;
        if rel < POINTERS_PER_BLOCK * POINTERS_PER_BLOCK {
            let k = rel / POINTERS_PER_BLOCK as int;
            let j = rel % POINTERS_PER_BLOCK as int;
            assert(0 <= k < POINTERS_PER_BLOCK && 0 <= j < POINTERS_PER_BLOCK) by (nonlinear_arith)
                requires
                    k == rel / 504,
                    j == rel % 504,
                    0 <= rel < 504 * 504,
            ;
        }
    }
}

/// Distinct file blocks are mapped through distinct slots.
pub proof fn lemma_slot_of_injective(i: u64, j: u64)
    requires
        i != j,
    ensures
        slot_of(i) != slot_of(j),
{
    if i >= 12 + POINTERS_PER_BLOCK && j >= 12 + POINTERS_PER_BLOCK {
        let ri = i - 12 - POINTERS_PER_BLOCK;
        let rj = j - 12 - POINTERS_PER_BLOCK;
        assert(ri / 504 != rj / 504 || ri % 504 != rj % 504) by (nonlinear_arith)
            requires
                ri != rj,
                ri >= 0,
                rj >= 0,
        {
            if ri / 504 == rj / 504 && ri % 504 == rj % 504 {
                vstd::arithmetic::div_mod::lemma_fundamental_div_mod(ri, 504);
                vstd::arithmetic::div_mod::lemma_fundamental_div_mod(rj, 504);
            }
        }
    }
}

/// A block not marked in use is reached by no slot of a file in good order.
pub proof fn lemma_fresh_outside(s: StoreView, used: Seq<bool>, data_start: u64, inode: Inode, x: u64)
    requires
        file_ok(s, used, data_start, inode),
        x != 0,
        x < used.len(),
        !used[x as int],
    ensures
        forall|slot: RefSlot| #[trigger] slot_block(s, inode, slot) != x,
{
    assert forall|slot: RefSlot| #[trigger] slot_block(s, inode, slot) != x by {
        if slot_block(s, inode, slot) == x {
            assert(used[slot_block(s, inode, slot) as int]);
        }
    }
}

/// Where only a block outside the file's tree changes, the file keeps its
/// tree, its mapping and its bytes.
pub proof fn lemma_outside_write(a: StoreView, b: StoreView, used: Seq<bool>, data_start: u64, inode: Inode, x: u64)
    requires
        file_ok(a, used, data_start, inode),
        forall|slot: RefSlot| #[trigger] slot_block(a, inode, slot) != x,
        same_frame(a, b),
        forall|other: u64| other != x ==> #[trigger] physical_block(b, other) == physical_block(a, other),
    ensures
        pointers_kept(a, b, inode),
        forall|slot: RefSlot| #[trigger] slot_block(b, inode, slot) == slot_block(a, inode, slot),
        forall|index: u64| #[trigger] file_block(b, inode, index) == file_block(a, inode, index),
        forall|pos: int| 0 <= pos ==> #[trigger] file_byte(b, inode, pos) == file_byte(a, inode, pos),
        file_ok(b, used, data_start, inode),
{
    assert forall|slot: RefSlot|
        is_pointer_slot(slot) && #[trigger] slot_block(a, inode, slot) != 0 implies read_block_spec(
            b,
            slot_block(a, inode, slot),
        ) == read_block_spec(a, slot_block(a, inode, slot)) by {
        lemma_read_same(a, b, slot_block(a, inode, slot));
    }
    lemma_slots_kept(a, b, inode);
    assert forall|pos: int| 0 <= pos implies #[trigger] file_byte(b, inode, pos) == file_byte(a, inode, pos) by {
        let index = (pos / UB as int) as u64;
        lemma_file_block_slot(a, inode, index);
        match file_block(a, inode, index) {
            Ok(Some(blk)) => {
                assert(slot_block(a, inode, slot_of(index)) == blk);
                lemma_read_same(a, b, blk);
            },
            _ => {},
        }
    }
}

/// Writing a block that the file maps at `index` changes no other block
/// of the file and none of its indirect blocks.
pub proof fn lemma_data_write(a: StoreView, b: StoreView, used: Seq<bool>, data_start: u64, inode: Inode, index: u64, x: u64)
    requires
        file_ok(a, used, data_start, inode),
        file_block(a, inode, index) == Ok::<Option<u64>, FsFault>(Some(x)),
        same_frame(a, b),
        forall|other: u64| other != x ==> #[trigger] physical_block(b, other) == physical_block(a, other),
    ensures
        pointers_kept(a, b, inode),
        forall|slot: RefSlot| #[trigger] slot_block(b, inode, slot) == slot_block(a, inode, slot),
        forall|i: u64| #[trigger] file_block(b, inode, i) == file_block(a, inode, i),
        forall|pos: int|
            0 <= pos && (pos / UB as int) as u64 != index ==> #[trigger] file_byte(b, inode, pos)
                == file_byte(a, inode, pos),
        file_ok(b, used, data_start, inode),
{
    lemma_file_block_slot(a, inode, index);
    assert(slot_block(a, inode, slot_of(index)) == x);
    assert forall|slot: RefSlot|
        is_pointer_slot(slot) && #[trigger] slot_block(a, inode, slot) != 0 implies read_block_spec(
            b,
            slot_block(a, inode, slot),
        ) == read_block_spec(a, slot_block(a, inode, slot)) by {
        assert(slot != slot_of(index));
        assert(slot_block(a, inode, slot_of(index)) != slot_block(a, inode, slot));
        lemma_read_same(a, b, slot_block(a, inode, slot));
    }
    lemma_slots_kept(a, b, inode);
    assert forall|pos: int|
        0 <= pos && (pos / UB as int) as u64 != index implies #[trigger] file_byte(b, inode, pos)
        == file_byte(a, inode, pos) by {
        let i = (pos / UB as int) as u64;
        lemma_file_block_slot(a, inode, i);
        match file_block(a, inode, i) {
            Ok(Some(blk)) => {
                lemma_slot_of_injective(i, index);
                assert(slot_block(a, inode, slot_of(i)) == blk);
                assert(slot_block(a, inode, slot_of(index)) != slot_block(a, inode, slot_of(i)));
                lemma_read_same(a, b, blk);
            },
            _ => {},
        }
    }
}

/// An all-zero indirect block holds no pointers.
pub proof fn lemma_get64_zeros(k: int)
    requires
        0 <= k < POINTERS_PER_BLOCK,
    ensures
        get64(zeros(UB as nat), 8 * k) == 0,
{
    vstd::bytes::spec_u64_to_le_bytes_to_open(0);
    assert((0u64 & 0xff) as u8 == 0 && ((0u64 >> 8) & 0xff) as u8 == 0 && ((0u64 >> 16) & 0xff) as u8 == 0
        && ((0u64 >> 24) & 0xff) as u8 == 0 && ((0u64 >> 32) & 0xff) as u8 == 0 && ((0u64 >> 40) & 0xff) as u8
        == 0 && ((0u64 >> 48) & 0xff) as u8 == 0 && ((0u64 >> 56) & 0xff) as u8 == 0) by (bit_vector);
    assert(le64(0) =~= zeros(8));
    crate::layout::lemma_le_roundtrip();
    assert(zeros(UB as nat).subrange(8 * k, 8 * k + 8) =~= zeros(8));
}

/// Setting pointer `r` of an indirect block changes that pointer and no
/// other.
pub proof fn lemma_get64_splice(p: Seq<u8>, r: int, x: u64, k: int)
    requires
        p.len() == UB,
        0 <= r < POINTERS_PER_BLOCK,
        0 <= k < POINTERS_PER_BLOCK,
    ensures
        get64(splice(p, 8 * r, le64(x)), 8 * k) == if k == r {
            x
        } else {
            get64(p, 8 * k)
        },
        splice(p, 8 * r, le64(x)).len() == UB,
{
    crate::layout::lemma_le_roundtrip();
    let q = splice(p, 8 * r, le64(x));
    if k == r {
        assert(q.subrange(8 * k, 8 * k + 8) =~= le64(x));
    } else {
        assert(q.subrange(8 * k, 8 * k + 8) =~= p.subrange(8 * k, 8 * k + 8));
    }
}

/// A new direct pointer to a fresh zeroed block keeps the file in good
/// order and its bytes as they were, and maps the block there.
pub proof fn lemma_set_direct(s: StoreView, used: Seq<bool>, data_start: u64, inode: Inode, inode2: Inode, i: int, x: u64)
    requires
        file_ok(s, used, data_start, inode),
        0 <= i < 12,
        inode.direct[i] == 0,
        inode2.direct[i] == x,
        forall|k: int| 0 <= k < 12 && k != i ==> inode2.direct[k] == inode.direct[k],
        inode2.single_indirect == inode.single_indirect,
        inode2.double_indirect == inode.double_indirect,
        x != 0,
        data_start <= x < used.len(),
        used[x as int],
        forall|slot: RefSlot| #[trigger] slot_block(s, inode, slot) != x,
        read_block_spec(s, x) == Ok::<Seq<u8>, FsFault>(zeros(UB as nat)),
    ensures
        file_ok(s, used, data_start, inode2),
        file_block(s, inode2, i as u64) == Ok::<Option<u64>, FsFault>(Some(x)),
        forall|pos: int| 0 <= pos ==> #[trigger] file_byte(s, inode2, pos) == file_byte(s, inode, pos),
{
    assert forall|slot: RefSlot| #[trigger] slot_block(s, inode2, slot) == if slot == RefSlot::Direct(i) {
        x
    } else {
        slot_block(s, inode, slot)
    } by {}
    assert forall|a: RefSlot, c: RefSlot|
        a != c && #[trigger] slot_block(s, inode2, a) != 0 implies slot_block(s, inode2, a)
        != #[trigger] slot_block(s, inode2, c) by {
        if a != RefSlot::Direct(i) && c != RefSlot::Direct(i) {
            assert(slot_block(s, inode, a) != slot_block(s, inode, c));
        }
    }
    assert forall|a: RefSlot|
        #[trigger] slot_block(s, inode2, a) != 0 implies data_start <= slot_block(s, inode2, a)
        < used.len() && used[slot_block(s, inode2, a) as int] by {
        if a != RefSlot::Direct(i) {
            assert(slot_block(s, inode, a) != 0);
        }
    }
    assert forall|pos: int| 0 <= pos implies #[trigger] file_byte(s, inode2, pos) == file_byte(s, inode, pos) by {
        let index = (pos / UB as int) as u64;
        if index == i {
            assert(0 <= pos % (UB as int) < UB);
        } else {
            assert(file_block(s, inode2, index) == file_block(s, inode, index));
        }
    }
}

/// A fresh zeroed single-indirect block keeps the file in good order and
/// its bytes as they were.
pub proof fn lemma_set_single(s: StoreView, used: Seq<bool>, data_start: u64, inode: Inode, inode2: Inode, x: u64)
    requires
        file_ok(s, used, data_start, inode),
        inode.single_indirect == 0,
        inode2.single_indirect == x,
        inode2.direct == inode.direct,
        inode2.double_indirect == inode.double_indirect,
        x != 0,
        data_start <= x < used.len(),
        used[x as int],
        forall|slot: RefSlot| #[trigger] slot_block(s, inode, slot) != x,
        read_block_spec(s, x) == Ok::<Seq<u8>, FsFault>(zeros(UB as nat)),
    ensures
        file_ok(s, used, data_start, inode2),
        forall|pos: int| 0 <= pos ==> #[trigger] file_byte(s, inode2, pos) == file_byte(s, inode, pos),
        forall|i: u64| #[trigger] file_block(s, inode2, i) == file_block(s, inode, i),
{
    assert forall|k: int| #[trigger] entry_of(s, x, k) == 0 by {
        if 0 <= k < POINTERS_PER_BLOCK {
            lemma_get64_zeros(k);
        }
    }
    assert forall|slot: RefSlot| #[trigger] slot_block(s, inode2, slot) == if slot == RefSlot::Single {
        x
    } else {
        slot_block(s, inode, slot)
    } by {}
    assert forall|a: RefSlot, c: RefSlot|
        a != c && #[trigger] slot_block(s, inode2, a) != 0 implies slot_block(s, inode2, a)
        != #[trigger] slot_block(s, inode2, c) by {
        if a != RefSlot::Single && c != RefSlot::Single {
            assert(slot_block(s, inode, a) != slot_block(s, inode, c));
        }
    }
    assert forall|a: RefSlot|
        #[trigger] slot_block(s, inode2, a) != 0 implies data_start <= slot_block(s, inode2, a)
        < used.len() && used[slot_block(s, inode2, a) as int] by {
        if a != RefSlot::Single {
            assert(slot_block(s, inode, a) != 0);
        }
    }
    assert forall|i: u64| #[trigger] file_block(s, inode2, i) == file_block(s, inode, i) by {
        if i >= 12 && i - 12 < POINTERS_PER_BLOCK {
            lemma_get64_zeros(i - 12);
        }
    }
}

/// A fresh zeroed double-indirect block keeps the file in good order and
/// its bytes as they were.
pub proof fn lemma_set_double(s: StoreView, used: Seq<bool>, data_start: u64, inode: Inode, inode2: Inode, x: u64)
    requires
        file_ok(s, used, data_start, inode),
        inode.double_indirect == 0,
        inode2.double_indirect == x,
        inode2.direct == inode.direct,
        inode2.single_indirect == inode.single_indirect,
        x != 0,
        data_start <= x < used.len(),
        used[x as int],
        forall|slot: RefSlot| #[trigger] slot_block(s, inode, slot) != x,
        read_block_spec(s, x) == Ok::<Seq<u8>, FsFault>(zeros(UB as nat)),
    ensures
        file_ok(s, used, data_start, inode2),
        forall|pos: int| 0 <= pos ==> #[trigger] file_byte(s, inode2, pos) == file_byte(s, inode, pos),
        forall|i: u64| #[trigger] file_block(s, inode2, i) == file_block(s, inode, i),
{
    assert forall|k: int| #[trigger] entry_of(s, x, k) == 0 by {
        if 0 <= k < POINTERS_PER_BLOCK {
            lemma_get64_zeros(k);
        }
    }
    assert forall|slot: RefSlot| #[trigger] slot_block(s, inode2, slot) == if slot == RefSlot::Double {
        x
    } else {
        slot_block(s, inode, slot)
    } by {
        match slot {
            RefSlot::InnerEntry(k, j) => {
                assert(entry_of(s, x, k) == 0);
            },
            _ => {},
        }
    }
    assert forall|a: RefSlot, c: RefSlot|
        a != c && #[trigger] slot_block(s, inode2, a) != 0 implies slot_block(s, inode2, a)
        != #[trigger] slot_block(s, inode2, c) by {
        if a != RefSlot::Double && c != RefSlot::Double {
            assert(slot_block(s, inode, a) != slot_block(s, inode, c));
        }
    }
    assert forall|a: RefSlot|
        #[trigger] slot_block(s, inode2, a) != 0 implies data_start <= slot_block(s, inode2, a)
        < used.len() && used[slot_block(s, inode2, a) as int] by {
        if a != RefSlot::Double {
            assert(slot_block(s, inode, a) != 0);
        }
    }
    assert forall|i: u64| #[trigger] file_block(s, inode2, i) == file_block(s, inode, i) by {
        if i >= 12 + POINTERS_PER_BLOCK {
            let rel = i - 12 - POINTERS_PER_BLOCK;
            if rel < POINTERS_PER_BLOCK * POINTERS_PER_BLOCK {
                let k = rel / POINTERS_PER_BLOCK as int;
                assert(0 <= k < POINTERS_PER_BLOCK) by (nonlinear_arith)
                    requires
                        k == rel / 504,
                        0 <= rel < 504 * 504,
                ;
                lemma_get64_zeros(k);
            }
        }
    }
}

/// The slot that pointer `r` of the indirect block in slot `p` fills.
pub open spec fn child(p: RefSlot, r: int) -> RefSlot {
    match p {
        RefSlot::Single => RefSlot::SingleEntry(r),
        RefSlot::Double => RefSlot::DoubleEntry(r),
        RefSlot::DoubleEntry(k) => RefSlot::InnerEntry(k, r),
        _ => p,
    }
}

/// Two slots of a file in good order that hold the same nonzero block are
/// the same slot.
proof fn lemma_same_block_same_slot(s: StoreView, used: Seq<bool>, data_start: u64, inode: Inode, a: RefSlot, c: RefSlot)
    requires
        file_ok(s, used, data_start, inode),
        slot_block(s, inode, a) != 0,
        slot_block(s, inode, a) == slot_block(s, inode, c),
    ensures
        a == c,
{
    if a != c {
        assert(slot_block(s, inode, a) != slot_block(s, inode, c));
    }
}

/// Pointing an empty entry of one of the file's indirect blocks at a fresh
/// zeroed block keeps the file in good order and its bytes as they were,
/// fills that entry's slot, and maps the file block behind it there.
#[verifier::spinoff_prover]
#[verifier::rlimit(60)]
pub proof fn lemma_set_entry(
    a: StoreView,
    b: StoreView,
    used: Seq<bool>,
    data_start: u64,
    inode: Inode,
    p: RefSlot,
    r: int,
    x: u64,
    old_ptrs: Seq<u8>,
)
    requires
        file_ok(a, used, data_start, inode),
        is_pointer_slot(p),
        slot_block(a, inode, p) != 0,
        read_block_spec(a, slot_block(a, inode, p)) == Ok::<Seq<u8>, FsFault>(old_ptrs),
        old_ptrs.len() == UB,
        0 <= r < POINTERS_PER_BLOCK,
        get64(old_ptrs, 8 * r) == 0,
        x != 0,
        data_start <= x < used.len(),
        used[x as int],
        forall|slot: RefSlot| #[trigger] slot_block(a, inode, slot) != x,
        read_block_spec(a, x) == Ok::<Seq<u8>, FsFault>(zeros(UB as nat)),
        same_frame(a, b),
        forall|other: u64|
            other != slot_block(a, inode, p) ==> #[trigger] physical_block(b, other) == physical_block(a, other),
        read_block_spec(b, slot_block(a, inode, p)) == Ok::<Seq<u8>, FsFault>(
            splice(old_ptrs, 8 * r, le64(x)),
        ),
    ensures
        file_ok(b, used, data_start, inode),
        data_start <= slot_block(a, inode, p),
        slot_block(b, inode, child(p, r)) == x,
        forall|pos: int| 0 <= pos ==> #[trigger] file_byte(b, inode, pos) == file_byte(a, inode, pos),
        forall|idx: u64| slot_of(idx) == child(p, r) ==> #[trigger] file_block(b, inode, idx) == Ok::<
            Option<u64>,
            FsFault,
        >(Some(x)),
{
    let pb = slot_block(a, inode, p);
    let q = splice(old_ptrs, 8 * r, le64(x));
    // Reads of blocks other than the changed one are unchanged.
    assert forall|blk: u64| blk != pb implies #[trigger] read_block_spec(b, blk) == read_block_spec(a, blk) by {
        lemma_read_same(a, b, blk);
    }
    // The changed block's entries.
    assert forall|k: int| 0 <= k < POINTERS_PER_BLOCK implies #[trigger] entry_of(b, pb, k) == if k == r {
        x
    } else {
        entry_of(a, pb, k)
    } by {
        lemma_get64_splice(old_ptrs, r, x, k);
    }
    assert forall|k: int| #[trigger] entry_of(b, x, k) == 0 by {
        if 0 <= k < POINTERS_PER_BLOCK {
            lemma_get64_zeros(k);
            assert(read_block_spec(b, x) == read_block_spec(a, x));
        }
    }
    assert(slot_block(a, inode, child(p, r)) == 0) by {
        match p {
            RefSlot::DoubleEntry(k0) => {
                assert(entry_of(a, inode.double_indirect, k0) == pb);
            },
            _ => {},
        }
    }
    // Entries of blocks of the tree other than the changed one.
    assert forall|blk: u64, k: int| blk != pb implies #[trigger] entry_of(b, blk, k) == entry_of(a, blk, k) by {}
    assert forall|k: int| #[trigger] entry_of(b, inode.single_indirect, k) == if p == RefSlot::Single && k == r {
        x
    } else {
        entry_of(a, inode.single_indirect, k)
    } by {
        if inode.single_indirect == pb && inode.single_indirect != 0 {
            lemma_same_block_same_slot(a, used, data_start, inode, p, RefSlot::Single);
        }
        if p == RefSlot::Single && !(0 <= k < POINTERS_PER_BLOCK) {
            assert(entry_of(b, inode.single_indirect, k) == 0);
        }
    }
    assert forall|k: int| #[trigger] entry_of(b, inode.double_indirect, k) == if p == RefSlot::Double && k == r {
        x
    } else {
        entry_of(a, inode.double_indirect, k)
    } by {
        if inode.double_indirect == pb && inode.double_indirect != 0 {
            lemma_same_block_same_slot(a, used, data_start, inode, p, RefSlot::Double);
        }
    }
    assert forall|k: int, j: int| #[trigger] entry_of(b, entry_of(b, inode.double_indirect, k), j)
        == if p == RefSlot::DoubleEntry(k) && j == r {
        x
    } else {
        entry_of(a, entry_of(a, inode.double_indirect, k), j)
    } by {
        let inner_a = entry_of(a, inode.double_indirect, k);
        if p == RefSlot::Double && k == r {
            assert(entry_of(b, inode.double_indirect, k) == x);
            assert(inner_a == get64(old_ptrs, 8 * r));
        } else {
            assert(entry_of(b, inode.double_indirect, k) == inner_a);
            if inner_a == pb && inner_a != 0 {
                assert(slot_block(a, inode, RefSlot::DoubleEntry(k)) == inner_a);
                lemma_same_block_same_slot(a, used, data_start, inode, p, RefSlot::DoubleEntry(k));
            }
        }
    }
    assert forall|slot: RefSlot| #[trigger] slot_block(b, inode, slot) == if slot == child(p, r) {
        x
    } else {
        slot_block(a, inode, slot)
    } by {
        match slot {
            RefSlot::SingleEntry(k) => {
                assert(entry_of(b, inode.single_indirect, k) == if p == RefSlot::Single && k == r {
                    x
                } else {
                    entry_of(a, inode.single_indirect, k)
                });
            },
            RefSlot::DoubleEntry(k) => {
                assert(entry_of(b, inode.double_indirect, k) == if p == RefSlot::Double && k == r {
                    x
                } else {
                    entry_of(a, inode.double_indirect, k)
                });
            },
            RefSlot::InnerEntry(k, j) => {
                assert(entry_of(b, entry_of(b, inode.double_indirect, k), j) == if p
                    == RefSlot::DoubleEntry(k) && j == r {
                    x
                } else {
                    entry_of(a, entry_of(a, inode.double_indirect, k), j)
                });
            },
            _ => {},
        }
    }
    // The tree stays in good order.
    assert forall|c1: RefSlot, c2: RefSlot|
        c1 != c2 && #[trigger] slot_block(b, inode, c1) != 0 implies slot_block(b, inode, c1)
        != #[trigger] slot_block(b, inode, c2) by {
        if c1 != child(p, r) && c2 != child(p, r) {
            assert(slot_block(a, inode, c1) != slot_block(a, inode, c2));
        }
    }
    assert forall|c: RefSlot|
        #[trigger] slot_block(b, inode, c) != 0 implies data_start <= slot_block(b, inode, c)
        < used.len() && used[slot_block(b, inode, c) as int] by {
        if c != child(p, r) {
            assert(slot_block(a, inode, c) != 0);
        }
    }
    // The file's mapping and bytes.
    assert forall|idx: u64| #[trigger] file_block(b, inode, idx) == if slot_of(idx) == child(p, r) && p
        != RefSlot::Double {
        Ok::<Option<u64>, FsFault>(Some(x))
    } else {
        file_block(a, inode, idx)
    } by {
        if idx >= 12 && idx - 12 < POINTERS_PER_BLOCK {
            let k = idx - 12;
            if inode.single_indirect != 0 {
                if inode.single_indirect == pb {
                    lemma_same_block_same_slot(a, used, data_start, inode, p, RefSlot::Single);
                    lemma_get64_splice(old_ptrs, r, x, k);
                } else {
                    assert(read_block_spec(b, inode.single_indirect) == read_block_spec(a, inode.single_indirect));
                }
            }
        } else if idx >= 12 + POINTERS_PER_BLOCK {
            let rel = idx - 12 - POINTERS_PER_BLOCK;
            if rel < POINTERS_PER_BLOCK * POINTERS_PER_BLOCK && inode.double_indirect != 0 {
                let k = rel / POINTERS_PER_BLOCK as int;
                let j = rel % POINTERS_PER_BLOCK as int;
                assert(0 <= k < POINTERS_PER_BLOCK && 0 <= j < POINTERS_PER_BLOCK) by (nonlinear_arith)
                    requires
                        k == rel / 504,
                        j == rel % 504,
                        0 <= rel < 504 * 504,
                ;
                if inode.double_indirect == pb {
                    lemma_same_block_same_slot(a, used, data_start, inode, p, RefSlot::Double);
                    lemma_get64_splice(old_ptrs, r, x, k);
                    if k == r {
                        assert(pointer_in(b, x, j) == Ok::<u64, FsFault>(0)) by {
                            lemma_get64_zeros(j);
                            assert(read_block_spec(b, x) == read_block_spec(a, x));
                        }
                    } else {
                        let inner = get64(old_ptrs, 8 * k);
                        if inner != 0 {
                            assert(slot_block(a, inode, RefSlot::DoubleEntry(k)) == inner);
                            assert(inner != pb);
                            assert(read_block_spec(b, inner) == read_block_spec(a, inner));
                        }
                    }
                } else {
                    assert(read_block_spec(b, inode.double_indirect) == read_block_spec(a, inode.double_indirect));
                    match pointer_in(a, inode.double_indirect, k) {
                        Ok(inner) => {
                            if inner != 0 {
                                assert(slot_block(a, inode, RefSlot::DoubleEntry(k)) == inner);
                                if inner == pb {
                                    lemma_same_block_same_slot(a, used, data_start, inode, p, RefSlot::DoubleEntry(k));
                                    lemma_get64_splice(old_ptrs, r, x, j);
                                } else {
                                    assert(read_block_spec(b, inner) == read_block_spec(a, inner));
                                }
                            }
                        },
                        Err(_) => {},
                    }
                }
            }
        }
    }
    assert forall|pos: int| 0 <= pos implies #[trigger] file_byte(b, inode, pos) == file_byte(a, inode, pos) by {
        let idx = (pos / UB as int) as u64;
        lemma_file_block_slot(a, inode, idx);
        if slot_of(idx) == child(p, r) && p != RefSlot::Double {
            assert(slot_block(a, inode, slot_of(idx)) == 0);
            assert(read_block_spec(b, x) == read_block_spec(a, x));
            assert(0 <= pos % (UB as int) < UB);
        } else {
            match file_block(a, inode, idx) {
                Ok(Some(blk)) => {
                    assert(slot_block(a, inode, slot_of(idx)) == blk);
                    if blk == pb {
                        lemma_same_block_same_slot(a, used, data_start, inode, p, slot_of(idx));
                    }
                    assert(read_block_spec(b, blk) == read_block_spec(a, blk));
                },
                _ => {},
            }
        }
    }
}

/// The state a mapping step reaches from `(s0, i0)`: the file in good order
/// with the same bytes, and every block below the data area as it was.
pub closed spec fn map_grown(
    s0: StoreView,
    s1: StoreView,
    used1: Seq<bool>,
    data_start: u64,
    i0: Inode,
    i1: Inode,
) -> bool {
    &&& file_ok(s1, used1, data_start, i1)
    &&& forall|pos: int| 0 <= pos ==> #[trigger] file_byte(s1, i1, pos) == file_byte(s0, i0, pos)
    &&& forall|lba: u64| lba < data_start ==> #[trigger] physical_block(s1, lba) == physical_block(s0, lba)
    &&& same_frame(s0, s1)
}

/// A file in good order stays so where more blocks are marked in use.
pub proof fn lemma_file_ok_more_used(s: StoreView, used: Seq<bool>, used2: Seq<bool>, data_start: u64, inode: Inode)
    requires
        file_ok(s, used, data_start, inode),
        used2.len() == used.len(),
        forall|i: int| 0 <= i < used.len() && used[i] ==> #[trigger] used2[i],
    ensures
        file_ok(s, used2, data_start, inode),
{
    assert forall|a: RefSlot|
        #[trigger] slot_block(s, inode, a) != 0 implies data_start <= slot_block(s, inode, a) < used2.len()
        && used2[slot_block(s, inode, a) as int] by {
        assert(used[slot_block(s, inode, a) as int]);
    }
}

/// Loading chunks keeps a mapping step's state.
pub proof fn lemma_map_loaded(s0: StoreView, a: StoreView, b: StoreView, used: Seq<bool>, data_start: u64, i0: Inode, i: Inode)
    requires
        map_grown(s0, a, used, data_start, i0, i),
        loaded_from(a, b),
        store_wf(a),
    ensures
        map_grown(s0, b, used, data_start, i0, i),
        forall|slot: RefSlot| #[trigger] slot_block(b, i, slot) == slot_block(a, i, slot),
        forall|index: u64| #[trigger] file_block(b, i, index) == file_block(a, i, index),
        forall|lba: u64| #[trigger] read_block_spec(b, lba) == read_block_spec(a, lba),
{
    assert forall|lba: u64| #[trigger] read_block_spec(b, lba) == read_block_spec(a, lba) by {
        lemma_loaded_from_blocks(a, b, lba);
    }
    assert forall|lba: u64| #[trigger] physical_block(b, lba) == physical_block(a, lba) by {
        lemma_loaded_from_blocks(a, b, lba);
    }
    lemma_slots_kept(a, b, i);
    assert forall|pos: int| 0 <= pos implies #[trigger] file_byte(b, i, pos) == file_byte(a, i, pos) by {
        let index = (pos / UB as int) as u64;
        assert(file_block(b, i, index) == file_block(a, i, index));
    }
}

/// Allocating a block outside the file's tree, zeroed, keeps a mapping
/// step's state with that block marked in use; the block stays outside
/// the tree.
pub proof fn lemma_map_alloc(
    s0: StoreView,
    a: StoreView,
    b: StoreView,
    used: Seq<bool>,
    used2: Seq<bool>,
    data_start: u64,
    i0: Inode,
    i: Inode,
    x: u64,
)
    requires
        map_grown(s0, a, used, data_start, i0, i),
        data_start > 0,
        data_start <= x < used.len(),
        !used[x as int],
        used2 == used.update(x as int, true),
        same_frame(a, b),
        forall|other: u64| other != x ==> #[trigger] physical_block(b, other) == physical_block(a, other),
    ensures
        map_grown(s0, b, used2, data_start, i0, i),
        forall|slot: RefSlot| #[trigger] slot_block(b, i, slot) != x,
        forall|slot: RefSlot| #[trigger] slot_block(b, i, slot) == slot_block(a, i, slot),
        forall|index: u64| #[trigger] file_block(b, i, index) == file_block(a, i, index),
        forall|lba: u64| lba != x ==> #[trigger] read_block_spec(b, lba) == read_block_spec(a, lba),
{
    lemma_fresh_outside(a, used, data_start, i, x);
    lemma_outside_write(a, b, used, data_start, i, x);
    lemma_file_ok_more_used(b, used, used2, data_start, i);
    assert forall|lba: u64| lba != x implies #[trigger] read_block_spec(b, lba) == read_block_spec(a, lba) by {
        lemma_read_same(a, b, lba);
    }
}

/// A file in good order is its own mapping step's start.
pub proof fn lemma_map_start(s: StoreView, used: Seq<bool>, data_start: u64, inode: Inode)
    requires
        file_ok(s, used, data_start, inode),
    ensures
        map_grown(s, s, used, data_start, inode, inode),
{
}

/// Only the pointer fields of an inode shape its tree, mapping and bytes.
pub proof fn lemma_same_pointers(s: StoreView, i1: Inode, i2: Inode)
    requires
        i1.direct == i2.direct,
        i1.single_indirect == i2.single_indirect,
        i1.double_indirect == i2.double_indirect,
    ensures
        forall|slot: RefSlot| #[trigger] slot_block(s, i2, slot) == slot_block(s, i1, slot),
        forall|index: u64| #[trigger] file_block(s, i2, index) == file_block(s, i1, index),
        forall|pos: int| #[trigger] file_byte(s, i2, pos) == file_byte(s, i1, pos),
        forall|used: Seq<bool>, ds: u64| #[trigger] file_ok(s, used, ds, i2) == file_ok(s, used, ds, i1),
{
    assert forall|slot: RefSlot| #[trigger] slot_block(s, i2, slot) == slot_block(s, i1, slot) by {}
    assert forall|index: u64| #[trigger] file_block(s, i2, index) == file_block(s, i1, index) by {}
    assert forall|pos: int| #[trigger] file_byte(s, i2, pos) == file_byte(s, i1, pos) by {
        assert(file_block(s, i2, (pos / UB as int) as u64) == file_block(s, i1, (pos / UB as int) as u64));
    }
    assert forall|used: Seq<bool>, ds: u64| #[trigger] file_ok(s, used, ds, i2) == file_ok(s, used, ds, i1) by {
        lemma_file_ok_same_slots(s, used, ds, i1, i2);
        lemma_file_ok_same_slots(s, used, ds, i2, i1);
    }
}

/// Trees with the same slots are in good order together.
proof fn lemma_file_ok_same_slots(s: StoreView, used: Seq<bool>, ds: u64, i1: Inode, i2: Inode)
    requires
        forall|slot: RefSlot| #[trigger] slot_block(s, i2, slot) == slot_block(s, i1, slot),
    ensures
        file_ok(s, used, ds, i1) ==> file_ok(s, used, ds, i2),
{
    if file_ok(s, used, ds, i1) {
        assert forall|a: RefSlot|
            #[trigger] slot_block(s, i2, a) != 0 implies ds <= slot_block(s, i2, a) < used.len()
            && used[slot_block(s, i2, a) as int] by {
            assert(slot_block(s, i1, a) != 0);
        }
        assert forall|a: RefSlot, c: RefSlot|
            a != c && #[trigger] slot_block(s, i2, a) != 0 implies slot_block(s, i2, a)
            != #[trigger] slot_block(s, i2, c) by {
            assert(slot_block(s, i1, a) != slot_block(s, i1, c));
        }
    }
}

/// What a mapping step's state holds.
pub proof fn lemma_map_facts(s0: StoreView, s1: StoreView, used: Seq<bool>, data_start: u64, i0: Inode, i1: Inode)
    requires
        map_grown(s0, s1, used, data_start, i0, i1),
    ensures
        file_ok(s1, used, data_start, i1),
        forall|pos: int| 0 <= pos ==> #[trigger] file_byte(s1, i1, pos) == file_byte(s0, i0, pos),
        forall|lba: u64| lba < data_start ==> #[trigger] physical_block(s1, lba) == physical_block(s0, lba),
        same_frame(s0, s1),
{
}

/// A state whose file is in good order, with the same bytes as a start
/// state and the same blocks below the data area, is a mapping step's
/// state.
pub proof fn lemma_map_make(s0: StoreView, s1: StoreView, used: Seq<bool>, data_start: u64, i0: Inode, i1: Inode)
    requires
        file_ok(s1, used, data_start, i1),
        forall|pos: int| 0 <= pos ==> #[trigger] file_byte(s1, i1, pos) == file_byte(s0, i0, pos),
        forall|lba: u64| lba < data_start ==> #[trigger] physical_block(s1, lba) == physical_block(s0, lba),
        same_frame(s0, s1),
    ensures
        map_grown(s0, s1, used, data_start, i0, i1),
{
}

/// Loading chunks keeps a mapping step's state.
pub proof fn lemma_loaded_step(s0: StoreView, a: StoreView, b: StoreView, used: Seq<bool>, data_start: u64, i0: Inode, i: Inode)
    requires
        map_grown(s0, a, used, data_start, i0, i),
        loaded_from(a, b),
        store_wf(a),
    ensures
        map_grown(s0, b, used, data_start, i0, i),
{
    lemma_map_loaded(s0, a, b, used, data_start, i0, i);
}

/// A fresh zeroed block as the file's single- or double-indirect block
/// keeps a mapping step's state.
pub proof fn lemma_root_step(
    s0: StoreView,
    a: StoreView,
    b: StoreView,
    used_a: Seq<bool>,
    used_b: Seq<bool>,
    data_start: u64,
    i0: Inode,
    ia: Inode,
    ib: Inode,
    x: u64,
    double: bool,
)
    requires
        map_grown(s0, a, used_a, data_start, i0, ia),
        data_start > 0,
        data_start <= x < used_a.len(),
        !used_a[x as int],
        used_b == used_a.update(x as int, true),
        same_frame(a, b),
        forall|other: u64| other != x ==> #[trigger] physical_block(b, other) == physical_block(a, other),
        read_block_spec(b, x) == Ok::<Seq<u8>, FsFault>(zeros(UB as nat)),
        ib.direct == ia.direct,
        double ==> ia.double_indirect == 0 && ib.double_indirect == x && ib.single_indirect
            == ia.single_indirect,
        !double ==> ia.single_indirect == 0 && ib.single_indirect == x && ib.double_indirect
            == ia.double_indirect,
    ensures
        map_grown(s0, b, used_b, data_start, i0, ib),
{
    lemma_map_alloc(s0, a, b, used_a, used_b, data_start, i0, ia, x);
    lemma_map_facts(s0, b, used_b, data_start, i0, ia);
    if double {
        lemma_set_double(b, used_b, data_start, ia, ib, x);
    } else {
        lemma_set_single(b, used_b, data_start, ia, ib, x);
    }
    lemma_map_make(s0, b, used_b, data_start, i0, ib);
}

/// A fresh zeroed block, allocated and then pointed at from an empty entry
/// of one of the file's indirect blocks, keeps a mapping step's state and
/// maps the file block behind that entry to it.
pub proof fn lemma_entry_step(
    s0: StoreView,
    b: StoreView,
    c: StoreView,
    d: StoreView,
    used_b: Seq<bool>,
    used_c: Seq<bool>,
    data_start: u64,
    i0: Inode,
    ia: Inode,
    ib: Inode,
    p: RefSlot,
    r: int,
    x: u64,
    old_ptrs: Seq<u8>,
    new_ptrs: Seq<u8>,
    blk: Seq<u8>,
)
    requires
        map_grown(s0, b, used_b, data_start, i0, ia),
        !b.encrypted,
        data_start > 0,
        data_start <= x < used_b.len(),
        !used_b[x as int],
        used_c == used_b.update(x as int, true),
        same_frame(b, c),
        forall|other: u64| other != x ==> #[trigger] physical_block(c, other) == physical_block(b, other),
        read_block_spec(c, x) == Ok::<Seq<u8>, FsFault>(zeros(UB as nat)),
        is_pointer_slot(p),
        slot_block(b, ia, p) != 0,
        read_block_spec(b, slot_block(b, ia, p)) == Ok::<Seq<u8>, FsFault>(old_ptrs),
        old_ptrs.len() == UB,
        0 <= r < POINTERS_PER_BLOCK,
        get64(old_ptrs, 8 * r) == 0,
        new_ptrs == splice(old_ptrs, 8 * r, le64(x)),
        same_frame(c, d),
        forall|other: u64|
            other != slot_block(b, ia, p) ==> #[trigger] physical_block(d, other) == physical_block(c, other),
        physical_block(d, slot_block(b, ia, p)) == Ok::<Seq<u8>, FsFault>(blk),
        super::block::written_block(c, slot_block(b, ia, p), new_ptrs, blk),
        ib.direct == ia.direct,
        ib.single_indirect == ia.single_indirect,
        ib.double_indirect == ia.double_indirect,
    ensures
        map_grown(s0, d, used_c, data_start, i0, ib),
        read_block_spec(d, slot_block(b, ia, p)) == Ok::<Seq<u8>, FsFault>(new_ptrs),
        slot_block(d, ib, child(p, r)) == x,
        forall|idx: u64| slot_of(idx) == child(p, r) ==> #[trigger] file_block(d, ib, idx) == Ok::<
            Option<u64>,
            FsFault,
        >(Some(x)),
{
    let pb = slot_block(b, ia, p);
    lemma_map_alloc(s0, b, c, used_b, used_c, data_start, i0, ia, x);
    lemma_map_facts(s0, c, used_c, data_start, i0, ia);
    assert(slot_block(c, ia, p) == pb);
    assert(read_block_spec(c, pb) == Ok::<Seq<u8>, FsFault>(old_ptrs));
    lemma_get64_splice(old_ptrs, r, x, r);
    super::block::lemma_read_after_write(d, pb, new_ptrs, blk);
    assert(super::padded(new_ptrs) =~= new_ptrs);
    lemma_set_entry(c, d, used_c, data_start, ia, p, r, x, old_ptrs);
    lemma_same_pointers(d, ia, ib);
    lemma_map_facts(s0, c, used_c, data_start, i0, ia);
    lemma_map_make(s0, d, used_c, data_start, i0, ib);
}

/// Where only blocks below the data area change, a file in good order
/// keeps its tree, its mapping and its bytes.
pub proof fn lemma_tree_frame(a: StoreView, b: StoreView, used: Seq<bool>, data_start: u64, inode: Inode)
    requires
        file_ok(a, used, data_start, inode),
        same_frame(a, b),
        forall|lba: u64| lba >= data_start ==> #[trigger] physical_block(b, lba) == physical_block(a, lba),
    ensures
        file_ok(b, used, data_start, inode),
        forall|pos: int| 0 <= pos ==> #[trigger] file_byte(b, inode, pos) == file_byte(a, inode, pos),
{
    assert forall|slot: RefSlot|
        is_pointer_slot(slot) && #[trigger] slot_block(a, inode, slot) != 0 implies read_block_spec(
            b,
            slot_block(a, inode, slot),
        ) == read_block_spec(a, slot_block(a, inode, slot)) by {
        lemma_read_same(a, b, slot_block(a, inode, slot));
    }
    lemma_slots_kept(a, b, inode);
    lemma_file_ok_same_slots(b, used, data_start, inode, inode);
    assert(file_ok(b, used, data_start, inode)) by {
        assert forall|c: RefSlot|
            #[trigger] slot_block(b, inode, c) != 0 implies data_start <= slot_block(b, inode, c) < used.len()
            && used[slot_block(b, inode, c) as int] by {
            assert(slot_block(a, inode, c) != 0);
        }
        assert forall|c1: RefSlot, c2: RefSlot|
            c1 != c2 && #[trigger] slot_block(b, inode, c1) != 0 implies slot_block(b, inode, c1)
            != #[trigger] slot_block(b, inode, c2) by {
            assert(slot_block(a, inode, c1) != slot_block(a, inode, c2));
        }
    }
    assert forall|pos: int| 0 <= pos implies #[trigger] file_byte(b, inode, pos) == file_byte(a, inode, pos) by {
        let index = (pos / UB as int) as u64;
        lemma_file_block_slot(a, inode, index);
        match file_block(a, inode, index) {
            Ok(Some(blk)) => {
                assert(slot_block(a, inode, slot_of(index)) == blk);
                lemma_read_same(a, b, blk);
            },
            _ => {},
        }
    }
}

/// How far a write of `data` at `offset` has come: the file is in good
/// order, holds `data` from `offset` up to `upto` and its bytes of `(s0,
/// i0)` elsewhere, and the store keeps its frame.
pub closed spec fn write_progress(
    s0: StoreView,
    s: StoreView,
    used: Seq<bool>,
    data_start: u64,
    i0: Inode,
    i: Inode,
    offset: int,
    upto: int,
    data: Seq<u8>,
) -> bool {
    &&& file_ok(s, used, data_start, i)
    &&& forall|pos: int|
        0 <= pos <= u64::MAX ==> #[trigger] file_byte(s, i, pos) == if offset <= pos < upto {
            Ok::<u8, FsFault>(data[pos - offset])
        } else {
            file_byte(s0, i0, pos)
        }
    &&& same_frame(s0, s)
}

/// A write's progress, spelled out.
pub proof fn lemma_progress_facts(
    s0: StoreView,
    s: StoreView,
    used: Seq<bool>,
    data_start: u64,
    i0: Inode,
    i: Inode,
    offset: int,
    upto: int,
    data: Seq<u8>,
)
    requires
        write_progress(s0, s, used, data_start, i0, i, offset, upto, data),
    ensures
        file_ok(s, used, data_start, i),
        forall|pos: int|
            0 <= pos <= u64::MAX ==> #[trigger] file_byte(s, i, pos) == if offset <= pos < upto {
                Ok::<u8, FsFault>(data[pos - offset])
            } else {
                file_byte(s0, i0, pos)
            },
        same_frame(s0, s),
{
}

/// A write that has written nothing yet.
pub proof fn lemma_progress_start(s0: StoreView, used: Seq<bool>, data_start: u64, i0: Inode, offset: int, data: Seq<u8>)
    requires
        file_ok(s0, used, data_start, i0),
    ensures
        write_progress(s0, s0, used, data_start, i0, i0, offset, offset, data),
{
}

/// A mapping step keeps a write's progress.
pub proof fn lemma_progress_map(
    s0: StoreView,
    a: StoreView,
    b: StoreView,
    used_a: Seq<bool>,
    used_b: Seq<bool>,
    data_start: u64,
    i0: Inode,
    ia: Inode,
    ib: Inode,
    offset: int,
    upto: int,
    data: Seq<u8>,
)
    requires
        write_progress(s0, a, used_a, data_start, i0, ia, offset, upto, data),
        map_grown(a, b, used_b, data_start, ia, ib),
    ensures
        write_progress(s0, b, used_b, data_start, i0, ib, offset, upto, data),
{
}

/// Loading chunks keeps a write's progress.
pub proof fn lemma_progress_loaded(
    s0: StoreView,
    a: StoreView,
    b: StoreView,
    used: Seq<bool>,
    data_start: u64,
    i0: Inode,
    i: Inode,
    offset: int,
    upto: int,
    data: Seq<u8>,
)
    requires
        write_progress(s0, a, used, data_start, i0, i, offset, upto, data),
        loaded_from(a, b),
        store_wf(a),
    ensures
        write_progress(s0, b, used, data_start, i0, i, offset, upto, data),
        forall|lba: u64| #[trigger] read_block_spec(b, lba) == read_block_spec(a, lba),
{
    lemma_map_start(a, used, data_start, i);
    lemma_map_loaded(a, a, b, used, data_start, i, i);
}

/// Changes below the data area keep a write's progress.
pub proof fn lemma_progress_frame(
    s0: StoreView,
    a: StoreView,
    b: StoreView,
    used: Seq<bool>,
    data_start: u64,
    i0: Inode,
    i: Inode,
    offset: int,
    upto: int,
    data: Seq<u8>,
)
    requires
        write_progress(s0, a, used, data_start, i0, i, offset, upto, data),
        same_frame(a, b),
        forall|lba: u64| lba >= data_start ==> #[trigger] physical_block(b, lba) == physical_block(a, lba),
    ensures
        write_progress(s0, b, used, data_start, i0, i, offset, upto, data),
{
    lemma_tree_frame(a, b, used, data_start, i);
}

/// An inode with the same pointers keeps a write's progress.
pub proof fn lemma_progress_pointers(
    s0: StoreView,
    s: StoreView,
    used: Seq<bool>,
    data_start: u64,
    i0: Inode,
    i: Inode,
    i2: Inode,
    offset: int,
    upto: int,
    data: Seq<u8>,
)
    requires
        write_progress(s0, s, used, data_start, i0, i, offset, upto, data),
        i2.direct == i.direct,
        i2.single_indirect == i.single_indirect,
        i2.double_indirect == i.double_indirect,
    ensures
        write_progress(s0, s, used, data_start, i0, i2, offset, upto, data),
{
    lemma_same_pointers(s, i, i2);
}

/// Where a block the file maps at `index` is rewritten, a byte in another
/// block keeps its value.
proof fn lemma_write_other_byte(a: StoreView, b: StoreView, i: Inode, position: int, take: int, pos: int)
    requires
        0 <= position,
        0 <= pos <= u64::MAX,
        0 < take,
        (position % (UB as int)) + take <= UB,
        (pos / (UB as int)) as u64 != (position / (UB as int)) as u64,
    ensures
        !(position <= pos < position + take),
{
    let within = position % (UB as int);
    vstd::arithmetic::div_mod::lemma_fundamental_div_mod(position, UB as int);
    vstd::arithmetic::div_mod::lemma_fundamental_div_mod(pos, UB as int);
    if position <= pos < position + take {
        assert(pos / 4032 == position / 4032) by (nonlinear_arith)
            requires
                position == (position / 4032) * 4032 + within,
                pos == (pos / 4032) * 4032 + pos % 4032,
                0 <= within,
                within + take <= 4032,
                0 <= pos % 4032 < 4032,
                position <= pos < position + take,
        ;
    }
}

/// A byte in the rewritten block sits `pos - position` bytes after the
/// write's position in that block.
proof fn lemma_write_same_byte(position: int, pos: int)
    requires
        0 <= position <= u64::MAX,
        0 <= pos <= u64::MAX,
        (pos / (UB as int)) as u64 == (position / (UB as int)) as u64,
    ensures
        pos - position == pos % (UB as int) - position % (UB as int),
        pos / (UB as int) == position / (UB as int),
{
    vstd::arithmetic::div_mod::lemma_fundamental_div_mod(position, UB as int);
    vstd::arithmetic::div_mod::lemma_fundamental_div_mod(pos, UB as int);
    assert(0 <= pos / 4032 <= u64::MAX && 0 <= position / 4032 <= u64::MAX) by (nonlinear_arith)
        requires
            0 <= pos <= u64::MAX,
            0 <= position <= u64::MAX,
    ;
    assert(pos / 4032 == position / 4032);
}

/// Writing the next piece of `data` into the block that holds it moves a
/// write's progress past that piece.
#[verifier::spinoff_prover]
pub proof fn lemma_progress_write(
    s0: StoreView,
    a: StoreView,
    b: StoreView,
    used: Seq<bool>,
    data_start: u64,
    i0: Inode,
    i: Inode,
    offset: int,
    position: int,
    take: int,
    data: Seq<u8>,
    blk: u64,
    payload: Seq<u8>,
    written: Seq<u8>,
    physical: Seq<u8>,
)
    requires
        write_progress(s0, a, used, data_start, i0, i, offset, position, data),
        !a.encrypted,
        0 <= offset <= position,
        position <= u64::MAX,
        0 < take,
        position + take <= offset + data.len(),
        (position % (UB as int)) + take <= UB,
        file_block(a, i, (position / (UB as int)) as u64) == Ok::<Option<u64>, FsFault>(Some(blk)),
        read_block_spec(a, blk) == Ok::<Seq<u8>, FsFault>(payload),
        payload.len() == UB,
        written == splice(
            payload,
            position % (UB as int),
            data.subrange(position - offset, position - offset + take),
        ),
        same_frame(a, b),
        forall|other: u64| other != blk ==> #[trigger] physical_block(b, other) == physical_block(a, other),
        physical_block(b, blk) == Ok::<Seq<u8>, FsFault>(physical),
        super::block::written_block(a, blk, written, physical),
    ensures
        write_progress(s0, b, used, data_start, i0, i, offset, position + take, data),
{
    let index = (position / (UB as int)) as u64;
    let within = position % (UB as int);
    lemma_data_write(a, b, used, data_start, i, index, blk);
    assert(written.len() == UB);
    super::block::lemma_read_after_write(b, blk, written, physical);
    assert(super::padded(written) =~= written);
    assert forall|pos: int|
        0 <= pos <= u64::MAX implies #[trigger] file_byte(b, i, pos) == if offset <= pos < position + take {
            Ok::<u8, FsFault>(data[pos - offset])
        } else {
            file_byte(s0, i0, pos)
        } by {
        if (pos / (UB as int)) as u64 != index {
            lemma_write_other_byte(a, b, i, position, take, pos);
            assert(file_byte(b, i, pos) == file_byte(a, i, pos));
        } else {
            lemma_write_same_byte(position, pos);
            let r = pos % (UB as int);
            assert(file_byte(b, i, pos) == Ok::<u8, FsFault>(written[r]));
            assert(file_byte(a, i, pos) == Ok::<u8, FsFault>(payload[r]));
            if within <= r < within + take {
                assert(written[r] == data[pos - offset]);
            } else {
                assert(written[r] == payload[r]);
            }
        }
    }
}

/// The piece of a file that lies in the block holding `position`: the
/// block's bytes from `position`'s offset on, or zeros for a hole.
pub proof fn lemma_piece_bytes(s: StoreView, inode: Inode, position: u64, take: int, mapped: Option<u64>, payload: Seq<u8>)
    requires
        0 <= take,
        (position % UB as u64) + take <= UB,
        payload.len() == UB,
        file_block(s, inode, position / UB as u64) == Ok::<Option<u64>, FsFault>(mapped),
        mapped matches Some(b) ==> read_block_spec(s, b) == Ok::<Seq<u8>, FsFault>(payload),
    ensures
        forall|k: int|
            0 <= k < take ==> #[trigger] file_byte(s, inode, position + k) == Ok::<u8, FsFault>(
                match mapped {
                    Some(_) => payload.subrange(
                        (position % UB as u64) as int,
                        (position % UB as u64) + take,
                    )[k],
                    None => zeros(take as nat)[k],
                },
            ),
{
    assert forall|k: int| 0 <= k < take implies #[trigger] file_byte(s, inode, position + k) == Ok::<u8, FsFault>(
        match mapped {
            Some(_) => payload.subrange((position % UB as u64) as int, (position % UB as u64) + take)[k],
            None => zeros(take as nat)[k],
        },
    ) by {
        lemma_byte_in_block(s, inode, position, k, mapped, payload);
    }
}

/// Two stores that read every block the same map and read every file the
/// same.
pub proof fn lemma_same_reads_same_file(a: StoreView, b: StoreView, inode: Inode)
    requires
        forall|lba: u64| #[trigger] read_block_spec(b, lba) == read_block_spec(a, lba),
    ensures
        forall|index: u64| #[trigger] file_block(b, inode, index) == file_block(a, inode, index),
        forall|pos: int| #[trigger] file_byte(b, inode, pos) == file_byte(a, inode, pos),
{
    assert forall|index: u64| #[trigger] file_block(b, inode, index) == file_block(a, inode, index) by {
        let rel = index - 12 - POINTERS_PER_BLOCK;
        assert(read_block_spec(b, inode.single_indirect) == read_block_spec(a, inode.single_indirect));
        assert(read_block_spec(b, inode.double_indirect) == read_block_spec(a, inode.double_indirect));
        match pointer_in(a, inode.double_indirect, rel / POINTERS_PER_BLOCK as int) {
            Ok(inner) => {
                assert(read_block_spec(b, inner) == read_block_spec(a, inner));
            },
            Err(_) => {},
        }
    }
    assert forall|pos: int| #[trigger] file_byte(b, inode, pos) == file_byte(a, inode, pos) by {
        let index = (pos / UB as int) as u64;
        assert(file_block(b, inode, index) == file_block(a, inode, index));
        match file_block(a, inode, index) {
            Ok(Some(blk)) => {
                assert(read_block_spec(b, blk) == read_block_spec(a, blk));
            },
            _ => {},
        }
    }
}


/// Rewriting one data block of a file in good order leaves its tree: every
/// block maps as before, the file stays in good order, and no other block
/// of the file is the rewritten one.
pub proof fn lemma_one_data_write(a: StoreView, b: StoreView, used: Seq<bool>, data_start: u64, inode: Inode, j: u64, blk: u64)
    requires
        file_ok(a, used, data_start, inode),
        same_frame(a, b),
        file_block(a, inode, j) == Ok::<Option<u64>, FsFault>(Some(blk)),
        forall|lba: u64| lba != blk ==> #[trigger] physical_block(b, lba) == physical_block(a, lba),
    ensures
        file_ok(b, used, data_start, inode),
        forall|index: u64| #[trigger] file_block(b, inode, index) == file_block(a, inode, index),
        forall|index: u64|
            index != j && (#[trigger] file_block(a, inode, index) matches Ok(Some(x))) ==> file_block(a, inode, index)->Ok_0->Some_0 != blk,
{
    lemma_file_block_slot(a, inode, j);
    assert forall|slot: RefSlot|
        is_pointer_slot(slot) && #[trigger] slot_block(a, inode, slot) != 0 implies read_block_spec(
            b,
            slot_block(a, inode, slot),
        ) == read_block_spec(a, slot_block(a, inode, slot)) by {
        assert(slot != slot_of(j));
        assert(slot_block(a, inode, slot) != slot_block(a, inode, slot_of(j)));
        lemma_read_same(a, b, slot_block(a, inode, slot));
    }
    lemma_slots_kept(a, b, inode);
    assert(file_ok(b, used, data_start, inode)) by {
        assert forall|c: RefSlot|
            #[trigger] slot_block(b, inode, c) != 0 implies data_start <= slot_block(b, inode, c) < used.len()
            && used[slot_block(b, inode, c) as int] by {
            assert(slot_block(a, inode, c) != 0);
        }
        assert forall|c1: RefSlot, c2: RefSlot|
            c1 != c2 && #[trigger] slot_block(b, inode, c1) != 0 implies slot_block(b, inode, c1)
            != #[trigger] slot_block(b, inode, c2) by {
            assert(slot_block(a, inode, c1) != slot_block(a, inode, c2));
        }
    }
    assert forall|index: u64|
        index != j && (#[trigger] file_block(a, inode, index) matches Ok(Some(x))) implies file_block(a, inode, index)->Ok_0->Some_0 != blk by {
        lemma_file_block_slot(a, inode, index);
        lemma_slot_of_injective(index, j);
        assert(slot_block(a, inode, slot_of(index)) != slot_block(a, inode, slot_of(j)));
    }
}


/// A file in good order whose blocks from `data_start` on are untouched
/// maps every block as before, and every block it maps reads as before.
pub proof fn lemma_tree_frame_blocks(a: StoreView, b: StoreView, used: Seq<bool>, data_start: u64, inode: Inode)
    requires
        file_ok(a, used, data_start, inode),
        same_frame(a, b),
        forall|lba: u64| lba >= data_start ==> #[trigger] physical_block(b, lba) == physical_block(a, lba),
    ensures
        file_ok(b, used, data_start, inode),
        forall|index: u64| #[trigger] file_block(b, inode, index) == file_block(a, inode, index),
        forall|index: u64|
            (#[trigger] file_block(a, inode, index) matches Ok(Some(x))) ==> read_block_spec(b, file_block(a, inode, index)->Ok_0->Some_0)
                == read_block_spec(a, file_block(a, inode, index)->Ok_0->Some_0),
{
    lemma_tree_frame(a, b, used, data_start, inode);
    assert forall|slot: RefSlot|
        is_pointer_slot(slot) && #[trigger] slot_block(a, inode, slot) != 0 implies read_block_spec(
            b,
            slot_block(a, inode, slot),
        ) == read_block_spec(a, slot_block(a, inode, slot)) by {
        lemma_read_same(a, b, slot_block(a, inode, slot));
    }
    lemma_slots_kept(a, b, inode);
    assert forall|index: u64|
        (#[trigger] file_block(a, inode, index) matches Ok(Some(x))) implies read_block_spec(b, file_block(a, inode, index)->Ok_0->Some_0)
            == read_block_spec(a, file_block(a, inode, index)->Ok_0->Some_0) by {
        lemma_file_block_slot(a, inode, index);
        lemma_read_same(a, b, file_block(a, inode, index)->Ok_0->Some_0);
    }
}

} // verus!
