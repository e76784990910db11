//! What a directory lists: its blocks read record by record, in order.

use super::block::{physical_block, read_block_spec, same_frame, StoreView};
use super::dirent::{
    entry_bytes, entry_valid_at, entry_well_formed, initial_directory_bytes, lemma_entry_roundtrip,
    required_len_spec, DirEntry, FILE_TYPE_DIR,
};
use super::format::{div_ceil, same_name};
use super::inode::Inode;
use super::tree::{
    file_block, file_byte, file_ok, lemma_file_block_slot, lemma_fresh_outside, lemma_one_data_write,
    lemma_outside_write, lemma_read_same, lemma_same_pointers, lemma_tree_frame_blocks,
};
use super::{FsError, FsFault, UB};
use crate::layout::{
    get16, get64, le16, le64, lemma_get16_at, lemma_get16_zero, lemma_get64_at, lemma_le_roundtrip, splice,
    zeros,
};
use vstd::prelude::*;
use vstd::string::StringSliceAdditionalSpecFns;
use vstd::utf8::{
    decode_utf8, encode_utf8, encode_utf8_decode_utf8, encode_utf8_valid_utf8, is_ascii_chars_encode_utf8,
};

verus! {

/// A directory record as the listing shows it: inode, name and file type.
pub open spec fn entry_view(e: DirEntry) -> (u64, Seq<char>, u8) {
    (e.inode, e.name@, e.file_type)
}

/// The records of a directory block from byte `off` to its end; `None`
/// where one does not decode.
pub open spec fn records_from(b: Seq<u8>, off: int) -> Option<Seq<(u64, Seq<char>, u8)>>
    decreases b.len() - off,
{
    if off < 0 || off >= b.len() {
        Some(Seq::empty())
    } else if !entry_valid_at(b, off) {
        None
    } else {
        let r = get16(b, off + 8) as int;
        match records_from(b, off + r) {
            Some(rest) => Some(
                seq![(get64(b, off), decode_utf8(b.subrange(off + 12, off + 12 + b[off + 10] as int)), b[off + 11])]
                    + rest,
            ),
            None => None,
        }
    }
}

/// The records of block `k` of a directory: `None` for a hole.
#[verifier::opaque]
pub open spec fn block_listing(s: StoreView, inode: Inode, k: u64) -> Result<Option<Seq<(u64, Seq<char>, u8)>>, FsFault> {
    match file_block(s, inode, k) {
        Err(f) => Err(f),
        Ok(None) => Ok(None),
        Ok(Some(b)) => match read_block_spec(s, b) {
            Err(f) => Err(f),
            Ok(p) => match records_from(p, 0) {
                Some(r) => Ok(Some(r)),
                None => Err(FsFault::Manifest),
            },
        },
    }
}

/// What block `k` of a directory lists, unfolded.
pub proof fn lemma_block_listing(s: StoreView, inode: Inode, k: u64)
    ensures
        block_listing(s, inode, k) == match file_block(s, inode, k) {
            Err(f) => Err(f),
            Ok(None) => Ok(None),
            Ok(Some(b)) => match read_block_spec(s, b) {
                Err(f) => Err(f),
                Ok(p) => match records_from(p, 0) {
                    Some(r) => Ok(Some(r)),
                    None => Err(FsFault::Manifest),
                },
            },
        },
{
    reveal(block_listing);
}

/// The records of the first `k` blocks of a directory, in order; a hole
/// holds none.
pub open spec fn listing_upto(s: StoreView, inode: Inode, k: nat) -> Result<Seq<(u64, Seq<char>, u8)>, FsFault>
    decreases k,
{
    if k == 0 {
        Ok(Seq::empty())
    } else {
        match listing_upto(s, inode, (k - 1) as nat) {
            Err(f) => Err(f),
            Ok(prev) => match block_listing(s, inode, (k - 1) as u64) {
                Err(f) => Err(f),
                Ok(None) => Ok(prev),
                Ok(Some(r)) => Ok(prev + r),
            },
        }
    }
}

/// Every record of a directory: those of the blocks its size spans.
pub open spec fn dir_listing(s: StoreView, inode: Inode) -> Result<Seq<(u64, Seq<char>, u8)>, FsFault> {
    listing_upto(s, inode, div_ceil(inode.size as int, UB as int) as nat)
}

/// The inode of the first live record named `name`.
pub open spec fn find_entry(l: Seq<(u64, Seq<char>, u8)>, name: Seq<char>) -> Option<u64>
    decreases l.len(),
{
    if l.len() == 0 {
        None
    } else if l[0].0 != 0 && l[0].1 == name {
        Some(l[0].0)
    } else {
        find_entry(l.drop_first(), name)
    }
}

/// The live records, those with a nonzero inode, in order.
pub open spec fn live_entries(l: Seq<(u64, Seq<char>, u8)>) -> Seq<(u64, Seq<char>, u8)>
    decreases l.len(),
{
    if l.len() == 0 {
        Seq::empty()
    } else {
        let prev = live_entries(l.drop_last());
        if l.last().0 != 0 {
            prev.push(l.last())
        } else {
            prev
        }
    }
}

/// What `readdir` hands out, in view: inode, name and file type.
pub open spec fn listed_view(v: Seq<(u64, String, u8)>) -> Seq<(u64, Seq<char>, u8)> {
    v.map_values(|x: (u64, String, u8)| (x.0, x.1@, x.2))
}

/// The records of a directory block in view.
pub open spec fn entries_view(v: Seq<(u64, DirEntry)>) -> Seq<(u64, Seq<char>, u8)> {
    v.map_values(|x: (u64, DirEntry)| entry_view(x.1))
}

/// Every record of a directory block with its position in the directory:
/// `base` plus its offset in the block.
pub(crate) fn block_entries(payload: &[u8], base: u64) -> (res: Result<Vec<(u64, DirEntry)>, FsError>)
    requires
        payload@.len() == UB,
    ensures
        res matches Ok(v) ==> records_from(payload@, 0) == Some(entries_view(v@)),
        records_from(payload@, 0) is None ==> res is Err,
        records_from(payload@, 0) is Some && base + UB <= u64::MAX ==> res is Ok,
{
    let ghost p = payload@;
    let mut entries: Vec<(u64, DirEntry)> = Vec::new();
    let mut offset: usize = 0;
    assert(entries_view(entries@) =~= Seq::<(u64, Seq<char>, u8)>::empty());
    while offset < UB
        invariant
            p == payload@,
            p.len() == UB,
            offset <= UB,
            records_from(p, 0) == match records_from(p, offset as int) {
                Some(rest) => Some(entries_view(entries@) + rest),
                None => None::<Seq<(u64, Seq<char>, u8)>>,
            },
        decreases UB - offset,
    {
        let entry = DirEntry::decode(payload, offset)?;
        let rec_len = entry.rec_len as usize;
        let position = match base.checked_add(offset as u64) {
            Some(v) => v,
            None => return Err(FsError::Manifest("directory offset overflow".to_string())),
        };
        let ghost before = entries@;
        entries.push((position, entry));
        proof {
            let next = offset + rec_len;
            assert(entries_view(entries@) =~= entries_view(before).push(entry_view(entry)));
            match records_from(p, next as int) {
                Some(rest) => {
                    assert(entries_view(before) + (seq![entry_view(entry)] + rest) =~= entries_view(
                        entries@,
                    ) + rest);
                },
                None => {},
            }
        }
        offset += rec_len;
    }
    proof {
        assert(entries_view(entries@) + Seq::<(u64, Seq<char>, u8)>::empty() =~= entries_view(entries@));
    }
    Ok(entries)
}

/// The inode of the first live record named `name`.
pub(crate) fn first_named(entries: &Vec<(u64, DirEntry)>, name: &str) -> (r: Option<u64>)
    ensures
        r == find_entry(entries_view(entries@), name@),
        r matches Some(ino) ==> ino != 0,
{
    let ghost l = entries_view(entries@);
    let n = entries.len();
    let mut i: usize = 0;
    assert(l.subrange(0, n as int) =~= l);
    while i < n
        invariant
            n == entries@.len(),
            i <= n,
            l == entries_view(entries@),
            find_entry(l, name@) == find_entry(l.subrange(i as int, n as int), name@),
        decreases n - i,
    {
        let (_, entry) = &entries[i];
        proof {
            assert(l.subrange(i as int, n as int).drop_first() =~= l.subrange(i + 1, n as int));
            assert(l.subrange(i as int, n as int)[0] == entry_view(*entry));
        }
        if entry.inode != 0 && same_name(entry.name.as_str(), name) {
            return Some(entry.inode);
        }
        i += 1;
    }
    proof {
        assert(l.subrange(n as int, n as int) =~= Seq::<(u64, Seq<char>, u8)>::empty());
    }
    None
}

/// The record at `off` has room for a new record of `needed` bytes: it is
/// free and long enough, or live with that much to spare past its name.
pub open spec fn room_at(b: Seq<u8>, off: int, needed: int) -> bool {
    let r = get16(b, off + 8) as int;
    if get64(b, off) == 0 {
        r >= needed
    } else {
        r - required_len_spec(b[off + 10] as int) >= needed
    }
}

/// Some record of the chain from `off` on, before any record that does not
/// decode, has room for a new record of `needed` bytes.
pub open spec fn room_from(b: Seq<u8>, off: int, needed: int) -> bool
    decreases b.len() - off,
{
    if off < 0 || off >= b.len() || !entry_valid_at(b, off) {
        false
    } else if room_at(b, off, needed) {
        true
    } else {
        room_from(b, off + get16(b, off + 8) as int, needed)
    }
}

/// Writes a record of `ino` named `name` into a directory block: into the
/// first free record with room for it, or into the room that the first live
/// record with enough to spare leaves past its name. `Ok(false)`, the block
/// untouched, where no record has room.
pub(crate) fn insert_record(payload: &mut Vec<u8>, ino: u64, name: &str, file_type: u8) -> (res: Result<
    bool,
    FsError,
>)
    requires
        old(payload)@.len() == UB,
        name.spec_bytes().len() <= 255,
    ensures
        final(payload)@.len() == UB,
        res is Err ==> records_from(old(payload)@, 0) is None,
        records_from(old(payload)@, 0) is Some ==> res is Ok,
        res matches Ok(false) ==> final(payload)@ == old(payload)@,
        res matches Ok(true) && records_from(old(payload)@, 0) is Some ==> records_from(
            final(payload)@,
            0,
        ) is Some && (ino != 0 && find_entry(records_from(old(payload)@, 0)->Some_0, name@) is None
            ==> find_entry(records_from(final(payload)@, 0)->Some_0, name@) == Some(ino)),
        res is Ok ==> res->Ok_0 == room_from(
            old(payload)@,
            0,
            required_len_spec(name.spec_bytes().len() as int),
        ),
        res is Err ==> !room_from(old(payload)@, 0, required_len_spec(name.spec_bytes().len() as int)),
{
    let ghost p = payload@;
    let name_len = name.as_bytes().len();
    let needed = DirEntry::required_len(name_len);
    let mut offset: usize = 0;
    let ghost mut before: Seq<(u64, Seq<char>, u8)> = Seq::empty();
    while offset < UB
        invariant
            payload@ == p,
            p == old(payload)@,
            p.len() == UB,
            offset <= UB,
            name_len == name.spec_bytes().len(),
            name_len <= 255,
            needed == required_len_spec(name_len as int),
            records_between(p, 0, offset as int) == Some(before),
            room_from(p, 0, needed as int) == room_from(p, offset as int, needed as int),
        decreases UB - offset,
    {
        let entry = match DirEntry::decode(payload.as_slice(), offset) {
            Ok(e) => e,
            Err(e) => {
                proof {
                    lemma_between_then_from(p, 0, offset as int);
                    assert(!entry_valid_at(p, offset as int));
                    assert(records_from(p, offset as int) is None);
                }
                return Err(e);
            },
        };
        let rec_len = entry.rec_len as usize;
        proof {
            lemma_between_then_from(p, 0, offset as int);
            assert(needed <= 12 + 255 + 3);
        }
        if entry.inode == 0 && rec_len >= needed {
            let record = match DirEntry::new(ino, name, file_type, rec_len) {
                Ok(r) => r,
                Err(e) => return Err(e),
            };
            let ghost q0 = payload@;
            match record.encode_into(payload, offset) {
                Ok(()) => {},
                Err(e) => return Err(e),
            }
            proof {
                assert(payload@ == splice(p, offset as int, entry_bytes(record)));
                assert(entry_well_formed(record));
                lemma_reuse_record(p, offset as int, before, record, name@);
                assert(payload@.len() == UB);
            }
            return Ok(true);
        }
        let entry_name_len = entry.name.as_str().as_bytes().len();
        proof {
            broadcast use vstd::utf8::decode_utf8_encode_utf8;

            let n = p[offset + 10] as int;
            assert(encode_utf8(entry.name@) == p.subrange(offset + 12, offset + 12 + n));
            assert(entry_name_len == n);
        }
        let minimal = DirEntry::required_len(entry_name_len);
        proof {
            lemma_required_len_fits(entry_name_len as int, rec_len as int);
        }
        if entry.inode != 0 && rec_len - minimal >= needed {
            crate::layout::put16(payload, offset + 8, minimal as u16);
            let new_offset = offset + minimal;
            let new_len = rec_len - minimal;
            let record = match DirEntry::new(ino, name, file_type, new_len) {
                Ok(r) => r,
                Err(e) => return Err(e),
            };
            let ghost q1 = payload@;
            match record.encode_into(payload, new_offset) {
                Ok(()) => {},
                Err(e) => return Err(e),
            }
            proof {
                lemma_split_record(p, q1, offset as int, minimal as int, before, record, name@);
            }
            return Ok(true);
        }
        proof {
            lemma_between_extend(p, 0, offset as int);
            before = before.push(record_at(p, offset as int));
        }
        offset += rec_len;
    }
    proof {
        lemma_between_then_from(p, 0, UB as int);
    }
    Ok(false)
}

/// A record's name rounded up to the record granule fits the record that
/// holds it.
proof fn lemma_required_len_fits(n: int, r: int)
    requires
        0 <= n,
        12 + n <= r,
        r % 4 == 0,
    ensures
        12 + n <= required_len_spec(n) <= r,
        required_len_spec(n) % 4 == 0,
{
    assert(12 + n <= ((12 + n + 3) / 4) * 4 <= r) by (nonlinear_arith)
        requires
            0 <= n,
            12 + n <= r,
            r % 4 == 0,
    ;
    assert((((12 + n + 3) / 4) * 4) % 4 == 0) by (nonlinear_arith);
}

/// A free record rewritten in place lists the new entry where the free one
/// stood.
proof fn lemma_reuse_record(
    p: Seq<u8>,
    off: int,
    before: Seq<(u64, Seq<char>, u8)>,
    e: DirEntry,
    name: Seq<char>,
)
    requires
        p.len() == UB,
        0 <= off,
        entry_valid_at(p, off),
        get64(p, off) == 0,
        get16(p, off + 8) == e.rec_len,
        entry_well_formed(e),
        e.name@ == name,
        records_between(p, 0, off) == Some(before),
    ensures
        splice(p, off, entry_bytes(e)).len() == p.len(),
        ({
            let q = splice(p, off, entry_bytes(e));
            records_from(p, 0) is Some ==> records_from(q, 0) is Some && (e.inode != 0 && find_entry(
                records_from(p, 0)->Some_0,
                name,
            ) is None ==> find_entry(records_from(q, 0)->Some_0, name) == Some(e.inode))
        }),
{
    let q = splice(p, off, entry_bytes(e));
    let r = e.rec_len as int;
    lemma_entry_roundtrip(p, off, e);
    lemma_between_frame(p, q, 0, off);
    lemma_records_from_frame(p, q, off + r);
    lemma_between_then_from(p, 0, off);
    lemma_between_then_from(q, 0, off);
    assert(record_at(q, off) == (e.inode, name, e.file_type));
    if records_from(p, 0) is Some {
        let t = records_from(p, off + r)->Some_0;
        assert(records_from(p, off) == Some(seq![record_at(p, off)] + t));
        assert(records_from(q, off) == Some(seq![record_at(q, off)] + t));
        lemma_find_concat(before, seq![record_at(p, off)] + t, name);
        lemma_find_concat(before, seq![record_at(q, off)] + t, name);
        assert((seq![record_at(q, off)] + t)[0] == record_at(q, off));
    }
}

/// A live record cut down to its name's length, followed by the new entry
/// in the room it gave up: both decode, the first as before.
proof fn lemma_split_bytes(p: Seq<u8>, q1: Seq<u8>, off: int, minimal: int, e: DirEntry)
    requires
        p.len() == UB,
        0 <= off,
        entry_valid_at(p, off),
        minimal == required_len_spec(p[off + 10] as int),
        q1 == splice(p, off + 8, le16(minimal as u16)),
        e.rec_len == get16(p, off + 8) - minimal,
        entry_well_formed(e),
    ensures
        ({
            let q = splice(q1, off + minimal, entry_bytes(e));
            let r = get16(p, off + 8) as int;
            &&& q.len() == p.len()
            &&& forall|k: int| 0 <= k < p.len() && !(off + 8 <= k < off + r) ==> #[trigger] q[k] == p[k]
            &&& entry_valid_at(q, off)
            &&& get16(q, off + 8) == minimal
            &&& record_at(q, off) == record_at(p, off)
            &&& entry_valid_at(q, off + minimal)
            &&& get16(q, off + minimal + 8) == e.rec_len
            &&& record_at(q, off + minimal) == (e.inode, e.name@, e.file_type)
        }),
{
    let r = get16(p, off + 8) as int;
    let n = p[off + 10] as int;
    lemma_required_len_fits(n, r);
    lemma_le_roundtrip();
    let q = splice(q1, off + minimal, entry_bytes(e));
    assert(q1.len() == p.len());
    lemma_entry_roundtrip(q1, off + minimal, e);
    assert forall|k: int| 0 <= k < p.len() && !(off + 8 <= k < off + 10) implies q1[k] == p[k] by {}
    assert forall|k: int| 0 <= k < p.len() && !(off + 8 <= k < off + r) implies #[trigger] q[k] == p[k] by {
        assert(q[k] == q1[k]);
    }
    assert(q.subrange(off + 8, off + 10) =~= le16(minimal as u16));
    assert(q.subrange(off, off + 8) =~= p.subrange(off, off + 8));
    assert(q.subrange(off + 12, off + 12 + n) =~= p.subrange(off + 12, off + 12 + n));
    assert(q[off + 10] == p[off + 10]);
    assert(q[off + 11] == p[off + 11]);
}

/// A live record cut down to its name's length, followed by the new entry
/// in the room it gave up, lists the new entry right after it.
proof fn lemma_split_record(
    p: Seq<u8>,
    q1: Seq<u8>,
    off: int,
    minimal: int,
    before: Seq<(u64, Seq<char>, u8)>,
    e: DirEntry,
    name: Seq<char>,
)
    requires
        p.len() == UB,
        0 <= off,
        entry_valid_at(p, off),
        get64(p, off) != 0,
        minimal == required_len_spec(p[off + 10] as int),
        q1 == splice(p, off + 8, le16(minimal as u16)),
        e.rec_len == get16(p, off + 8) - minimal,
        entry_well_formed(e),
        e.name@ == name,
        records_between(p, 0, off) == Some(before),
    ensures
        splice(q1, off + minimal, entry_bytes(e)).len() == p.len(),
        ({
            let q = splice(q1, off + minimal, entry_bytes(e));
            records_from(p, 0) is Some ==> records_from(q, 0) is Some && (e.inode != 0 && find_entry(
                records_from(p, 0)->Some_0,
                name,
            ) is None ==> find_entry(records_from(q, 0)->Some_0, name) == Some(e.inode))
        }),
{
    let r = get16(p, off + 8) as int;
    let q = splice(q1, off + minimal, entry_bytes(e));
    lemma_split_bytes(p, q1, off, minimal, e);
    lemma_required_len_fits(p[off + 10] as int, r);
    lemma_between_frame(p, q, 0, off);
    lemma_records_from_frame(p, q, off + r);
    lemma_between_then_from(p, 0, off);
    lemma_between_then_from(q, 0, off);
    if records_from(p, 0) is Some {
        let t = records_from(p, off + r)->Some_0;
        let x = record_at(p, off);
        let y = record_at(q, off + minimal);
        assert(records_from(p, off) == Some(seq![x] + t));
        assert(records_from(q, off + minimal + e.rec_len) == Some(t));
        assert(records_from(q, off + minimal) == Some(seq![y] + t));
        assert(records_from(q, off) == Some(seq![x] + (seq![y] + t)));
        let l1 = seq![x] + t;
        let l2 = seq![x] + (seq![y] + t);
        lemma_find_concat(before, l1, name);
        lemma_find_concat(before, l2, name);
        assert(l2.drop_first() =~= seq![y] + t);
        assert(l1.drop_first() =~= t);
        assert((seq![y] + t)[0] == y);
        assert(records_from(q, 0) == Some(before + l2));
        assert(records_from(p, 0) == Some(before + l1));
        if e.inode != 0 && find_entry(before + l1, name) is None {
            assert(find_entry(before, name) is None);
            assert(find_entry(l1, name) is None);
            assert(x.1 != name);
            assert(find_entry(seq![y] + t, name) == Some(y.0));
            assert(find_entry(l2, name) == find_entry(seq![y] + t, name));
        }
    }
}

/// Two stores that read every block the same list every directory the
/// same.
pub proof fn lemma_listing_same_reads(a: StoreView, b: StoreView, inode: Inode, k: nat)
    requires
        forall|lba: u64| #[trigger] read_block_spec(b, lba) == read_block_spec(a, lba),
    ensures
        listing_upto(b, inode, k) == listing_upto(a, inode, k),
    decreases k,
{
    if k > 0 {
        lemma_listing_same_reads(a, b, inode, (k - 1) as nat);
        super::tree::lemma_same_reads_same_file(a, b, inode);
        assert(file_block(b, inode, (k - 1) as u64) == file_block(a, inode, (k - 1) as u64));
        reveal(block_listing);
    }
}


/// A directory whose first `k` blocks fail to list fails to list, however
/// many blocks it has past them.
pub proof fn lemma_listing_err_persists(s: StoreView, inode: Inode, k: nat, m: nat)
    requires
        k <= m,
        listing_upto(s, inode, k) is Err,
    ensures
        listing_upto(s, inode, m) is Err,
    decreases m - k,
{
    if k < m {
        lemma_listing_err_persists(s, inode, k, (m - 1) as nat);
    }
}


/// A new directory's block lists "." naming the directory, then ".."
/// naming its parent, and nothing else.
pub proof fn lemma_initial_directory_listing(ino: u64, parent: u64)
    ensures
        records_from(initial_directory_bytes(ino, parent), 0) == Some(
            seq![(ino, "."@, FILE_TYPE_DIR), (parent, ".."@, FILE_TYPE_DIR)],
        ),
{
    let b = initial_directory_bytes(ino, parent);
    lemma_le_roundtrip();
    reveal_strlit(".");
    reveal_strlit("..");
    is_ascii_chars_encode_utf8("."@);
    is_ascii_chars_encode_utf8(".."@);
    encode_utf8_valid_utf8("."@);
    encode_utf8_valid_utf8(".."@);
    encode_utf8_decode_utf8("."@);
    encode_utf8_decode_utf8(".."@);
    let dot: Seq<u8> = seq![0x2eu8];
    let dotdot: Seq<u8> = seq![0x2eu8, 0x2eu8];
    assert(encode_utf8("."@) =~= dot);
    assert(encode_utf8(".."@) =~= dotdot);
    let tail1 = seq![1u8, FILE_TYPE_DIR] + dot + zeros(3) + le64(parent) + le16((UB - 16) as u16) + seq![
        2u8,
        FILE_TYPE_DIR,
    ] + dotdot + zeros((UB - 16 - 14) as nat);
    assert(b =~= Seq::<u8>::empty() + le64(ino) + (le16(16) + tail1));
    lemma_get64_at(Seq::<u8>::empty(), ino, le16(16) + tail1);
    assert(b =~= le64(ino) + le16(16) + tail1);
    lemma_get16_at(le64(ino), 16, tail1);
    let head2 = le64(ino) + le16(16) + seq![1u8, FILE_TYPE_DIR] + dot + zeros(3);
    let tail2 = seq![2u8, FILE_TYPE_DIR] + dotdot + zeros((UB - 16 - 14) as nat);
    assert(b =~= head2 + le64(parent) + (le16((UB - 16) as u16) + tail2));
    lemma_get64_at(head2, parent, le16((UB - 16) as u16) + tail2);
    assert(b =~= head2 + le64(parent) + le16((UB - 16) as u16) + tail2);
    lemma_get16_at(head2 + le64(parent), (UB - 16) as u16, tail2);
    assert(b.len() == UB);
    assert(b.subrange(12, 13) =~= dot);
    assert(b.subrange(28, 30) =~= dotdot);
    assert(b[10] == 1 && b[11] == FILE_TYPE_DIR && b[26] == 2 && b[27] == FILE_TYPE_DIR);
    assert(entry_valid_at(b, 16));
    assert(records_from(b, 16 + (UB - 16)) == Some(Seq::<(u64, Seq<char>, u8)>::empty()));
    assert(records_from(b, 16) == Some(seq![(parent, ".."@, FILE_TYPE_DIR)]));
    assert(entry_valid_at(b, 0));
    assert(records_from(b, 0) == Some(
        seq![(ino, "."@, FILE_TYPE_DIR)] + seq![(parent, ".."@, FILE_TYPE_DIR)],
    ));
    assert(seq![(ino, "."@, FILE_TYPE_DIR)] + seq![(parent, ".."@, FILE_TYPE_DIR)] =~= seq![
        (ino, "."@, FILE_TYPE_DIR),
        (parent, ".."@, FILE_TYPE_DIR),
    ]);
}


/// The record at `off` of a directory block as a listing shows it.
pub open spec fn record_at(b: Seq<u8>, off: int) -> (u64, Seq<char>, u8) {
    (get64(b, off), decode_utf8(b.subrange(off + 12, off + 12 + b[off + 10] as int)), b[off + 11])
}

/// The records of a directory block that start at `from` and end exactly
/// at `to`; `None` where one does not decode or one runs past `to`.
pub open spec fn records_between(b: Seq<u8>, from: int, to: int) -> Option<Seq<(u64, Seq<char>, u8)>>
    decreases to - from,
{
    if from >= to {
        if from == to {
            Some(Seq::empty())
        } else {
            None
        }
    } else if from < 0 || !entry_valid_at(b, from) || from + get16(b, from + 8) as int > to {
        None
    } else {
        match records_between(b, from + get16(b, from + 8) as int, to) {
            Some(rest) => Some(seq![record_at(b, from)] + rest),
            None => None,
        }
    }
}

/// The records from `x` on are those between `x` and `y`, then those from
/// `y` on.
pub proof fn lemma_between_then_from(b: Seq<u8>, x: int, y: int)
    requires
        records_between(b, x, y) is Some,
    ensures
        records_from(b, x) == match records_from(b, y) {
            Some(r) => Some(records_between(b, x, y)->Some_0 + r),
            None => None::<Seq<(u64, Seq<char>, u8)>>,
        },
    decreases y - x,
{
    if x < y {
        let r = get16(b, x + 8) as int;
        lemma_between_then_from(b, x + r, y);
        let a = records_between(b, x + r, y)->Some_0;
        assert(records_between(b, x, y)->Some_0 == seq![record_at(b, x)] + a);
        match records_from(b, y) {
            Some(t) => {
                assert(seq![record_at(b, x)] + (a + t) =~= (seq![record_at(b, x)] + a) + t);
            },
            None => {},
        }
    } else {
        assert(Seq::<(u64, Seq<char>, u8)>::empty() + records_from(b, y)->Some_0 =~= records_from(b, y)->Some_0);
    }
}

/// The records between `x` and `y` read only the bytes between them.
pub proof fn lemma_between_frame(p: Seq<u8>, q: Seq<u8>, x: int, y: int)
    requires
        p.len() == q.len(),
        y <= p.len(),
        forall|k: int| x <= k < y ==> p[k] == q[k],
    ensures
        records_between(p, x, y) == records_between(q, x, y),
    decreases y - x,
{
    if 0 <= x < y && x + 12 <= y && x + 12 <= p.len() {
        assert(p.subrange(x, x + 8) =~= q.subrange(x, x + 8));
        assert(p.subrange(x + 8, x + 10) =~= q.subrange(x + 8, x + 10));
        assert(p[x + 10] == q[x + 10]);
        assert(p[x + 11] == q[x + 11]);
        let r = get16(p, x + 8) as int;
        let n = p[x + 10] as int;
        if 12 + n <= r && x + r <= y {
            assert(p.subrange(x + 12, x + 12 + n) =~= q.subrange(x + 12, x + 12 + n));
            lemma_between_frame(p, q, x + r, y);
        }
    }
}

/// A decodable record at the end of a chain extends it by one.
pub proof fn lemma_between_extend(b: Seq<u8>, x: int, y: int)
    requires
        0 <= x,
        records_between(b, x, y) is Some,
        entry_valid_at(b, y),
    ensures
        records_between(b, x, y + get16(b, y + 8) as int) == Some(
            records_between(b, x, y)->Some_0.push(record_at(b, y)),
        ),
    decreases y - x,
{
    let ry = get16(b, y + 8) as int;
    if x < y {
        let r = get16(b, x + 8) as int;
        lemma_between_extend(b, x + r, y);
        let a = records_between(b, x + r, y)->Some_0;
        assert(seq![record_at(b, x)] + a.push(record_at(b, y)) =~= (seq![record_at(b, x)] + a).push(
            record_at(b, y),
        ));
    } else {
        assert(records_between(b, y + ry, y + ry) == Some(Seq::<(u64, Seq<char>, u8)>::empty()));
        assert(seq![record_at(b, y)] + Seq::<(u64, Seq<char>, u8)>::empty() =~= Seq::<
            (u64, Seq<char>, u8),
        >::empty().push(record_at(b, y)));
    }
}

/// The records from `x` on read only the bytes from `x` on.
pub proof fn lemma_records_from_frame(p: Seq<u8>, q: Seq<u8>, x: int)
    requires
        p.len() == q.len(),
        forall|k: int| x <= k < p.len() ==> p[k] == q[k],
    ensures
        records_from(p, x) == records_from(q, x),
    decreases p.len() - x,
{
    if 0 <= x < p.len() && x + 12 <= p.len() {
        assert(p.subrange(x, x + 8) =~= q.subrange(x, x + 8));
        assert(p.subrange(x + 8, x + 10) =~= q.subrange(x + 8, x + 10));
        assert(p[x + 10] == q[x + 10]);
        assert(p[x + 11] == q[x + 11]);
        let r = get16(p, x + 8) as int;
        let n = p[x + 10] as int;
        if 12 + n <= r && x + r <= p.len() {
            assert(p.subrange(x + 12, x + 12 + n) =~= q.subrange(x + 12, x + 12 + n));
            if r > 0 {
                lemma_records_from_frame(p, q, x + r);
            }
        }
    }
}

/// The first live record named `name` in two listings one after the other.
pub proof fn lemma_find_concat(a: Seq<(u64, Seq<char>, u8)>, c: Seq<(u64, Seq<char>, u8)>, name: Seq<char>)
    ensures
        find_entry(a + c, name) == if find_entry(a, name) is Some {
            find_entry(a, name)
        } else {
            find_entry(c, name)
        },
    decreases a.len(),
{
    if a.len() > 0 {
        assert((a + c).drop_first() =~= a.drop_first() + c);
        lemma_find_concat(a.drop_first(), c, name);
    } else {
        assert(a + c =~= c);
    }
}

/// In a directory that lists, every block of its first `n` lists.
pub proof fn lemma_listing_piece(s: StoreView, inode: Inode, n: nat, k: nat)
    requires
        listing_upto(s, inode, n) is Ok,
        k < n,
    ensures
        block_listing(s, inode, k as u64) is Ok,
    decreases n,
{
    if k + 1 < n {
        lemma_listing_piece(s, inode, (n - 1) as nat, k);
    }
}

/// Two directories whose first `n` blocks list alike list alike.
pub proof fn lemma_listing_same_pieces(s: StoreView, t: StoreView, p: Inode, q: Inode, n: nat)
    requires
        forall|k: u64| k < n ==> #[trigger] block_listing(t, q, k) == block_listing(s, p, k),
    ensures
        listing_upto(t, q, n) == listing_upto(s, p, n),
    decreases n,
{
    if n > 0 {
        lemma_listing_same_pieces(s, t, p, q, (n - 1) as nat);
        assert(block_listing(t, q, (n - 1) as u64) == block_listing(s, p, (n - 1) as u64));
    }
}

/// A directory with one block rewritten, the rest listing alike, still
/// lists; where the old block listed no live `name` and the new one
/// resolves it to `x`, and the rest did not name it, the new listing
/// resolves it to `x`.
pub proof fn lemma_listing_replace(
    s: StoreView,
    t: StoreView,
    p: Inode,
    n: nat,
    j: nat,
    r: Seq<(u64, Seq<char>, u8)>,
    r2: Seq<(u64, Seq<char>, u8)>,
    name: Seq<char>,
    x: u64,
)
    requires
        j < n <= u64::MAX,
        forall|k: u64| k < n && k != j ==> #[trigger] block_listing(t, p, k) == block_listing(s, p, k),
        block_listing(s, p, j as u64) == Ok::<Option<Seq<(u64, Seq<char>, u8)>>, FsFault>(Some(r)),
        block_listing(t, p, j as u64) == Ok::<Option<Seq<(u64, Seq<char>, u8)>>, FsFault>(Some(r2)),
        find_entry(r, name) is None ==> find_entry(r2, name) == Some(x),
        listing_upto(s, p, n) is Ok,
    ensures
        listing_upto(t, p, n) is Ok,
        find_entry(listing_upto(s, p, n)->Ok_0, name) is None ==> find_entry(listing_upto(t, p, n)->Ok_0, name) == Some(x),
    decreases n,
{
    let m = (n - 1) as nat;
    let k = m as u64;
    let prev_s = listing_upto(s, p, m)->Ok_0;
    if m > j {
        lemma_listing_replace(s, t, p, m, j, r, r2, name, x);
        let prev_t = listing_upto(t, p, m)->Ok_0;
        assert(block_listing(t, p, k) == block_listing(s, p, k));
        match block_listing(s, p, k) {
            Ok(Some(q)) => {
                lemma_find_concat(prev_s, q, name);
                lemma_find_concat(prev_t, q, name);
            },
            _ => {},
        }
    } else {
        assert forall|i: u64| i < m implies #[trigger] block_listing(t, p, i) == block_listing(s, p, i) by {
            assert(i != j);
        }
        lemma_listing_same_pieces(s, t, p, p, m);
        lemma_find_concat(prev_s, r, name);
        lemma_find_concat(prev_s, r2, name);
    }
}

/// A directory grown by one block, the earlier ones listing alike, lists
/// what it did and then the new block's records.
pub proof fn lemma_listing_append(s: StoreView, t: StoreView, p: Inode, q: Inode, n: nat, r: Seq<(u64, Seq<char>, u8)>)
    requires
        forall|k: u64| k < n ==> #[trigger] block_listing(t, q, k) == block_listing(s, p, k),
        block_listing(t, q, n as u64) == Ok::<Option<Seq<(u64, Seq<char>, u8)>>, FsFault>(Some(r)),
        listing_upto(s, p, n) is Ok,
    ensures
        listing_upto(t, q, n + 1) == Ok::<Seq<(u64, Seq<char>, u8)>, FsFault>(listing_upto(s, p, n)->Ok_0 + r),
{
    lemma_listing_same_pieces(s, t, p, q, n);
}


/// Byte `i` of file block `k` stands at file position `k * UB + i`.
proof fn lemma_pos_in_block(k: int, i: int)
    requires
        0 <= k,
        0 <= i < UB,
    ensures
        (k * UB + i) / (UB as int) == k,
        (k * UB + i) % (UB as int) == i,
{
    let u = UB as int;
    assert((k * u + i) / u == k && (k * u + i) % u == i) by (nonlinear_arith)
        requires
            0 <= k,
            0 <= i < u,
            u == 4032,
    ;
}

/// A mapped block that lists in a plaintext store lists the same in a
/// plaintext store that holds the same file bytes at the same place.
pub proof fn lemma_block_listing_bytes(s: StoreView, t: StoreView, p: Inode, q: Inode, k: u64)
    requires
        !s.encrypted,
        !t.encrypted,
        forall|pos: int| 0 <= pos ==> #[trigger] file_byte(t, q, pos) == file_byte(s, p, pos),
        block_listing(s, p, k) matches Ok(Some(_)),
    ensures
        block_listing(t, q, k) == block_listing(s, p, k),
{
    lemma_block_listing(s, p, k);
    lemma_block_listing(t, q, k);
    let b = file_block(s, p, k)->Ok_0->Some_0;
    let pl = read_block_spec(s, b)->Ok_0;
    assert(pl.len() == UB);
    let base = k * UB;
    lemma_pos_in_block(k as int, 0);
    assert(file_byte(t, q, base) == file_byte(s, p, base));
    assert(file_byte(s, p, base) == Ok::<u8, FsFault>(pl[0]));
    assert(entry_valid_at(pl, 0));
    match file_block(t, q, k) {
        Err(f) => {
            assert(file_byte(t, q, base) == Err::<u8, FsFault>(f));
        },
        Ok(None) => {
            lemma_pos_in_block(k as int, 8);
            lemma_pos_in_block(k as int, 9);
            assert(file_byte(t, q, base + 8) == file_byte(s, p, base + 8));
            assert(file_byte(t, q, base + 9) == file_byte(s, p, base + 9));
            assert(file_byte(t, q, base + 8) == Ok::<u8, FsFault>(0u8));
            assert(file_byte(s, p, base + 8) == Ok::<u8, FsFault>(pl[8]));
            assert(file_byte(t, q, base + 9) == Ok::<u8, FsFault>(0u8));
            assert(file_byte(s, p, base + 9) == Ok::<u8, FsFault>(pl[9]));
            lemma_get16_zero(pl, 8);
        },
        Ok(Some(b2)) => {
            match read_block_spec(t, b2) {
                Err(f) => {
                    assert(file_byte(t, q, base) == Err::<u8, FsFault>(f));
                },
                Ok(pl2) => {
                    assert(pl2.len() == UB);
                    assert forall|i: int| 0 <= i < UB implies pl2[i] == pl[i] by {
                        lemma_pos_in_block(k as int, i);
                        assert(file_byte(t, q, base + i) == file_byte(s, p, base + i));
                        assert(file_byte(t, q, base + i) == Ok::<u8, FsFault>(pl2[i]));
                        assert(file_byte(s, p, base + i) == Ok::<u8, FsFault>(pl[i]));
                    }
                    assert(pl2 =~= pl);
                },
            }
        },
    }
}


/// A directory in good order whose blocks from `data_start` on are
/// untouched lists every block as before, under any inode with the same
/// tree, and stays in good order.
pub proof fn lemma_listing_frame(a: StoreView, b: StoreView, used: Seq<bool>, ds: u64, p: Inode, q: Inode)
    requires
        file_ok(a, used, ds, p),
        same_frame(a, b),
        forall|lba: u64| lba >= ds ==> #[trigger] physical_block(b, lba) == physical_block(a, lba),
        q.direct == p.direct,
        q.single_indirect == p.single_indirect,
        q.double_indirect == p.double_indirect,
    ensures
        file_ok(b, used, ds, q),
        forall|k: u64| #[trigger] block_listing(b, q, k) == block_listing(a, p, k),
{
    lemma_tree_frame_blocks(a, b, used, ds, p);
    lemma_same_pointers(b, p, q);
    assert forall|k: u64| #[trigger] block_listing(b, q, k) == block_listing(a, p, k) by {
        lemma_block_listing(b, q, k);
        lemma_block_listing(a, p, k);
        assert(file_block(b, q, k) == file_block(b, p, k));
        assert(file_block(b, p, k) == file_block(a, p, k));
    }
}

/// Rewriting one data block of a directory in good order changes what
/// that block lists and no other, and keeps the directory in good order.
pub proof fn lemma_listing_one_write(a: StoreView, b: StoreView, used: Seq<bool>, ds: u64, p: Inode, j: u64, blk: u64)
    requires
        file_ok(a, used, ds, p),
        same_frame(a, b),
        file_block(a, p, j) == Ok::<Option<u64>, FsFault>(Some(blk)),
        forall|lba: u64| lba != blk ==> #[trigger] physical_block(b, lba) == physical_block(a, lba),
    ensures
        file_ok(b, used, ds, p),
        forall|k: u64| k != j ==> #[trigger] block_listing(b, p, k) == block_listing(a, p, k),
        block_listing(b, p, j) == match read_block_spec(b, blk) {
            Err(f) => Err(f),
            Ok(pl) => match records_from(pl, 0) {
                Some(r) => Ok(Some(r)),
                None => Err(FsFault::Manifest),
            },
        },
{
    lemma_one_data_write(a, b, used, ds, p, j, blk);
    assert forall|k: u64| k != j implies #[trigger] block_listing(b, p, k) == block_listing(a, p, k) by {
        lemma_block_listing(b, p, k);
        lemma_block_listing(a, p, k);
        assert(file_block(b, p, k) == file_block(a, p, k));
        match file_block(a, p, k) {
            Ok(Some(x)) => {
                assert(x != blk);
                lemma_read_same(a, b, x);
            },
            _ => {},
        }
    }
    lemma_block_listing(b, p, j);
    assert(file_block(b, p, j) == file_block(a, p, j));
}


/// A fresh directory block holding one record that spans it lists that
/// record alone.
pub proof fn lemma_new_block_records(e: DirEntry)
    requires
        e.rec_len == UB,
        entry_well_formed(e),
    ensures
        records_from(splice(zeros(UB as nat), 0, entry_bytes(e)), 0) == Some(seq![(e.inode, e.name@, e.file_type)]),
{
    let b = splice(zeros(UB as nat), 0, entry_bytes(e));
    lemma_entry_roundtrip(zeros(UB as nat), 0, e);
    assert(records_from(b, UB as int) == Some(Seq::<(u64, Seq<char>, u8)>::empty()));
    assert(seq![(e.inode, e.name@, e.file_type)] + Seq::<(u64, Seq<char>, u8)>::empty() =~= seq![
        (e.inode, e.name@, e.file_type),
    ]);
}


/// A directory in good order lists every block as before where only a
/// block outside its tree changed, and stays in good order.
pub proof fn lemma_listing_outside(a: StoreView, b: StoreView, used: Seq<bool>, ds: u64, p: Inode, x: u64)
    requires
        file_ok(a, used, ds, p),
        x != 0,
        x < used.len(),
        !used[x as int],
        same_frame(a, b),
        forall|other: u64| other != x ==> #[trigger] physical_block(b, other) == physical_block(a, other),
    ensures
        file_ok(b, used, ds, p),
        forall|k: u64| #[trigger] block_listing(b, p, k) == block_listing(a, p, k),
{
    lemma_fresh_outside(a, used, ds, p, x);
    lemma_outside_write(a, b, used, ds, p, x);
    assert forall|k: u64| #[trigger] block_listing(b, p, k) == block_listing(a, p, k) by {
        lemma_block_listing(b, p, k);
        lemma_block_listing(a, p, k);
        assert(file_block(b, p, k) == file_block(a, p, k));
        match file_block(a, p, k) {
            Ok(Some(y)) => {
                lemma_file_block_slot(a, p, k);
                assert(y != x);
                lemma_read_same(a, b, y);
            },
            _ => {},
        }
    }
}


/// The record `find_entry` finds is among the live records.
pub proof fn lemma_found_is_live(l: Seq<(u64, Seq<char>, u8)>, name: Seq<char>, ino: u64)
    requires
        find_entry(l, name) == Some(ino),
    ensures
        exists|k: int|
            0 <= k < live_entries(l).len() && (#[trigger] live_entries(l)[k]).0 == ino && live_entries(l)[k].1
                == name,
    decreases l.len(),
{
    if l[0].0 != 0 && l[0].1 == name {
        lemma_live_first(l);
        assert(live_entries(l)[0] == l[0]);
    } else {
        lemma_found_is_live(l.drop_first(), name, ino);
        lemma_live_drop_first(l);
        let k = choose|k: int|
            0 <= k < live_entries(l.drop_first()).len() && (#[trigger] live_entries(l.drop_first())[k]).0 == ino
                && live_entries(l.drop_first())[k].1 == name;
        let off = live_entries(l).len() - live_entries(l.drop_first()).len();
        assert(live_entries(l)[k + off] == live_entries(l.drop_first())[k]);
    }
}

/// The live records of a listing that starts with a live record start
/// with it.
proof fn lemma_live_first(l: Seq<(u64, Seq<char>, u8)>)
    requires
        l.len() > 0,
        l[0].0 != 0,
    ensures
        live_entries(l).len() > 0,
        live_entries(l)[0] == l[0],
    decreases l.len(),
{
    if l.len() > 1 {
        lemma_live_first(l.drop_last());
        assert(l.drop_last()[0] == l[0]);
        let prev = live_entries(l.drop_last());
        if l.last().0 != 0 {
            assert(prev.push(l.last())[0] == prev[0]);
        }
    } else {
        assert(live_entries(l.drop_last()) == Seq::<(u64, Seq<char>, u8)>::empty());
    }
}

/// Dropping a listing's first record drops at most the first live record.
proof fn lemma_live_drop_first(l: Seq<(u64, Seq<char>, u8)>)
    requires
        l.len() > 0,
    ensures
        live_entries(l) == if l[0].0 != 0 {
            seq![l[0]] + live_entries(l.drop_first())
        } else {
            live_entries(l.drop_first())
        },
    decreases l.len(),
{
    if l.len() == 1 {
        assert(l.drop_first() =~= Seq::<(u64, Seq<char>, u8)>::empty());
        assert(l.drop_last() =~= Seq::<(u64, Seq<char>, u8)>::empty());
        assert(seq![l[0]] + Seq::<(u64, Seq<char>, u8)>::empty() =~= seq![l[0]]);
    } else {
        lemma_live_drop_first(l.drop_last());
        assert(l.drop_last().drop_first() =~= l.drop_first().drop_last());
        assert(l.drop_first().last() == l.last());
        assert(l.drop_last()[0] == l[0]);
        if l[0].0 != 0 {
            if l.last().0 != 0 {
                assert(seq![l[0]] + live_entries(l.drop_first()) =~= (seq![l[0]] + live_entries(
                    l.drop_first().drop_last(),
                )).push(l.last()));
            }
        }
    }
}

} // verus!
