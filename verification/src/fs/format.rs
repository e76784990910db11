//! Formatting a pool of carriers and opening it again.
//!
//! A pool is the list of carrier images of a directory, sorted by name. A
//! plaintext filesystem marks its primary carrier in the chunk header and
//! keeps the superblock in block 0; an encrypted one keeps a sealed copy of
//! the superblock at the front of a separate anchor image and writes its
//! data chunks markerless.

use super::bitmap::Bitmap;
use super::block::{
    chunk_len, store_flushable, manifest_fits, physical_block, range_views, read_block_spec, read_plain_spec, same_frame, store_wf,
    sum_counts, written_block, BlockStore, Carrier, StoreView,
};
use super::crypto::{boot_aad, boot_key, create_bootstrap, master_key, open_bootstrap, BOOTSTRAP_LEN};
use crate::primitives::xchacha20poly1305_open;
use super::dirent::initial_directory_block;
use super::inode::{Inode, INODE_SIZE, S_IFDIR};
use super::superblock::{
    decode_spec, name_ok, validate_name, CarrierRange, CRYPTO_FLAG_ENCRYPTED, CarrierRangeView, Superblock, SuperblockFault,
    SuperblockView,
    MARKERLESS_FS_VERSION,
};
use super::{fs_fault, request_error, outcome, read_physical_block, read_physical_spec, FsError, FsFault, FS_VERSION, PB, UB};
use crate::layout::{copy_range, write_at, zero_bytes};
use crate::stego::{
    carrier_capacity, carrier_raw_capacity, carrier_read_prefix_spec, carrier_read_spec, kind_of_path, CarrierView, ChunkMeta,
    ChunkRead, Codec, CodecFault,
};
use vstd::prelude::*;
use vstd::string::StringSliceAdditionalSpecFns;
use vstd::utf8::encode_utf8;

verus! {

/// What formatting a pool gives: the new superblock, the name of the anchor
/// image of an encrypted filesystem, and the pool's carriers in their
/// order, with `modified` set on those written.
#[derive(Debug)]
pub struct FormatResult {
    pub superblock: Superblock,
    pub anchor: Option<String>,
    pub carriers: Vec<Carrier>,
}

/// Every manifest entry starts where the previous one ended, at block 0
/// first, spans at least one block, and together they span the
/// superblock's total.
pub open spec fn geometry_ok(sb: SuperblockView) -> bool {
    &&& forall|i: int|
        0 <= i < sb.manifest.len() ==> (#[trigger] sb.manifest[i]).block_start == sum_counts(
            sb.manifest,
            i,
        ) && sb.manifest[i].block_count > 0
    &&& sum_counts(sb.manifest, sb.manifest.len() as int) == sb.total_blocks
}

proof fn lemma_sum_counts_step(m: Seq<CarrierRangeView>, i: int)
    requires
        0 <= i < m.len(),
    ensures
        sum_counts(m, i + 1) == sum_counts(m, i) + m[i].block_count,
{
}

proof fn lemma_sum_counts_mono(m: Seq<CarrierRangeView>, i: int, n: int)
    requires
        0 <= i <= n <= m.len(),
    ensures
        0 <= sum_counts(m, i) <= sum_counts(m, n),
    decreases n,
{
    if n > 0 {
        if i == n {
            lemma_sum_counts_mono(m, n - 1, n - 1);
        } else {
            lemma_sum_counts_mono(m, i, n - 1);
        }
    }
}

/// Checks that the manifest's block ranges are contiguous from block 0 and
/// span the superblock's total.
pub fn validate_manifest_geometry(superblock: &Superblock) -> (res: Result<(), FsError>)
    ensures
        res is Ok <==> geometry_ok(superblock@),
        res is Err ==> res matches Err(FsError::Manifest(_)),
{
    let n = superblock.manifest.len();
    let ghost m = superblock@.manifest;
    let mut next: u64 = 0;
    let mut i: usize = 0;
    while i < n
        invariant
            n == m.len(),
            m == superblock@.manifest,
            i <= n,
            next == sum_counts(m, i as int),
            forall|j: int|
                0 <= j < i ==> (#[trigger] m[j]).block_start == sum_counts(m, j) && m[j].block_count
                    > 0,
        decreases n - i,
    {
        let range = &superblock.manifest[i];
        assert(m[i as int] == superblock.manifest@[i as int]@);
        if range.block_start != next || range.block_count == 0 {
            return Err(FsError::Manifest("carrier manifest block ranges are not contiguous".to_string()));
        }
        proof {
            lemma_sum_counts_step(m, i as int);
        }
        next = match next.checked_add(range.block_count) {
            Some(v) => v,
            None => {
                proof {
                    lemma_sum_counts_mono(m, i + 1, n as int);
                }
                return Err(FsError::Manifest("carrier block range overflow".to_string()));
            },
        };
        i += 1;
    }
    if next != superblock.total_blocks {
        return Err(FsError::Manifest("carrier manifest total does not match superblock".to_string()));
    }
    Ok(())
}

/// The bitmap's bytes as the blocks from `start` hold them: each block's
/// payload up to what is still `needed`.
pub open spec fn stored_bitmap(s: StoreView, start: u64, count: nat, needed: nat) -> Result<
    Seq<u8>,
    FsFault,
>
    decreases count,
{
    if count == 0 {
        Ok(Seq::empty())
    } else {
        match stored_bitmap(s, start, (count - 1) as nat, needed) {
            Err(f) => Err(f),
            Ok(prefix) => match read_block_spec(s, (start + count - 1) as u64) {
                Err(f) => Err(f),
                Ok(payload) => {
                    let remaining = if needed >= prefix.len() {
                        needed - prefix.len()
                    } else {
                        0
                    };
                    let take = if remaining < UB {
                        remaining
                    } else {
                        UB as int
                    };
                    Ok(prefix + payload.subrange(0, take))
                },
            },
        }
    }
}

/// Bytes that hold one bit per block.
pub open spec fn bitmap_len(total_blocks: u64) -> int {
    (total_blocks + 7) / 8
}

/// Appends to `bytes` the part of block `block` that the bitmap still needs.
fn append_bitmap_block(store: &mut BlockStore, block: u64, bytes: &mut Vec<u8>, needed: usize) -> (res:
    Result<(), FsError>)
    requires
        old(store).wf(),
    ensures
        final(store).wf(),
        super::block::loaded_from(old(store)@, final(store)@),
        match read_block_spec(old(store)@, block) {
            Ok(p) => res is Ok && final(bytes)@ == old(bytes)@ + p.subrange(
                0,
                bitmap_take(needed as nat, old(bytes)@.len()),
            ),
            Err(f) => res matches Err(e) && fs_fault(e) == f,
        },
{
    let payload = store.read_block(block)?;
    let remaining = if needed >= bytes.len() {
        needed - bytes.len()
    } else {
        0
    };
    let take = if remaining < UB {
        remaining
    } else {
        UB
    };
    let part = copy_range(payload.as_slice(), 0, take);
    let mut i: usize = 0;
    let ghost before = bytes@;
    while i < part.len()
        invariant
            i <= part@.len(),
            bytes@ == before + part@.subrange(0, i as int),
        decreases part@.len() - i,
    {
        bytes.push(part[i]);
        i += 1;
        assert(bytes@ =~= before + part@.subrange(0, i as int));
    }
    assert(part@.subrange(0, part@.len() as int) =~= part@);
    Ok(())
}

/// The first `c` bitmap blocks that a plaintext write of `bytes` left read
/// back as the first `c` blocks' worth of `bytes`.
proof fn lemma_stored_bitmap_prefix(old: StoreView, new: StoreView, start: u64, count: nat, bytes: Seq<u8>, c: nat)
    requires
        !old.encrypted,
        same_frame(old, new),
        c <= count,
        start + count <= u64::MAX,
        forall|k: int|
            0 <= k < count ==> holds_written(new, old, (start + k) as u64, #[trigger] bitmap_chunk(bytes, k)),
    ensures
        stored_bitmap(new, start, c, bytes.len()) == Ok::<Seq<u8>, FsFault>(
            bytes.subrange(0, if c * UB < bytes.len() { c * UB } else { bytes.len() as int }),
        ),
    decreases c,
{
    if c == 0 {
        assert(bytes.subrange(0, 0) =~= Seq::<u8>::empty());
    } else {
        let k = c - 1;
        lemma_stored_bitmap_prefix(old, new, start, count, bytes, (c - 1) as nat);
        let lba = (start + k) as u64;
        let chunk = bitmap_chunk(bytes, k);
        assert(holds_written(new, old, lba, chunk));
        let blk = physical_block(new, lba)->Ok_0;
        assert(written_block(new, lba, chunk, blk));
        assert(chunk.len() <= UB);
        super::block::lemma_read_after_write(new, lba, chunk, blk);
        let p = if k * UB < bytes.len() { k * UB } else { bytes.len() as int };
        let prefix = bytes.subrange(0, p);
        let remaining = if bytes.len() >= prefix.len() { bytes.len() - prefix.len() } else { 0 };
        let take = if remaining < UB { remaining } else { UB as int };
        assert(take == chunk.len());
        assert(super::padded(chunk).subrange(0, take) =~= chunk);
        let q = if c * UB < bytes.len() { c * UB } else { bytes.len() as int };
        assert(prefix + chunk =~= bytes.subrange(0, q));
    }
}

/// In a plaintext store, the bitmap that `write_bitmap` wrote is the one
/// `load_bitmap` reads back: where the bitmap blocks hold every byte of a
/// bitmap of the superblock's length, their stored bytes are its bytes.
pub proof fn lemma_bitmap_write_then_load(old: StoreView, new: StoreView, sb: SuperblockView, bytes: Seq<u8>)
    requires
        !old.encrypted,
        same_frame(old, new),
        sb.bitmap_start <= sb.inode_table_start,
        bytes.len() == bitmap_len(sb.total_blocks),
        (sb.inode_table_start - sb.bitmap_start) * UB >= bytes.len(),
        forall|k: int|
            0 <= k < sb.inode_table_start - sb.bitmap_start ==> holds_written(
                new,
                old,
                (sb.bitmap_start + k) as u64,
                #[trigger] bitmap_chunk(bytes, k),
            ),
    ensures
        bitmap_bytes_of(new, sb) == Ok::<Seq<u8>, FsFault>(bytes),
{
    let count = (sb.inode_table_start - sb.bitmap_start) as nat;
    lemma_stored_bitmap_prefix(old, new, sb.bitmap_start, count, bytes, count);
    assert(bytes.subrange(0, bytes.len() as int) =~= bytes);
}

/// The bitmap bytes that the store holds for a superblock: those of its
/// bitmap blocks, cut or zero-padded to the bitmap's length.
pub open spec fn bitmap_bytes_of(s: StoreView, superblock: SuperblockView) -> Result<Seq<u8>, FsFault> {
    match stored_bitmap(
        s,
        superblock.bitmap_start,
        (superblock.inode_table_start - superblock.bitmap_start) as nat,
        bitmap_len(superblock.total_blocks) as nat,
    ) {
        Ok(bytes) => Ok(
            if bytes.len() >= bitmap_len(superblock.total_blocks) {
                bytes.subrange(0, bitmap_len(superblock.total_blocks))
            } else {
                bytes + Seq::new((bitmap_len(superblock.total_blocks) - bytes.len()) as nat, |i: int| 0u8)
            },
        ),
        Err(f) => Err(f),
    }
}

/// Reads the allocation bitmap out of its blocks.
pub fn load_bitmap(store: &mut BlockStore, superblock: &Superblock) -> (res: Result<Bitmap, FsError>)
    requires
        old(store).wf(),
        bitmap_len(superblock.total_blocks) <= usize::MAX,
        superblock.bitmap_start <= superblock.inode_table_start,
    ensures
        final(store).wf(),
        super::block::loaded_from(old(store)@, final(store)@),
        match stored_bitmap(
            old(store)@,
            superblock.bitmap_start,
            (superblock.inode_table_start - superblock.bitmap_start) as nat,
            bitmap_len(superblock.total_blocks) as nat,
        ) {
            Ok(bytes) => res matches Ok(b) && b.wf() && b.total() == superblock.total_blocks
                && b.bytes() == (if bytes.len() >= bitmap_len(superblock.total_blocks) {
                bytes.subrange(0, bitmap_len(superblock.total_blocks))
            } else {
                bytes + Seq::new(
                    (bitmap_len(superblock.total_blocks) - bytes.len()) as nat,
                    |i: int| 0u8,
                )
            }),
            Err(f) => res matches Err(e) && fs_fault(e) == f,
        },
{
    let needed = ((superblock.total_blocks / 8) + if superblock.total_blocks % 8 == 0 {
        0
    } else {
        1
    }) as usize;
    let ghost start = store@;
    let first = superblock.bitmap_start;
    let end = superblock.inode_table_start;
    let mut bytes: Vec<u8> = Vec::new();
    let mut block = first;
    while block < end
        invariant
            store.wf(),
            first <= block <= end,
            first == superblock.bitmap_start,
            end == superblock.inode_table_start,
            needed == bitmap_len(superblock.total_blocks),
            store_wf(start),
            start == old(store)@,
            super::block::loaded_from(start, store@),
            stored_bitmap(start, first, (block - first) as nat, needed as nat) == Ok::<
                Seq<u8>,
                FsFault,
            >(bytes@),
        decreases end - block,
    {
        let ghost s1 = store@;
        let ghost b1 = bytes@;
        proof {
            super::block::lemma_loaded_from_blocks(start, s1, block);
        }
        match append_bitmap_block(store, block, &mut bytes, needed) {
            Ok(()) => {},
            Err(e) => {
                proof {
                    assert(read_block_spec(s1, block) is Err);
                    assert(read_block_spec(start, block) is Err);
                    assert((first + (block - first) as nat) as u64 == block);
                    lemma_stored_bitmap_fails(
                        start,
                        first,
                        (block - first) as nat,
                        (end - first) as nat,
                        needed as nat,
                    );
                    assert(fs_fault(e) == read_block_spec(start, block)->Err_0);
                    super::block::lemma_loaded_from_trans(start, s1, store@);
                    assert(stored_bitmap(
                        start,
                        first,
                        (end - first) as nat,
                        needed as nat,
                    ) == Err::<Seq<u8>, FsFault>(fs_fault(e)));
                }
                return Err(e);
            },
        }
        proof {
            super::block::lemma_loaded_from_trans(start, s1, store@);
            lemma_stored_bitmap_step(
                start,
                first,
                (block - first) as nat,
                needed as nat,
                b1,
                read_block_spec(start, block)->Ok_0,
            );
        }
        block += 1;
    }
    Ok(Bitmap::from_bytes(bytes.as_slice(), superblock.total_blocks))
}

/// The bytes a block adds to the bitmap read so far.
pub open spec fn bitmap_take(needed: nat, have: nat) -> int {
    let remaining = if needed >= have {
        needed - have
    } else {
        0
    };
    if remaining < UB {
        remaining
    } else {
        UB as int
    }
}

proof fn lemma_stored_bitmap_step(
    s: StoreView,
    start: u64,
    k: nat,
    needed: nat,
    prefix: Seq<u8>,
    payload: Seq<u8>,
)
    requires
        stored_bitmap(s, start, k, needed) == Ok::<Seq<u8>, FsFault>(prefix),
        read_block_spec(s, (start + k) as u64) == Ok::<Seq<u8>, FsFault>(payload),
    ensures
        stored_bitmap(s, start, k + 1, needed) == Ok::<Seq<u8>, FsFault>(
            prefix + payload.subrange(0, bitmap_take(needed, prefix.len())),
        ),
{
}

proof fn lemma_stored_bitmap_fails(s: StoreView, start: u64, k: nat, n: nat, needed: nat)
    requires
        k < n,
        stored_bitmap(s, start, k, needed) is Ok,
        read_block_spec(s, (start + k) as u64) is Err,
    ensures
        stored_bitmap(s, start, n, needed) == Err::<Seq<u8>, FsFault>(
            read_block_spec(s, (start + k) as u64)->Err_0,
        ),
    decreases n - k,
{
    if n > k + 1 {
        lemma_stored_bitmap_fails(s, start, k, (n - 1) as nat, needed);
    }
}

/// The part of the bitmap's bytes that block `k` of the bitmap area holds.
pub open spec fn bitmap_chunk(bytes: Seq<u8>, k: int) -> Seq<u8> {
    let start = k * UB;
    let end = if start + UB < bytes.len() {
        start + UB
    } else {
        bytes.len() as int
    };
    if start < end {
        bytes.subrange(start, end)
    } else {
        Seq::empty()
    }
}

/// Block `lba` of `s` holds `payload` as written into the store `base`.
pub open spec fn holds_written(s: StoreView, base: StoreView, lba: u64, payload: Seq<u8>) -> bool {
    physical_block(s, lba) matches Ok(blk) && written_block(base, lba, payload, blk)
}

/// Writes block `index` of the bitmap area.
fn write_bitmap_block(store: &mut BlockStore, block: u64, bytes: &[u8], index: u64) -> (res: Result<
    (),
    FsError,
>)
    requires
        old(store).wf(),
    ensures
        final(store).wf(),
        same_frame(old(store)@, final(store)@),
        final(store)@.images == old(store)@.images,
        res is Ok ==> holds_written(final(store)@, old(store)@, block, bitmap_chunk(bytes@, index as int)),
        forall|other: u64|
            other != block || res is Err ==> #[trigger] physical_block(final(store)@, other)
                == physical_block(old(store)@, other),
        !old(store)@.encrypted && physical_block(old(store)@, block) is Ok ==> res is Ok,
        res matches Err(e) ==> !request_error(e),
        store_flushable(old(store)@) ==> store_flushable(final(store)@),
{
    let len = bytes.len();
    let lo = if index <= (len / UB) as u64 {
        index as usize * UB
    } else {
        len
    };
    let hi = if len - lo > UB {
        lo + UB
    } else {
        len
    };
    let empty: Vec<u8> = Vec::new();
    let slice = if lo < hi {
        vstd::slice::slice_subrange(bytes, lo, hi)
    } else {
        empty.as_slice()
    };
    proof {
        if index <= len / UB {
            assert(slice@ =~= bitmap_chunk(bytes@, index as int));
        } else {
            assert(index * UB > len) by (nonlinear_arith)
                requires
                    index > len / UB,
            ;
            assert(slice@ =~= bitmap_chunk(bytes@, index as int));
        }
    }
    store.write_block(block, slice)
}

/// Writes the allocation bitmap into its blocks, one block's worth at a
/// time; blocks past the bitmap's end get an empty payload.
#[verifier::spinoff_prover]
#[verifier::rlimit(80)]
pub fn write_bitmap(store: &mut BlockStore, superblock: &Superblock, bitmap: &Bitmap) -> (res: Result<
    (),
    FsError,
>)
    requires
        old(store).wf(),
        bitmap.wf(),
        superblock.bitmap_start <= superblock.inode_table_start,
    ensures
        final(store).wf(),
        same_frame(old(store)@, final(store)@),
        final(store)@.images == old(store)@.images,
        forall|other: u64|
            (other < superblock.bitmap_start || other >= superblock.inode_table_start)
                ==> #[trigger] physical_block(final(store)@, other) == physical_block(
                old(store)@,
                other,
            ),
        res is Ok ==> forall|k: int|
            0 <= k < superblock.inode_table_start - superblock.bitmap_start ==> holds_written(
                final(store)@,
                old(store)@,
                (superblock.bitmap_start + k) as u64,
                #[trigger] bitmap_chunk(bitmap.bytes(), k),
            ),
        !old(store)@.encrypted && (forall|lba: u64|
            superblock.bitmap_start <= lba < superblock.inode_table_start ==> #[trigger] physical_block(
                old(store)@,
                lba,
            ) is Ok) ==> res is Ok,
        res matches Err(e) ==> !request_error(e),
        store_flushable(old(store)@) ==> store_flushable(final(store)@),
{
    let bytes = bitmap.as_bytes();
    let first = superblock.bitmap_start;
    let end = superblock.inode_table_start;
    let ghost start = store@;
    let mut block = first;
    while block < end
        invariant
            store.wf(),
            first <= block <= end,
            first == superblock.bitmap_start,
            end == superblock.inode_table_start,
            bytes@ == bitmap.bytes(),
            start == old(store)@,
            same_frame(start, store@),
            store@.images == start.images,
            store_flushable(start) ==> store_flushable(store@),
            forall|other: u64|
                (other < first || other >= block) ==> #[trigger] physical_block(store@, other)
                    == physical_block(start, other),
            forall|k: int|
                0 <= k < block - first ==> holds_written(
                    store@,
                    start,
                    (first + k) as u64,
                    #[trigger] bitmap_chunk(bytes@, k),
                ),
        decreases end - block,
    {
        let ghost s1 = store@;
        write_bitmap_block(store, block, bytes, block - first)?;
        proof {
            lemma_written_frame(start, s1);
            assert forall|k: int| 0 <= k < block + 1 - first implies holds_written(
                store@,
                start,
                (first + k) as u64,
                #[trigger] bitmap_chunk(bytes@, k),
            ) by {
                if k < block - first {
                    assert(holds_written(s1, start, (first + k) as u64, bitmap_chunk(bytes@, k)));
                    assert(physical_block(store@, (first + k) as u64) == physical_block(
                        s1,
                        (first + k) as u64,
                    ));
                } else {
                    assert((first + k) as u64 == block);
                }
            }
        }
        block += 1;
    }
    Ok(())
}

/// Whether a block was written the same way depends only on the store's
/// mode and keys.
proof fn lemma_written_frame(a: StoreView, b: StoreView)
    requires
        same_frame(a, b),
    ensures
        forall|lba: u64, p: Seq<u8>, blk: Seq<u8>|
            #[trigger] written_block(b, lba, p, blk) == written_block(a, lba, p, blk),
{
}

/// What the capacity of a pool carrier is, as the codec its name selects
/// reads it.
pub open spec fn pool_capacity(name: Seq<char>, img: CarrierView) -> Result<u64, FsFault> {
    match kind_of_path(encode_utf8(name)) {
        None => Err(FsFault::Manifest),
        Some(k) => match carrier_raw_capacity(k, img) {
            Ok(c) => Ok(c),
            Err(f) => Err(FsFault::Codec(f)),
        },
    }
}

/// The capacity of the carrier in place `i`.
pub open spec fn item_capacity(items: Seq<Option<Carrier>>, i: int) -> Result<u64, FsFault> {
    pool_capacity(items[i]->Some_0.name@, items[i]->Some_0.image@)
}

/// The pool's carriers, each in a place it can be taken out of.
fn to_items(pool: Vec<Carrier>) -> (items: Vec<Option<Carrier>>)
    ensures
        items@.len() == pool@.len(),
        forall|i: int| 0 <= i < items@.len() ==> #[trigger] items@[i] == Some(pool@[i]),
{
    let mut pool = pool;
    let ghost orig = pool@;
    let n = pool.len();
    let mut items: Vec<Option<Carrier>> = Vec::new();
    let mut i: usize = 0;
    while i < n
        invariant
            n == orig.len(),
            i <= n,
            pool@ == orig.subrange(i as int, n as int),
            items@.len() == i,
            forall|j: int| 0 <= j < i ==> #[trigger] items@[j] == Some(orig[j]),
        decreases n - i,
    {
        let c = pool.remove(0);
        items.push(Some(c));
        i += 1;
        assert(pool@ =~= orig.subrange(i as int, n as int));
    }
    items
}

/// The carriers still in their places, in order.
fn from_items(items: Vec<Option<Carrier>>) -> (pool: Vec<Carrier>)
    ensures
        (forall|i: int| 0 <= i < items@.len() ==> (#[trigger] items@[i]) is Some) ==> pool@.len()
            == items@.len() && forall|i: int|
            0 <= i < items@.len() ==> #[trigger] pool@[i] == items@[i]->Some_0,
{
    let mut items = items;
    let ghost orig = items@;
    let n = items.len();
    let mut pool: Vec<Carrier> = Vec::new();
    let mut i: usize = 0;
    let mut complete = true;
    while i < n
        invariant
            n == orig.len(),
            i <= n,
            items@ == orig.subrange(i as int, n as int),
            complete ==> pool@.len() == i && forall|j: int|
                0 <= j < i ==> #[trigger] pool@[j] == orig[j]->Some_0,
            complete <== forall|j: int| 0 <= j < i ==> (#[trigger] orig[j]) is Some,
        decreases n - i,
    {
        let item = items.remove(0);
        match item {
            Some(c) => pool.push(c),
            None => {
                complete = false;
            },
        }
        i += 1;
        assert(items@ =~= orig.subrange(i as int, n as int));
    }
    pool
}

/// Takes the carrier out of place `i`.
fn take_item(items: &mut Vec<Option<Carrier>>, i: usize) -> (c: Option<Carrier>)
    requires
        i < old(items)@.len(),
    ensures
        c == old(items)@[i as int],
        final(items)@ == old(items)@.update(i as int, None),
{
    let mut c: Option<Carrier> = None;
    items.set_and_swap(i, &mut c);
    c
}

/// Picks the anchor image: the requested place, or else the first carrier
/// of the greatest capacity; it must hold the bootstrap.
fn select_anchor(items: &Vec<Option<Carrier>>, requested: Option<usize>) -> (res: Result<
    usize,
    FsError,
>)
    requires
        forall|i: int| 0 <= i < items@.len() ==> (#[trigger] items@[i]) is Some,
    ensures
        requested matches Some(r) && r >= items@.len() ==> (res matches Err(FsError::Manifest(_))),
        requested is None && items@.len() == 0 ==> (res matches Err(FsError::EmptyPool)),
        res is Ok ==> res->Ok_0 < items@.len() && (requested matches Some(r) ==> res->Ok_0 == r)
            && (item_capacity(items@, res->Ok_0 as int) matches Ok(c) && c >= BOOTSTRAP_LEN),
        res is Ok && requested is None ==> forall|j: int|
            0 <= j < items@.len() ==> (#[trigger] item_capacity(items@, j) matches Ok(c) && c
                <= item_capacity(items@, res->Ok_0 as int)->Ok_0 && (j < res->Ok_0 ==> c
                < item_capacity(items@, res->Ok_0 as int)->Ok_0)),
        requested matches Some(r) ==> (res is Ok <==> r < items@.len() && (item_capacity(items@, r as int) matches Ok(
            c,
        ) && c >= BOOTSTRAP_LEN)),
        requested is None ==> (res is Ok <==> items@.len() > 0 && (forall|j: int|
            0 <= j < items@.len() ==> #[trigger] item_capacity(items@, j) is Ok) && exists|j: int|
            0 <= j < items@.len() && #[trigger] item_capacity(items@, j) is Ok && item_capacity(items@, j)->Ok_0
                >= BOOTSTRAP_LEN),
{
    let n = items.len();
    let anchor = match requested {
        Some(r) => {
            if r >= n {
                return Err(FsError::Manifest("the anchor is not an image carrier of the pool".to_string()));
            }
            r
        },
        None => {
            let mut best: Option<(usize, u64)> = None;
            let mut i: usize = 0;
            while i < n
                invariant
                    n == items@.len(),
                    requested is None,
                    i <= n,
                    forall|j: int| 0 <= j < items@.len() ==> (#[trigger] items@[j]) is Some,
                    i == 0 <==> best is None,
                    best matches Some((b, c)) ==> b < i && item_capacity(items@, b as int) == Ok::<
                        u64,
                        FsFault,
                    >(c) && forall|j: int|
                        0 <= j < i ==> (#[trigger] item_capacity(items@, j) matches Ok(cj) && cj <= c
                            && (j < b ==> cj < c)),
                decreases n - i,
            {
                let c = match &items[i] {
                    Some(c) => c,
                    None => return Err(FsError::EmptyPool),
                };
                let codec = match Codec::for_path(c.name.as_str()) {
                    Some(k) => k,
                    None => {
                        assert(item_capacity(items@, i as int) is Err);
                        return Err(FsError::Manifest("unsupported carrier type".to_string()));
                    },
                };
                let capacity = match codec.raw_capacity_bytes(&c.image) {
                    Ok(v) => v,
                    Err(e) => {
                        assert(item_capacity(items@, i as int) is Err);
                        return Err(FsError::Codec(e));
                    },
                };
                let replace = match best {
                    None => true,
                    Some((_, largest)) => capacity > largest,
                };
                if replace {
                    best = Some((i, capacity));
                }
                i += 1;
            }
            match best {
                Some((b, _)) => b,
                None => return Err(FsError::EmptyPool),
            }
        },
    };
    let c = match &items[anchor] {
        Some(c) => c,
        None => return Err(FsError::EmptyPool),
    };
    let codec = match Codec::for_path(c.name.as_str()) {
        Some(k) => k,
        None => return Err(FsError::Manifest("unsupported anchor type".to_string())),
    };
    let capacity = match codec.raw_capacity_bytes(&c.image) {
        Ok(v) => v,
        Err(e) => return Err(FsError::Codec(e)),
    };
    if capacity < BOOTSTRAP_LEN as u64 {
        return Err(FsError::Manifest("the anchor cannot hold the bootstrap".to_string()));
    }
    Ok(anchor)
}

/// The superblock's crypto flags mark the filesystem encrypted.
pub open spec fn sb_encrypted(sb: Superblock) -> bool {
    sb.crypto_flags & CRYPTO_FLAG_ENCRYPTED != 0
}

/// A carrier whose framed chunk could be read: its place, the chunk's index,
/// whether it is marked primary, and the payload's length.
#[derive(Clone, Copy)]
pub struct Scanned {
    pub index: usize,
    pub chunk_index: u32,
    pub primary: bool,
    pub len: usize,
}

/// What scanning places `[0, i)` of a pool finds: each carrier whose framed
/// chunk reads, in place order.
pub open spec fn scanned_of(pool: Seq<Carrier>, i: int) -> Seq<Scanned>
    decreases i,
{
    if i <= 0 {
        Seq::empty()
    } else {
        let prev = scanned_of(pool, i - 1);
        match framed_chunk(pool[i - 1]) {
            Some((meta, p)) => prev.push(
                Scanned {
                    index: (i - 1) as usize,
                    chunk_index: meta.chunk_index,
                    primary: meta.flags & 1 != 0,
                    len: p.len() as usize,
                },
            ),
            None => prev,
        }
    }
}

/// The first position from `k` on of a scanned chunk with index `ci`, or the
/// scan's length where there is none.
pub open spec fn first_chunk_from(sc: Seq<Scanned>, ci: u32, k: int) -> int
    decreases sc.len() - k,
{
    if k < 0 || k >= sc.len() {
        sc.len() as int
    } else if sc[k].chunk_index == ci {
        k
    } else {
        first_chunk_from(sc, ci, k + 1)
    }
}

/// The chunk that a manifest range names is found, has the range's length,
/// and still fits its carrier.
pub open spec fn range_found(pool: Seq<Carrier>, sc: Seq<Scanned>, range: CarrierRangeView) -> bool {
    let k = first_chunk_from(sc, range.chunk_index, 0);
    &&& 0 <= k < sc.len()
    &&& sc[k].len == range.block_count * PB
    &&& sc[k].index < pool.len()
    &&& match kind_of_path(encode_utf8(pool[sc[k].index as int].name@)) {
        Some(kind) => carrier_capacity(kind, pool[sc[k].index as int].image@) is Ok && carrier_capacity(
            kind,
            pool[sc[k].index as int].image@,
        )->Ok_0 >= range.block_count * PB,
        None => false,
    }
}

/// A plaintext pool that opens: its primary's superblock decodes and is not
/// encrypted, its layout is sound, the readable chunks are exactly as many as
/// its ranges, each range names its own chunk, and each chunk is found with
/// the range's length in a carrier it still fits.
pub open spec fn plain_pool_ok(pool: Seq<Carrier>) -> bool {
    match first_primary(pool, 0) {
        None => false,
        Some(p) => match primary_superblock(p) {
            None => false,
            Some(v) => {
                let sc = scanned_of(pool, pool.len() as int);
                &&& v.crypto_flags & CRYPTO_FLAG_ENCRYPTED == 0
                &&& geometry_ok(v)
                &&& sc.len() == v.manifest.len()
                &&& forall|r: int| 0 <= r < v.manifest.len() ==> #[trigger] range_found(pool, sc, v.manifest[r])
                &&& forall|r1: int, r2: int|
                    0 <= r1 < r2 < v.manifest.len() ==> #[trigger] v.manifest[r1].chunk_index
                        != #[trigger] v.manifest[r2].chunk_index
            },
        },
    }
}

/// A scan's places rise strictly and lie below where it stopped.
proof fn lemma_scanned_places(pool: Seq<Carrier>, i: int)
    requires
        0 <= i <= pool.len(),
        pool.len() <= usize::MAX,
    ensures
        forall|a: int, b: int|
            0 <= a < b < scanned_of(pool, i).len() ==> #[trigger] scanned_of(pool, i)[a].index
                < #[trigger] scanned_of(pool, i)[b].index,
        forall|a: int| 0 <= a < scanned_of(pool, i).len() ==> #[trigger] scanned_of(pool, i)[a].index < i,
    decreases i,
{
    if i > 0 {
        lemma_scanned_places(pool, i - 1);
        let prev = scanned_of(pool, i - 1);
        let cur = scanned_of(pool, i);
        match framed_chunk(pool[i - 1]) {
            Some((meta, p)) => {
                assert(cur.len() == prev.len() + 1);
                assert(cur[prev.len() as int].index == i - 1);
                assert forall|a: int| 0 <= a < prev.len() implies #[trigger] cur[a] == prev[a] by {}
                assert forall|a: int, b: int| 0 <= a < b < cur.len() implies #[trigger] cur[a].index
                    < #[trigger] cur[b].index by {
                    assert(cur[a] == prev[a]);
                    if b < prev.len() {
                        assert(cur[b] == prev[b]);
                    }
                }
                assert forall|a: int| 0 <= a < cur.len() implies #[trigger] cur[a].index < i by {
                    if a < prev.len() {
                        assert(cur[a] == prev[a]);
                    }
                }
            },
            None => {},
        }
    }
}

/// `first_chunk_from` finds a position holding the index, with none before
/// it from `k` on.
proof fn lemma_first_chunk(sc: Seq<Scanned>, ci: u32, k: int)
    requires
        0 <= k <= sc.len(),
    ensures
        k <= first_chunk_from(sc, ci, k) <= sc.len(),
        first_chunk_from(sc, ci, k) < sc.len() ==> sc[first_chunk_from(sc, ci, k)].chunk_index == ci,
    decreases sc.len() - k,
{
    if k < sc.len() && sc[k].chunk_index != ci {
        lemma_first_chunk(sc, ci, k + 1);
    }
}

/// The store's slots are the manifest's ranges, in order, none loaded.
pub open spec fn store_matches_manifest(s: StoreView, sb: SuperblockView) -> bool {
    &&& s.slots.len() == sb.manifest.len()
    &&& s.total_blocks == sb.total_blocks
    &&& forall|i: int|
        0 <= i < sb.manifest.len() ==> (#[trigger] s.slots[i]).chunk_index
            == sb.manifest[i].chunk_index && s.slots[i].block_start == sb.manifest[i].block_start
            && s.slots[i].block_count == sb.manifest[i].block_count && !s.slots[i].dirty
            && s.buffers[i] is None
}

/// Each chosen place of the pool holds a carrier, and no place is chosen
/// twice.
pub open spec fn chosen_ok(items: Seq<Option<Carrier>>, chosen: Seq<usize>) -> bool {
    &&& forall|j: int| 0 <= j < chosen.len() ==> #[trigger] chosen[j] < items.len() && items[chosen[j] as int] is Some
    &&& forall|j: int, k: int| 0 <= j < k < chosen.len() ==> #[trigger] chosen[j] != #[trigger] chosen[k]
}

/// Slot `j` of the store holds the name and image of the carrier at the
/// `j`-th chosen place.
pub open spec fn holds_chosen(s: StoreView, items: Seq<Option<Carrier>>, chosen: Seq<usize>) -> bool {
    forall|j: int|
        0 <= j < chosen.len() ==> #[trigger] s.names[j] == items[chosen[j] as int]->Some_0.name@ && s.images[j]
            == items[chosen[j] as int]->Some_0.image@
}

/// Lays the chosen carriers out as the manifest says and makes a store of
/// them.
fn store_for_manifest(
    items: &mut Vec<Option<Carrier>>,
    chosen: &Vec<usize>,
    primary: &Vec<bool>,
    superblock: &Superblock,
    keys: Option<super::crypto::StoreKeys>,
) -> (res: Result<BlockStore, FsError>)
    requires
        chosen@.len() == superblock.manifest@.len(),
        primary@.len() == superblock.manifest@.len(),
        geometry_ok(superblock@),
        forall|i: int|
            0 <= i < superblock.manifest@.len() ==> (#[trigger] superblock.manifest@[i]).block_count
                * PB <= usize::MAX,
    ensures
        res is Ok <==> chosen_ok(old(items)@, chosen@),
        res matches Ok(store) ==> store.wf() && store@.encrypted == keys is Some
            && store_matches_manifest(store@, superblock@),
        res matches Ok(store) ==> holds_chosen(store@, old(items)@, chosen@),
{
    let n = chosen.len();
    let ghost orig = items@;
    let mut carriers: Vec<Carrier> = Vec::new();
    let mut i: usize = 0;
    while i < n
        invariant
            n == chosen@.len(),
            i <= n,
            carriers@.len() == i,
            orig == old(items)@,
            items@.len() == orig.len(),
            forall|j: int| 0 <= j < i ==> #[trigger] chosen@[j] < orig.len() && orig[chosen@[j] as int] is Some
                && carriers@[j] == orig[chosen@[j] as int]->Some_0 && items@[chosen@[j] as int] is None,
            forall|j: int, k: int| 0 <= j < k < i ==> #[trigger] chosen@[j] != #[trigger] chosen@[k],
            forall|p: int|
                0 <= p < orig.len() && (forall|j: int| 0 <= j < i ==> #[trigger] chosen@[j] != p) ==> #[trigger] items@[p]
                    == orig[p],
        decreases n - i,
    {
        let idx = chosen[i];
        if idx >= items.len() {
            return Err(FsError::Manifest("carrier index out of range".to_string()));
        }
        let ghost before = items@;
        match take_item(items, idx) {
            Some(c) => {
                proof {
                    if exists|j: int| 0 <= j < i && chosen@[j] == idx {
                        let j = choose|j: int| 0 <= j < i && chosen@[j] == idx;
                        assert(before[chosen@[j] as int] is None);
                    }
                    assert forall|j: int| 0 <= j < i implies #[trigger] chosen@[j] != chosen@[i as int] by {
                        if chosen@[j] == idx {
                            assert(before[chosen@[j] as int] is None);
                        }
                    }
                    assert(before[idx as int] == orig[idx as int]);
                }
                carriers.push(c);
                proof {
                    assert forall|j: int, k: int| 0 <= j < k < i + 1 implies #[trigger] chosen@[j] != #[trigger] chosen@[k] by {
                        if k == i {
                            assert(chosen@[j] != chosen@[i as int]);
                        }
                    }
                    assert forall|p: int|
                        0 <= p < orig.len() && (forall|j: int| 0 <= j < i + 1 ==> #[trigger] chosen@[j] != p) implies #[trigger] items@[p]
                            == orig[p] by {
                        assert(chosen@[i as int] != p);
                        assert forall|j: int| 0 <= j < i implies #[trigger] chosen@[j] != p by {
                            assert(chosen@[j] != p);
                        }
                    }
                }
            },
            None => {
                proof {
                    if orig[idx as int] is Some {
                        assert(before[idx as int] != orig[idx as int]);
                        let j = choose|j: int| 0 <= j < i && #[trigger] chosen@[j] == idx;
                        assert(chosen@[j] == chosen@[i as int]);
                    }
                    assert(!chosen_ok(orig, chosen@));
                }
                return Err(FsError::Manifest("two manifest entries name one carrier".to_string()));
            },
        }
        i += 1;
    }
    proof {
        let m = superblock.manifest@;
        assert(range_views(m) =~= superblock@.manifest);
        assert(manifest_fits(m));
        assert(chosen_ok(orig, chosen@));
    }
    let ghost cv = carriers@;
    let store = BlockStore::from_manifest(carriers, primary.as_slice(), superblock.manifest.as_slice(), keys);
    proof {
        assert forall|j: int| 0 <= j < chosen@.len() implies #[trigger] store@.names[j] == orig[chosen@[j] as int]->Some_0.name@
            && store@.images[j] == orig[chosen@[j] as int]->Some_0.image@ by {
            assert(cv[j] == orig[chosen@[j] as int]->Some_0);
            assert(store@.slots[j] == super::block::slot_of_range(superblock.manifest@[j]@, primary@[j], false));
        }
        assert(holds_chosen(store@, orig, chosen@));
        assert forall|i: int| 0 <= i < superblock@.manifest.len() implies (#[trigger] store@.slots[i]).chunk_index
            == superblock@.manifest[i].chunk_index && store@.slots[i].block_start
            == superblock@.manifest[i].block_start && store@.slots[i].block_count
            == superblock@.manifest[i].block_count && !store@.slots[i].dirty && store@.buffers[i] is None by {
            assert(superblock@.manifest[i] == superblock.manifest@[i]@);
        }
    }
    Ok(store)
}

/// The framed chunk a carrier holds, read with no key: `None` where its name
/// gives no codec or the read fails.
pub open spec fn framed_chunk(c: Carrier) -> Option<(ChunkMeta, Seq<u8>)> {
    match kind_of_path(encode_utf8(c.name@)) {
        None => None,
        Some(k) => match carrier_read_spec(k, c.image@, ChunkRead::Framed, Seq::empty()) {
            Ok(r) => Some(r),
            Err(_) => None,
        },
    }
}

/// The payload of the first carrier from place `i` on whose framed chunk is
/// marked primary.
pub open spec fn first_primary(pool: Seq<Carrier>, i: int) -> Option<Seq<u8>>
    decreases pool.len() - i,
{
    if i < 0 || i >= pool.len() {
        None
    } else {
        match framed_chunk(pool[i]) {
            Some((meta, p)) => if meta.flags & 1 != 0 {
                Some(p)
            } else {
                first_primary(pool, i + 1)
            },
            None => first_primary(pool, i + 1),
        }
    }
}

/// The superblock that block 0 of a primary payload holds, where the block
/// checks out and decodes.
pub open spec fn primary_superblock(p: Seq<u8>) -> Option<SuperblockView> {
    if p.len() < PB {
        None
    } else {
        match read_physical_spec(0, p.subrange(0, PB as int)) {
            Ok(b) => match decode_spec(b) {
                Ok(v) => Some(v),
                Err(_) => None,
            },
            Err(_) => None,
        }
    }
}

/// What opening a plaintext pool gives by its primary carrier: `NoPrimary`
/// where no carrier holds a framed chunk marked primary, `AnchorRequired`
/// where the primary's superblock is marked encrypted, and otherwise, on
/// success, the superblock that block 0 of the primary holds.
pub open spec fn opened_from_primary(pool: Seq<Carrier>, res: Result<(Superblock, BlockStore), FsError>) -> bool {
    &&& first_primary(pool, 0) is None ==> (res matches Err(FsError::NoPrimary))
    &&& res is Ok ==> first_primary(pool, 0) is Some && primary_superblock(first_primary(pool, 0)->Some_0)
        == Some(res->Ok_0.0@)
    &&& first_primary(pool, 0) is Some && primary_superblock(first_primary(pool, 0)->Some_0) is Some
        && primary_superblock(first_primary(pool, 0)->Some_0)->Some_0.crypto_flags & CRYPTO_FLAG_ENCRYPTED != 0
        ==> (res matches Err(FsError::AnchorRequired))
}

/// The place in the pool of the carrier whose chunk the `j`-th range of `v`
/// names: the first scanned chunk with that index.
pub open spec fn range_place(pool: Seq<Carrier>, v: SuperblockView, j: int) -> int {
    let sc = scanned_of(pool, pool.len() as int);
    sc[first_chunk_from(sc, v.manifest[j].chunk_index, 0)].index as int
}

/// `s` is a store that opening the pool can build under superblock `v`: its
/// chunks laid out as the manifest says, none loaded yet, each from the
/// carrier whose chunk its range names.
pub open spec fn opened_store(pool: Seq<Carrier>, v: SuperblockView, s: StoreView) -> bool {
    &&& store_wf(s)
    &&& !s.encrypted
    &&& store_matches_manifest(s, v)
    &&& forall|j: int|
        0 <= j < v.manifest.len() ==> s.names[j] == pool[#[trigger] range_place(pool, v, j)].name@ && s.images[j]
            == pool[range_place(pool, v, j)].image@
}

/// Opens a plaintext pool: finds the primary carrier, reads the superblock
/// from its block 0 and checks every chunk the manifest names.
#[verifier::spinoff_prover]
#[verifier::rlimit(80)]
pub fn open_plaintext(pool: Vec<Carrier>) -> (res: Result<(Superblock, BlockStore), FsError>)
    ensures
        res matches Ok((sb, store)) ==> store.wf() && !store@.encrypted && !sb_encrypted(sb)
            && geometry_ok(sb@) && store_matches_manifest(store@, sb@),
        opened_from_primary(pool@, res),
        plain_pool_ok(pool@) ==> res is Ok,
        res is Ok ==> plain_pool_ok(pool@),
        res matches Ok((sb, store)) ==> opened_store(pool@, sb@, store@),
{
    let n = pool.len();
    let mut scanned: Vec<Scanned> = Vec::new();
    let mut primary_payload: Option<Vec<u8>> = None;
    let mut i: usize = 0;
    while i < n
        invariant
            n == pool@.len(),
            i <= n,
            primary_payload is None ==> first_primary(pool@, 0) == first_primary(pool@, i as int),
            primary_payload matches Some(p) ==> first_primary(pool@, 0) == Some(p@),
            scanned@ == scanned_of(pool@, i as int),
        decreases n - i,
    {
        match Codec::for_path(pool[i].name.as_str()) {
            None => {
                assert(framed_chunk(pool@[i as int]) is None);
            },
            Some(codec) => {
                let key: Vec<u8> = Vec::new();
                match codec.read_chunk(&pool[i].image, ChunkRead::Framed, key.as_slice()) {
                    Ok((meta, payload)) => {
                        proof {
                            assert(key@ =~= Seq::<u8>::empty());
                            assert(framed_chunk(pool@[i as int]) == Some((meta, payload@)));
                        }
                        let primary = meta.flags & 1 != 0;
                        scanned.push(
                            Scanned { index: i, chunk_index: meta.chunk_index, primary, len: payload.len() },
                        );
                        proof {
                            assert(scanned@ =~= scanned_of(pool@, i + 1));
                        }
                        if primary && primary_payload.is_none() {
                            primary_payload = Some(payload);
                        }
                    },
                    Err(_) => {
                        assert(key@ =~= Seq::<u8>::empty());
                        assert(framed_chunk(pool@[i as int]) is None);
                    },
                }
            },
        }
        i += 1;
    }
    let payload = match primary_payload {
        Some(p) => p,
        None => return Err(FsError::NoPrimary),
    };
    if payload.len() < PB {
        return Err(FsError::Manifest("primary carrier is shorter than one block".to_string()));
    }
    let first = copy_range(payload.as_slice(), 0, PB);
    let block_zero = read_physical_block(0, first.as_slice())?;
    proof {
        assert(read_physical_spec(0, first@) == Ok::<Seq<u8>, ()>(block_zero@));
    }
    let superblock = Superblock::decode(block_zero.as_slice())?;
    proof {
        assert(primary_superblock(payload@) == Some(superblock@));
    }
    if superblock.encrypted() {
        return Err(FsError::AnchorRequired);
    }
    let ghost ok = plain_pool_ok(pool@);
    let ghost sc = scanned@;
    proof {
        lemma_scanned_places(pool@, n as int);
    }
    let count = superblock.manifest.len();
    if scanned.len() != count {
        return Err(FsError::Manifest("the pool's carriers do not match the manifest".to_string()));
    }
    let mut chosen: Vec<usize> = Vec::new();
    let mut primary: Vec<bool> = Vec::new();
    let mut r: usize = 0;
    while r < count
        invariant
            count == superblock.manifest@.len(),
            n == pool@.len(),
            r <= count,
            chosen@.len() == r,
            primary@.len() == r,
            forall|j: int|
                0 <= j < r ==> (#[trigger] superblock.manifest@[j]).block_count * PB <= usize::MAX,
            first_primary(pool@, 0) == Some(payload@),
            primary_superblock(payload@) == Some(superblock@),
            superblock.crypto_flags & CRYPTO_FLAG_ENCRYPTED == 0,
            ok == plain_pool_ok(pool@),
            sc == scanned@,
            sc == scanned_of(pool@, n as int),
            ok ==> sc.len() == count,
            forall|j: int|
                0 <= j < r ==> #[trigger] chosen@[j] == sc[first_chunk_from(
                    sc,
                    superblock@.manifest[j].chunk_index,
                    0,
                )].index,
            forall|j: int| 0 <= j < r ==> #[trigger] range_found(pool@, sc, superblock@.manifest[j]),
            sc.len() == count,
        decreases count - r,
    {
        let range = &superblock.manifest[r];
        proof {
            assert(superblock@.manifest[r as int] == superblock.manifest@[r as int]@);
            lemma_first_chunk(sc, range.chunk_index, 0);
        }
        let m = scanned.len();
        let mut k: usize = 0;
        let mut found: Option<Scanned> = None;
        while k < m
            invariant_except_break
                found is None,
            invariant
                m == scanned@.len(),
                k <= m,
                first_chunk_from(scanned@, range.chunk_index, 0) == first_chunk_from(
                    scanned@,
                    range.chunk_index,
                    k as int,
                ),
            ensures
                found matches Some(e) ==> first_chunk_from(scanned@, range.chunk_index, 0) < m && e
                    == scanned@[first_chunk_from(scanned@, range.chunk_index, 0)],
                found is None ==> first_chunk_from(scanned@, range.chunk_index, 0) == m,
            decreases m - k,
        {
            let entry = scanned[k];
            if entry.chunk_index == range.chunk_index {
                found = Some(entry);
                break;
            }
            k += 1;
        }
        proof {
            if ok {
                assert(range_found(pool@, sc, superblock@.manifest[r as int]));
            }
        }
        let entry = match found {
            Some(e) => e,
            None => return Err(FsError::Manifest("a chunk the manifest names is missing".to_string())),
        };
        let expected = match range.block_count.checked_mul(PB as u64) {
            Some(v) => v,
            None => return Err(FsError::Manifest("a chunk has the wrong length".to_string())),
        };
        if entry.len as u64 != expected {
            return Err(FsError::Manifest("a chunk has the wrong length".to_string()));
        }
        if entry.index >= n {
            return Err(FsError::Manifest("carrier index out of range".to_string()));
        }
        let codec = match Codec::for_path(pool[entry.index].name.as_str()) {
            Some(c) => c,
            None => return Err(FsError::Manifest("unsupported carrier type".to_string())),
        };
        let capacity = match codec.capacity_bytes(&pool[entry.index].image) {
            Ok(c) => c,
            Err(e) => return Err(FsError::Codec(e)),
        };
        if capacity < expected {
            return Err(FsError::Manifest("a chunk no longer fits its carrier".to_string()));
        }
        proof {
            assert(superblock@.manifest[r as int] == superblock.manifest@[r as int]@);
            assert(range_found(pool@, sc, superblock@.manifest[r as int]));
        }
        chosen.push(entry.index);
        primary.push(entry.primary);
        r += 1;
    }
    validate_manifest_geometry(&superblock)?;
    let ghost pv = pool@;
    let mut items = to_items(pool);
    proof {
        if ok {
            assert forall|j: int, k: int| 0 <= j < k < chosen@.len() implies #[trigger] chosen@[j] != #[trigger] chosen@[k] by {
                let mj = superblock@.manifest[j];
                let mk = superblock@.manifest[k];
                assert(range_found(pv, sc, mj));
                assert(range_found(pv, sc, mk));
                lemma_first_chunk(sc, mj.chunk_index, 0);
                lemma_first_chunk(sc, mk.chunk_index, 0);
                assert(mj.chunk_index != mk.chunk_index);
                let a = first_chunk_from(sc, mj.chunk_index, 0);
                let b = first_chunk_from(sc, mk.chunk_index, 0);
                assert(a != b);
                if a < b {
                    assert(sc[a].index < sc[b].index);
                } else {
                    assert(sc[b].index < sc[a].index);
                }
            }
            assert forall|j: int| 0 <= j < chosen@.len() implies #[trigger] chosen@[j] < items@.len()
                && items@[chosen@[j] as int] is Some by {
                assert(range_found(pv, sc, superblock@.manifest[j]));
            }
            assert(chosen_ok(items@, chosen@));
        }
    }
    let ghost it = items@;
    let store = store_for_manifest(&mut items, &chosen, &primary, &superblock, None)?;
    proof {
        let v = superblock@;
        assert forall|r1: int, r2: int|
            0 <= r1 < r2 < v.manifest.len() implies #[trigger] v.manifest[r1].chunk_index
            != #[trigger] v.manifest[r2].chunk_index by {
            if v.manifest[r1].chunk_index == v.manifest[r2].chunk_index {
                assert(chosen@[r1] == chosen@[r2]);
            }
        }
        assert(plain_pool_ok(pv));
        assert forall|j: int| 0 <= j < v.manifest.len() implies store@.names[j] == pv[#[trigger] range_place(pv, v, j)].name@
            && store@.images[j] == pv[range_place(pv, v, j)].image@ by {
            assert(chosen@[j] == range_place(pv, v, j));
            assert(0 <= j < chosen@.len());
            assert(holds_chosen(store@, it, chosen@));
            assert(store@.names[j] == it[chosen@[j] as int]->Some_0.name@);
            assert(it[chosen@[j] as int] == Some(pv[chosen@[j] as int]));
        }
    }
    Ok((superblock, store))
}

/// The bootstrap bytes that the carrier in place `anchor` holds at the front
/// of its capacity: `None` where there is no such carrier, its kind or
/// capacity cannot be had, it cannot hold a bootstrap, or the read fails.
pub open spec fn anchor_bootstrap(pool: Seq<Carrier>, anchor: int) -> Option<Seq<u8>> {
    if 0 <= anchor < pool.len() && pool_capacity(pool[anchor].name@, pool[anchor].image@) is Ok && pool_capacity(
        pool[anchor].name@,
        pool[anchor].image@,
    )->Ok_0 >= BOOTSTRAP_LEN {
        match kind_of_path(encode_utf8(pool[anchor].name@)) {
            Some(k) => match carrier_read_prefix_spec(k, pool[anchor].image@, BOOTSTRAP_LEN) {
                Ok(b) => Some(b),
                Err(_) => None,
            },
            None => None,
        }
    } else {
        None
    }
}

/// The superblock bytes that a passphrase opens from a bootstrap: the block
/// sealed under the boot key derived from the passphrase and the salt.
pub open spec fn bootstrap_plaintext(passphrase: Seq<u8>, b: Seq<u8>) -> Option<Seq<u8>> {
    if b.len() != BOOTSTRAP_LEN {
        None
    } else {
        match master_key(passphrase, b.subrange(0, 16)) {
            None => None,
            Some(m) => xchacha20poly1305_open(
                boot_key(m),
                b.subrange(16, 40),
                boot_aad(),
                b.subrange(56, BOOTSTRAP_LEN as int),
                b.subrange(40, 56),
            ),
        }
    }
}

/// The first place from `k` on whose carrier is named `name`, or the
/// pool's length where there is none.
pub open spec fn first_named(pool: Seq<Carrier>, name: Seq<char>, k: int) -> int
    decreases pool.len() - k,
{
    if k < 0 || k >= pool.len() {
        pool.len() as int
    } else if pool[k].name@ == name {
        k
    } else {
        first_named(pool, name, k + 1)
    }
}

/// `first_named` finds a place with that name, with none before it from `k`
/// on.
proof fn lemma_first_named(pool: Seq<Carrier>, name: Seq<char>, k: int)
    requires
        0 <= k <= pool.len(),
    ensures
        k <= first_named(pool, name, k) <= pool.len(),
        first_named(pool, name, k) < pool.len() ==> pool[first_named(pool, name, k)].name@ == name,
    decreases pool.len() - k,
{
    if k < pool.len() && pool[k].name@ != name {
        lemma_first_named(pool, name, k + 1);
    }
}

/// The superblock that the anchor's bootstrap opens and decodes to under a
/// passphrase.
pub open spec fn anchor_superblock(pool: Seq<Carrier>, anchor: int, passphrase: Seq<u8>) -> Option<SuperblockView> {
    match anchor_bootstrap(pool, anchor) {
        None => None,
        Some(b) => match bootstrap_plaintext(passphrase, b) {
            None => None,
            Some(pt) => match decode_spec(pt) {
                Ok(v) => Some(v),
                Err(_) => None,
            },
        },
    }
}

/// The carrier that an encrypted manifest range names is in the pool, is
/// not the anchor, has a valid name, and its raw capacity holds the range.
pub open spec fn named_range_found(pool: Seq<Carrier>, anchor: int, range: CarrierRangeView) -> bool {
    let k = first_named(pool, range.name, 0);
    &&& 0 <= k < pool.len()
    &&& k != anchor
    &&& name_ok(encode_utf8(range.name))
    &&& range.block_count * PB <= usize::MAX
    &&& match kind_of_path(encode_utf8(range.name)) {
        Some(kind) => carrier_raw_capacity(kind, pool[k].image@) is Ok && carrier_raw_capacity(
            kind,
            pool[k].image@,
        )->Ok_0 >= range.block_count * PB,
        None => false,
    }
}

/// An encrypted pool that opens through its anchor: the bootstrap opens and
/// decodes to a markerless encrypted superblock of sound layout whose ranges
/// name distinct carriers, each found with room for its range.
#[verifier::opaque]
pub open spec fn anchor_pool_ok(pool: Seq<Carrier>, anchor: int, passphrase: Seq<u8>) -> bool {
    match anchor_superblock(pool, anchor, passphrase) {
        None => false,
        Some(v) => {
            &&& v.version == MARKERLESS_FS_VERSION
            &&& v.crypto_flags & CRYPTO_FLAG_ENCRYPTED != 0
            &&& geometry_ok(v)
            &&& forall|r: int| 0 <= r < v.manifest.len() ==> #[trigger] named_range_found(pool, anchor, v.manifest[r])
            &&& forall|r1: int, r2: int|
                0 <= r1 < r2 < v.manifest.len() ==> #[trigger] v.manifest[r1].name != #[trigger] v.manifest[r2].name
        },
    }
}

/// What an encrypted pool that opens through its anchor gives, spelled out.
proof fn lemma_anchor_pool_ok(pool: Seq<Carrier>, anchor: int, passphrase: Seq<u8>)
    requires
        anchor_pool_ok(pool, anchor, passphrase),
    ensures
        anchor_superblock(pool, anchor, passphrase) is Some,
        anchor_bootstrap(pool, anchor) is Some,
        ({
            let v = anchor_superblock(pool, anchor, passphrase)->Some_0;
            &&& v.version == MARKERLESS_FS_VERSION
            &&& v.crypto_flags & CRYPTO_FLAG_ENCRYPTED != 0
            &&& geometry_ok(v)
            &&& forall|r: int| 0 <= r < v.manifest.len() ==> #[trigger] named_range_found(pool, anchor, v.manifest[r])
            &&& forall|r1: int, r2: int|
                0 <= r1 < r2 < v.manifest.len() ==> #[trigger] v.manifest[r1].name != #[trigger] v.manifest[r2].name
        }),
{
    reveal(anchor_pool_ok);
}

/// Opens an encrypted pool through its anchor image and passphrase: the
/// bootstrap gives the superblock and the keys, and every carrier the
/// manifest names must be in the pool and hold its chunk.
#[verifier::spinoff_prover]
#[verifier::rlimit(60)]
pub fn open_with_anchor(pool: Vec<Carrier>, anchor: usize, passphrase: &str) -> (res: Result<
    (Superblock, BlockStore),
    FsError,
>)
    ensures
        anchor >= pool@.len() ==> (res matches Err(FsError::Manifest(_))),
        res matches Ok((sb, store)) ==> store.wf() && store@.encrypted && sb.version
            == MARKERLESS_FS_VERSION && sb_encrypted(sb) && geometry_ok(sb@)
            && store_matches_manifest(store@, sb@),
        anchor_bootstrap(pool@, anchor as int) is Some && bootstrap_plaintext(
            passphrase.spec_bytes(),
            anchor_bootstrap(pool@, anchor as int)->Some_0,
        ) is None ==> (res matches Err(FsError::Auth)),
        res is Ok ==> anchor_bootstrap(pool@, anchor as int) is Some && bootstrap_plaintext(
            passphrase.spec_bytes(),
            anchor_bootstrap(pool@, anchor as int)->Some_0,
        ) is Some && decode_spec(
            bootstrap_plaintext(passphrase.spec_bytes(), anchor_bootstrap(pool@, anchor as int)->Some_0)->Some_0,
        ) == Ok::<SuperblockView, SuperblockFault>(res->Ok_0.0@),
        anchor_pool_ok(pool@, anchor as int, passphrase.spec_bytes()) ==> res is Ok,
{
    let ghost ok = anchor_pool_ok(pool@, anchor as int, passphrase.spec_bytes());
    let ghost pv = pool@;
    proof {
        if ok {
            lemma_anchor_pool_ok(pv, anchor as int, passphrase.spec_bytes());
        }
    }
    let mut items = to_items(pool);
    proof {
        assert(items@ =~= pool_items(pv));
    }
    let n = items.len();
    let chosen_anchor = select_anchor(&items, Some(anchor))?;
    let carrier = match &items[chosen_anchor] {
        Some(c) => c,
        None => return Err(FsError::EmptyPool),
    };
    let codec = match Codec::for_path(carrier.name.as_str()) {
        Some(c) => c,
        None => return Err(FsError::Manifest("unsupported anchor type".to_string())),
    };
    let prefix = match codec.read_prefix(&carrier.image, BOOTSTRAP_LEN) {
        Ok(p) => p,
        Err(e) => return Err(FsError::Codec(e)),
    };
    proof {
        assert(anchor_bootstrap(pool@, anchor as int) == Some(prefix@));
    }
    let (plaintext, keys) = open_bootstrap(passphrase, prefix.as_slice())?;
    let superblock = match Superblock::decode(plaintext.as_slice()) {
        Ok(sb) => sb,
        Err(_) => return Err(FsError::Auth),
    };
    proof {
        assert(bootstrap_plaintext(passphrase.spec_bytes(), prefix@) == Some(plaintext@));
        assert(decode_spec(plaintext@) == Ok::<SuperblockView, SuperblockFault>(superblock@));
    }
    if !superblock.markerless_encrypted() {
        return Err(FsError::Auth);
    }
    let count = superblock.manifest.len();
    let mut chosen: Vec<usize> = Vec::new();
    let mut primary: Vec<bool> = Vec::new();
    let mut r: usize = 0;
    while r < count
        invariant
            count == superblock.manifest@.len(),
            n == items@.len(),
            n == pool@.len(),
            anchor < n,
            r <= count,
            chosen@.len() == r,
            primary@.len() == r,
            forall|j: int|
                0 <= j < r ==> (#[trigger] superblock.manifest@[j]).block_count * PB <= usize::MAX,
            anchor_bootstrap(pool@, anchor as int) == Some(prefix@),
            bootstrap_plaintext(passphrase.spec_bytes(), prefix@) == Some(plaintext@),
            decode_spec(plaintext@) == Ok::<SuperblockView, SuperblockFault>(superblock@),
            pv == pool@,
            items@ == pool_items(pv),
            chosen_anchor == anchor,
            ok == anchor_pool_ok(pv, anchor as int, passphrase.spec_bytes()),
            ok ==> forall|j: int|
                0 <= j < count ==> #[trigger] named_range_found(pv, anchor as int, superblock@.manifest[j]),
            ok ==> forall|j1: int, j2: int|
                0 <= j1 < j2 < count ==> #[trigger] superblock@.manifest[j1].name
                    != #[trigger] superblock@.manifest[j2].name,
            ok ==> geometry_ok(superblock@),
            forall|j: int|
                0 <= j < r ==> #[trigger] chosen@[j] == first_named(pv, superblock@.manifest[j].name, 0),
        decreases count - r,
    {
        let range = &superblock.manifest[r];
        proof {
            assert(superblock@.manifest[r as int] == superblock.manifest@[r as int]@);
            lemma_first_named(pv, range.name@, 0);
            if ok {
                assert(named_range_found(pv, anchor as int, superblock@.manifest[r as int]));
            }
        }
        validate_name(range.name.as_str())?;
        let mut q: usize = 0;
        while q < r
            invariant
                q <= r,
                r < count,
                count == superblock.manifest@.len(),
                anchor_bootstrap(pool@, anchor as int) == Some(prefix@),
                bootstrap_plaintext(passphrase.spec_bytes(), prefix@) == Some(plaintext@),
                ok == anchor_pool_ok(pv, anchor as int, passphrase.spec_bytes()),
                ok ==> forall|j1: int, j2: int|
                    0 <= j1 < j2 < count ==> #[trigger] superblock@.manifest[j1].name
                        != #[trigger] superblock@.manifest[j2].name,
                pv == pool@,
                range == superblock.manifest@[r as int],
            decreases r - q,
        {
            proof {
                assert(superblock@.manifest[q as int] == superblock.manifest@[q as int]@);
                assert(superblock@.manifest[r as int] == superblock.manifest@[r as int]@);
                assert(ok ==> superblock@.manifest[q as int].name != superblock@.manifest[r as int].name);
            }
            if same_name(superblock.manifest[q].name.as_str(), range.name.as_str()) {
                return Err(FsError::Manifest("duplicate carrier name".to_string()));
            }
            q += 1;
        }
        let mut k: usize = 0;
        let mut found: Option<usize> = None;
        while k < n
            invariant_except_break
                found is None,
            invariant
                n == items@.len(),
                k <= n,
                items@ == pool_items(pv),
                n == pv.len(),
                first_named(pv, range.name@, 0) == first_named(pv, range.name@, k as int),
            ensures
                found matches Some(f) ==> f < n && f == first_named(pv, range.name@, 0),
                found is None ==> first_named(pv, range.name@, 0) == n,
            decreases n - k,
        {
            match &items[k] {
                Some(c) => {
                    if same_name(c.name.as_str(), range.name.as_str()) {
                        found = Some(k);
                        break;
                    }
                },
                None => {},
            }
            k += 1;
        }
        let idx = match found {
            Some(f) => f,
            None => return Err(FsError::Io("a carrier the manifest names is not in the pool".to_string())),
        };
        if idx == chosen_anchor {
            return Err(FsError::Manifest("the anchor must not appear in the data-carrier manifest".to_string()));
        }
        let c = match &items[idx] {
            Some(c) => c,
            None => return Err(FsError::EmptyPool),
        };
        let codec = match Codec::for_path(c.name.as_str()) {
            Some(k) => k,
            None => return Err(FsError::Manifest("unsupported carrier type".to_string())),
        };
        let expected = match range.block_count.checked_mul(PB as u64) {
            Some(v) => v,
            None => return Err(FsError::Manifest("carrier payload length overflow".to_string())),
        };
        let capacity = match codec.raw_capacity_bytes(&c.image) {
            Ok(v) => v,
            Err(e) => return Err(FsError::Codec(e)),
        };
        if capacity < expected {
            return Err(FsError::Manifest("a carrier no longer has enough capacity".to_string()));
        }
        if expected > usize::MAX as u64 {
            return Err(FsError::Manifest("carrier payload length overflow".to_string()));
        }
        chosen.push(idx);
        primary.push(false);
        r += 1;
    }
    validate_manifest_geometry(&superblock)?;
    proof {
        if ok {
            assert forall|j: int, k: int| 0 <= j < k < chosen@.len() implies #[trigger] chosen@[j] != #[trigger] chosen@[k] by {
                let mj = superblock@.manifest[j];
                let mk = superblock@.manifest[k];
                assert(named_range_found(pv, anchor as int, mj));
                assert(named_range_found(pv, anchor as int, mk));
                lemma_first_named(pv, mj.name, 0);
                lemma_first_named(pv, mk.name, 0);
                assert(mj.name != mk.name);
            }
            assert forall|j: int| 0 <= j < chosen@.len() implies #[trigger] chosen@[j] < items@.len()
                && items@[chosen@[j] as int] is Some by {
                assert(named_range_found(pv, anchor as int, superblock@.manifest[j]));
            }
            assert(chosen_ok(items@, chosen@));
        }
    }
    let store = store_for_manifest(&mut items, &chosen, &primary, &superblock, Some(keys))?;
    Ok((superblock, store))
}

/// Two names are the same string.
pub fn same_name(a: &str, b: &str) -> (r: bool)
    ensures
        r == (a@ == b@),
{
    let x = a.as_bytes();
    let y = b.as_bytes();
    proof {
        broadcast use vstd::utf8::encode_utf8_decode_utf8;

        assert(x@ == encode_utf8(a@));
        assert(y@ == encode_utf8(b@));
        assert(vstd::utf8::decode_utf8(encode_utf8(a@)) == a@);
        assert(vstd::utf8::decode_utf8(encode_utf8(b@)) == b@);
    }
    if x.len() != y.len() {
        return false;
    }
    let n = x.len();
    let mut i: usize = 0;
    while i < n
        invariant
            n == x@.len(),
            n == y@.len(),
            x@ == encode_utf8(a@),
            y@ == encode_utf8(b@),
            i <= n,
            forall|j: int| 0 <= j < i ==> x@[j] == y@[j],
        decreases n - i,
    {
        if x[i] != y[i] {
            assert(x@ != y@);
            return false;
        }
        i += 1;
    }
    assert(x@ =~= y@);
    true
}

/// Opens a plaintext pool.
pub fn open(pool: Vec<Carrier>) -> (res: Result<(Superblock, BlockStore), FsError>)
    ensures
        res matches Ok((sb, store)) ==> store.wf() && !store@.encrypted && !sb_encrypted(sb)
            && geometry_ok(sb@) && store_matches_manifest(store@, sb@),
        opened_from_primary(pool@, res),
        plain_pool_ok(pool@) ==> res is Ok,
{
    open_plaintext(pool)
}

/// Opens a plaintext pool; a passphrase alone cannot open an encrypted one,
/// which needs its anchor image.
pub fn open_with_passphrase(pool: Vec<Carrier>, passphrase: Option<&str>) -> (res: Result<
    (Superblock, BlockStore),
    FsError,
>)
    ensures
        passphrase is Some ==> (res matches Err(FsError::AnchorRequired)),
        res matches Ok((sb, store)) ==> store.wf() && !store@.encrypted && !sb_encrypted(sb)
            && geometry_ok(sb@) && store_matches_manifest(store@, sb@),
        passphrase is None ==> opened_from_primary(pool@, res),
        passphrase is None && plain_pool_ok(pool@) ==> res is Ok,
{
    if passphrase.is_some() {
        return Err(FsError::AnchorRequired);
    }
    open_plaintext(pool)
}

/// The carrier holds a framed chunk marked primary whose block 0 holds a
/// superblock.
pub open spec fn carrier_has_plaintext_fs(name: Seq<char>, img: CarrierView) -> bool {
    match kind_of_path(encode_utf8(name)) {
        None => false,
        Some(k) => match carrier_read_spec(k, img, ChunkRead::Framed, Seq::empty()) {
            Ok((meta, payload)) => meta.flags & 1 != 0 && payload.len() >= PB && match read_plain_spec(
                0,
                payload.subrange(0, PB as int),
            ) {
                Ok(b) => decode_spec(b) is Ok,
                Err(_) => false,
            },
            Err(_) => false,
        },
    }
}

/// Whether some carrier of the pool holds a plaintext filesystem.
fn contains_valid_plaintext_filesystem(items: &Vec<Option<Carrier>>) -> (r: bool)
    ensures
        r == exists|i: int|
            0 <= i < items@.len() && (#[trigger] items@[i]) is Some && carrier_has_plaintext_fs(
                items@[i]->Some_0.name@,
                items@[i]->Some_0.image@,
            ),
{
    let n = items.len();
    let mut i: usize = 0;
    while i < n
        invariant
            n == items@.len(),
            i <= n,
            forall|j: int|
                0 <= j < i ==> !((#[trigger] items@[j]) is Some && carrier_has_plaintext_fs(
                    items@[j]->Some_0.name@,
                    items@[j]->Some_0.image@,
                )),
        decreases n - i,
    {
        if let Some(c) = &items[i] {
            if let Some(codec) = Codec::for_path(c.name.as_str()) {
                let key: Vec<u8> = Vec::new();
                if let Ok((meta, payload)) = codec.read_chunk(&c.image, ChunkRead::Framed, key.as_slice()) {
                    if meta.flags & 1 != 0 && payload.len() >= PB {
                        let first = copy_range(payload.as_slice(), 0, PB);
                        if let Ok(block_zero) = read_physical_block(0, first.as_slice()) {
                            if Superblock::decode(block_zero.as_slice()).is_ok() {
                                assert(carrier_has_plaintext_fs(c.name@, c.image@));
                                return true;
                            }
                        }
                    }
                }
            }
        }
        i += 1;
    }
    false
}

/// Whether the anchor's bootstrap opens with the passphrase to a markerless
/// encrypted superblock.
fn contains_valid_markerless_filesystem(anchor: &Carrier, passphrase: &str) -> (res: Result<bool, FsError>)
    ensures
        kind_of_path(encode_utf8(anchor.name@)) is None ==> (res matches Err(FsError::Manifest(_))),
{
    let codec = match Codec::for_path(anchor.name.as_str()) {
        Some(c) => c,
        None => return Err(FsError::Manifest("unsupported anchor type".to_string())),
    };
    let prefix = match codec.read_prefix(&anchor.image, BOOTSTRAP_LEN) {
        Ok(p) => p,
        Err(e) => return Err(FsError::Codec(e)),
    };
    let (plaintext, _) = match open_bootstrap(passphrase, prefix.as_slice()) {
        Ok(v) => v,
        Err(_) => return Ok(false),
    };
    match Superblock::decode(plaintext.as_slice()) {
        Ok(sb) => Ok(sb.markerless_encrypted()),
        Err(_) => Ok(false),
    }
}

proof fn lemma_sum_counts_prefix_eq(a: Seq<CarrierRangeView>, b: Seq<CarrierRangeView>, j: int)
    requires
        a.len() <= b.len(),
        a == b.take(a.len() as int),
        0 <= j <= a.len(),
    ensures
        sum_counts(a, j) == sum_counts(b, j),
    decreases j,
{
    if j > 0 {
        lemma_sum_counts_prefix_eq(a, b, j - 1);
        assert(a[j - 1] == b[j - 1]);
    }
}

pub open spec fn div_ceil(a: int, b: int) -> int {
    (a + b - 1) / b
}

/// The layout a freshly formatted filesystem has: the bitmap from block 1,
/// then the inode table, then data; at least 64 inodes and one per four
/// blocks; contiguous carrier ranges numbered from 0.
pub open spec fn format_geometry(sb: SuperblockView) -> bool {
    let total = sb.total_blocks as int;
    &&& sb.bitmap_start == 1
    &&& sb.inode_table_start == 1 + div_ceil(div_ceil(total, 8), UB as int)
    &&& sb.inode_count == (if total / 4 > 64 {
        total / 4
    } else {
        64
    })
    &&& sb.data_start == sb.inode_table_start + div_ceil(sb.inode_count as int, 21)
    &&& sb.data_start < total
    &&& sb.root_inode == 1
    &&& geometry_ok(sb)
    &&& forall|i: int| 0 <= i < sb.manifest.len() ==> (#[trigger] sb.manifest[i]).chunk_index == i
}

/// A freshly formatted filesystem has inodes for every four blocks and never
/// fewer than 64: its inode count is the larger of 64 and a quarter of its
/// blocks. Its inode table holds that many inodes, its bitmap has a bit for
/// every block, and data starts after both, inside the filesystem.
pub proof fn lemma_format_capacity(sb: SuperblockView)
    requires
        format_geometry(sb),
    ensures
        sb.inode_count >= 64,
        sb.inode_count >= sb.total_blocks / 4,
        sb.inode_count == 64 || sb.inode_count == sb.total_blocks / 4,
        (sb.data_start - sb.inode_table_start) * 21 >= sb.inode_count,
        (sb.inode_table_start - sb.bitmap_start) * UB * 8 >= sb.total_blocks,
        sb.bitmap_start < sb.inode_table_start <= sb.data_start < sb.total_blocks,
{
    let total = sb.total_blocks as int;
    let n = sb.inode_count as int;
    let u = UB as int;
    assert(div_ceil(n, 21) * 21 >= n) by (nonlinear_arith)
        requires
            div_ceil(n, 21) == (n + 20) / 21,
            n >= 0,
    ;
    let b = div_ceil(total, 8);
    assert(b * 8 >= total) by (nonlinear_arith)
        requires
            b == (total + 7) / 8,
            total >= 0,
    ;
    assert(div_ceil(b, u) * u >= b) by (nonlinear_arith)
        requires
            div_ceil(b, u) == (b + u - 1) / u,
            b >= 0,
            u == 4032,
    ;
    assert(div_ceil(b, u) * u * 8 >= total) by (nonlinear_arith)
        requires
            div_ceil(b, u) * u >= b,
            b * 8 >= total,
    ;
    assert(div_ceil(b, u) >= 1 || total == 0) by (nonlinear_arith)
        requires
            div_ceil(b, u) == (b + u - 1) / u,
            b == (total + 7) / 8,
            total >= 0,
            u == 4032,
    ;
    assert(div_ceil(n, 21) >= 0) by (nonlinear_arith)
        requires
            div_ceil(n, 21) == (n + 20) / 21,
            n >= 0,
    ;
}

pub fn ceil_div(a: u64, b: u64) -> (r: u64)
    requires
        b > 1,
    ensures
        r == div_ceil(a as int, b as int),
{
    assert(a / b < 0xffff_ffff_ffff_ffffu64) by (nonlinear_arith)
        requires
            b > 1,
    ;
    let r = if a % b == 0 {
        a / b
    } else {
        a / b + 1
    };
    assert(r == (a + b - 1) / (b as int)) by (nonlinear_arith)
        requires
            b > 1,
            r == a / b + if a % b == 0 {
                0int
            } else {
                1int
            },
    ;
    r
}

/// The manifest of a plaintext format of the pool: the places of some
/// increasing choice of its carriers, each range as long as its carrier's
/// chunk capacity holds whole blocks.
pub open spec fn plaintext_planned(pool: Seq<Carrier>, manifest: Seq<CarrierRange>) -> bool {
    exists|d: Seq<usize>| #[trigger] planned(pool_items(pool), None, false, d, manifest)
}

/// Some carrier of the pool holds a plaintext filesystem.
pub open spec fn pool_formatted(pool: Seq<Carrier>) -> bool {
    exists|i: int| 0 <= i < pool.len() && #[trigger] carrier_has_plaintext_fs(pool[i].name@, pool[i].image@)
}

/// Place `a` holds the first carrier of the greatest capacity: every
/// capacity can be had, none is greater, and none before it is as great.
pub open spec fn is_largest_first(items: Seq<Option<Carrier>>, a: int) -> bool {
    &&& 0 <= a < items.len()
    &&& item_capacity(items, a) is Ok
    &&& forall|j: int|
        0 <= j < items.len() ==> (#[trigger] item_capacity(items, j) is Ok && item_capacity(items, j)->Ok_0
            <= item_capacity(items, a)->Ok_0 && (j < a ==> item_capacity(items, j)->Ok_0 < item_capacity(
            items,
            a,
        )->Ok_0))
}

/// `name` is the name of the pool's first carrier of the greatest capacity.
pub open spec fn largest_carrier_named(pool: Seq<Carrier>, name: Seq<char>) -> bool {
    exists|a: int| #[trigger] is_largest_first(pool_items(pool), a) && pool[a].name@ == name
}

/// A pool's carriers, each in a place it can be taken out of.
pub open spec fn pool_items(pool: Seq<Carrier>) -> Seq<Option<Carrier>> {
    pool.map_values(|c: Carrier| Some(c))
}

/// The places the format takes into its manifest, in pool order, up to
/// place `upto`: one range for each, none is the anchor, each range's block
/// count is its carrier's capacity divided by the block size, and every
/// other carrier below `upto` has a capacity that holds no whole block.
#[verifier::opaque]
pub open spec fn planned_upto(
    items: Seq<Option<Carrier>>,
    anchor: Option<usize>,
    encrypted: bool,
    data_idx: Seq<usize>,
    manifest: Seq<CarrierRange>,
    upto: int,
) -> bool {
    &&& data_idx.len() == manifest.len()
    &&& forall|j: int, k: int| 0 <= j < k < data_idx.len() ==> #[trigger] data_idx[j] < #[trigger] data_idx[k]
    &&& forall|j: int| 0 <= j < data_idx.len() ==> anchor != Some(#[trigger] data_idx[j])
    &&& forall|j: int|
        0 <= j < data_idx.len() ==> plan_capacity(items[#[trigger] data_idx[j] as int]->Some_0, encrypted) is Ok
            && manifest[j].block_count == plan_capacity(items[data_idx[j] as int]->Some_0, encrypted)->Ok_0
            / PB as u64
    &&& forall|p: int|
        0 <= p < upto && anchor != Some(p as usize) ==> (#[trigger] items[p]) is Some && plan_capacity(
            items[p]->Some_0,
            encrypted,
        ) is Ok && (plan_capacity(items[p]->Some_0, encrypted)->Ok_0 / PB as u64 > 0 ==> exists|j: int|
            0 <= j < data_idx.len() && #[trigger] data_idx[j] == p)
}

/// The places the format takes into its manifest: `planned_upto` over the
/// whole pool.
pub open spec fn planned(
    items: Seq<Option<Carrier>>,
    anchor: Option<usize>,
    encrypted: bool,
    data_idx: Seq<usize>,
    manifest: Seq<CarrierRange>,
) -> bool {
    planned_upto(items, anchor, encrypted, data_idx, manifest, items.len() as int)
}

/// The capacity the format plans a carrier by: its raw capacity in an
/// encrypted pool, or the capacity of a framed chunk in a plaintext one.
pub open spec fn plan_capacity(c: Carrier, encrypted: bool) -> Result<u64, CodecFault> {
    match kind_of_path(encode_utf8(c.name@)) {
        None => Err(CodecFault::Image),
        Some(k) => if encrypted {
            carrier_raw_capacity(k, c.image@)
        } else {
            carrier_capacity(k, c.image@)
        },
    }
}

/// The manifest a format lays out: every carrier but the anchor whose
/// capacity holds at least one block, in pool order, with its block range;
/// and the places of those carriers in the pool.
fn plan_manifest(items: &Vec<Option<Carrier>>, anchor: Option<usize>, encrypted: bool) -> (res: Result<
    (Vec<usize>, Vec<CarrierRange>),
    FsError,
>)
    ensures
        res matches Ok((data_idx, manifest)) ==> data_idx@.len() == manifest@.len() && manifest@.len()
            > 0 && (forall|j: int| 0 <= j < data_idx@.len() ==> #[trigger] data_idx@[j] < items@.len())
            && sum_counts(range_views(manifest@), manifest@.len() as int) <= u64::MAX && (forall|j: int|
            0 <= j < manifest@.len() ==> (#[trigger] manifest@[j]).chunk_index == j
                && manifest@[j].block_start == sum_counts(range_views(manifest@), j)
                && manifest@[j].block_count > 0 && manifest@[j].block_count * PB <= usize::MAX),
        res matches Ok((data_idx, manifest)) ==> planned(items@, anchor, encrypted, data_idx@, manifest@),
{
    proof {
        reveal(planned_upto);
    }
    let n = items.len();
    let mut data_idx: Vec<usize> = Vec::new();
    let mut manifest: Vec<CarrierRange> = Vec::new();
    let mut block_start: u64 = 0;
    let mut i: usize = 0;
    while i < n
        invariant
            n == items@.len(),
            i <= n,
            data_idx@.len() == manifest@.len(),
            manifest@.len() <= i,
            forall|j: int| 0 <= j < data_idx@.len() ==> #[trigger] data_idx@[j] < n,
            block_start == sum_counts(range_views(manifest@), manifest@.len() as int),
            forall|j: int|
                0 <= j < manifest@.len() ==> (#[trigger] manifest@[j]).chunk_index == j
                    && manifest@[j].block_start == sum_counts(range_views(manifest@), j)
                    && manifest@[j].block_count > 0 && manifest@[j].block_count * PB <= usize::MAX,
            planned_upto(items@, anchor, encrypted, data_idx@, manifest@, i as int),
            forall|j: int| 0 <= j < data_idx@.len() ==> #[trigger] data_idx@[j] < i,
        decreases n - i,
    {
        proof {
            reveal(planned_upto);
        }
        let ghost d0 = data_idx@;
        let is_anchor = match anchor {
            Some(a) => a == i,
            None => false,
        };
        if !is_anchor {
            let c = match &items[i] {
                Some(c) => c,
                None => return Err(FsError::EmptyPool),
            };
            let codec = match Codec::for_path(c.name.as_str()) {
                Some(k) => k,
                None => return Err(FsError::Manifest("unsupported carrier type".to_string())),
            };
            let capacity = if encrypted {
                codec.raw_capacity_bytes(&c.image)
            } else {
                codec.capacity_bytes(&c.image)
            };
            let capacity = match capacity {
                Ok(v) => v,
                Err(e) => return Err(FsError::Codec(e)),
            };
            proof {
                assert(plan_capacity(items@[i as int]->Some_0, encrypted) == Ok::<u64, CodecFault>(capacity));
            }
            let block_count = capacity / PB as u64;
            if block_count > 0 {
                if block_count > (usize::MAX / PB) as u64 {
                    return Err(FsError::Manifest("a carrier is too large".to_string()));
                }
                let name = if encrypted {
                    validate_name(c.name.as_str())?;
                    let m = manifest.len();
                    let mut q: usize = 0;
                    while q < m
                        invariant
                            m == manifest@.len(),
                            q <= m,
                        decreases m - q,
                    {
                        if same_name(manifest[q].name.as_str(), c.name.as_str()) {
                            return Err(FsError::Manifest("duplicate carrier name".to_string()));
                        }
                        q += 1;
                    }
                    c.name.clone()
                } else {
                    String::new()
                };
                let next = match block_start.checked_add(block_count) {
                    Some(v) => v,
                    None => return Err(FsError::Manifest("the pool has too many blocks".to_string())),
                };
                if manifest.len() >= u32::MAX as usize {
                    return Err(FsError::Manifest("the pool has too many carriers".to_string()));
                }
                let ghost before = manifest@;
                let chunk_index = manifest.len() as u32;
                manifest.push(CarrierRange { name, chunk_index, block_start, block_count });
                data_idx.push(i);
                proof {
                    let v = range_views(manifest@);
                    assert(range_views(before) =~= v.take(before.len() as int));
                    assert forall|j: int| 0 <= j <= before.len() implies sum_counts(v, j)
                        == sum_counts(range_views(before), j) by {
                        lemma_sum_counts_prefix_eq(range_views(before), v, j);
                    }
                    assert(v[before.len() as int].block_count == block_count);
                    lemma_sum_counts_step(v, before.len() as int);
                }
                block_start = next;
                proof {
                    assert forall|p: int|
                        0 <= p < i + 1 && anchor != Some(p as usize) implies (#[trigger] items@[p]) is Some
                            && plan_capacity(items@[p]->Some_0, encrypted) is Ok && (plan_capacity(
                            items@[p]->Some_0,
                            encrypted,
                        )->Ok_0 / PB as u64 > 0 ==> exists|j: int|
                            0 <= j < data_idx@.len() && #[trigger] data_idx@[j] == p) by {
                        if p == i {
                            assert(data_idx@[d0.len() as int] == p);
                        } else if plan_capacity(items@[p]->Some_0, encrypted)->Ok_0 / PB as u64 > 0 {
                            let j = choose|j: int| 0 <= j < d0.len() && #[trigger] d0[j] == p;
                            assert(data_idx@[j] == p);
                        }
                    }
                }
            }
        }
        i += 1;
    }
    if manifest.len() == 0 {
        return Err(FsError::EmptyPool);
    }
    Ok((data_idx, manifest))
}

/// Writes a fresh filesystem into the store: every block zeroed, the
/// superblock in block 0 of a plaintext filesystem, the bitmap marking the
/// metadata blocks and the root directory's block, the root directory and
/// its inode.
fn initialize_blocks(store: &mut BlockStore, superblock: &Superblock) -> (res: Result<(), FsError>)
    requires
        old(store).wf(),
        1 <= superblock.bitmap_start <= superblock.inode_table_start,
        superblock.data_start < superblock.total_blocks,
    ensures
        final(store).wf(),
        final(store)@.slots.len() == old(store)@.slots.len(),
{
    let total_blocks = superblock.total_blocks;
    let zero = zero_bytes(UB);
    let ghost slots = store@.slots.len();
    let mut lba: u64 = 0;
    while lba < total_blocks
        invariant
            store.wf(),
            store@.slots.len() == slots,
            slots == old(store)@.slots.len(),
            zero@.len() == UB,
        decreases total_blocks - lba,
    {
        store.write_block(lba, zero.as_slice())?;
        lba += 1;
    }
    if !superblock.encrypted() {
        let encoded = superblock.encode();
        if encoded.len() > UB {
            return Err(FsError::Manifest("the superblock does not fit one block".to_string()));
        }
        store.write_block(0, encoded.as_slice())?;
    }
    if total_blocks / 8 >= usize::MAX as u64 {
        return Err(FsError::Manifest("the pool has too many blocks".to_string()));
    }
    let mut bitmap = Bitmap::new(total_blocks);
    let data_start = superblock.data_start;
    let mut block: u64 = 0;
    while block < data_start
        invariant
            bitmap.wf(),
            bitmap.total() == total_blocks,
        decreases data_start - block,
    {
        bitmap.set(block);
        block += 1;
    }
    let root_block = bitmap.alloc_from(data_start)?;
    let directory = initial_directory_block(1, 1)?;
    store.write_block(root_block, directory.as_slice())?;
    let mut root = Inode::default();
    root.mode = S_IFDIR | 0o755;
    root.nlink = 2;
    root.size = UB as u64;
    root.block_count = 1;
    root.direct[0] = root_block;
    let mut table = store.read_block(superblock.inode_table_start)?;
    let encoded_root = root.encode();
    write_at(&mut table, 0, encoded_root.as_slice());
    store.write_block(superblock.inode_table_start, table.as_slice())?;
    write_bitmap(store, superblock, &bitmap)?;
    Ok(())
}

/// Puts the carriers a store held back into their places in the pool.
fn return_carriers(items: &mut Vec<Option<Carrier>>, data_idx: &Vec<usize>, carriers: Vec<Carrier>) -> (res:
    Result<(), FsError>)
    requires
        carriers@.len() == data_idx@.len(),
        forall|j: int| 0 <= j < data_idx@.len() ==> #[trigger] data_idx@[j] < old(items)@.len(),
    ensures
        res is Ok,
        final(items)@.len() == old(items)@.len(),
        forall|p: int|
            0 <= p < old(items)@.len() && (forall|j: int| 0 <= j < data_idx@.len() ==> #[trigger] data_idx@[j] != p)
                ==> #[trigger] final(items)@[p] == old(items)@[p],
        forall|j: int|
            0 <= j < data_idx@.len() && (forall|i: int| 0 <= i < j ==> #[trigger] data_idx@[i] != data_idx@[j])
                ==> #[trigger] final(items)@[data_idx@[j] as int] == Some(carriers@[j]),
{
    let ghost cs = carriers@;
    let mut written = carriers;
    let count = data_idx.len();
    let n = items.len();
    let mut k = count;
    while k > 0
        invariant
            k <= count,
            count == data_idx@.len(),
            written@ == cs.subrange(0, k as int),
            cs.len() == count,
            n == items@.len(),
            n == old(items)@.len(),
            forall|j: int| 0 <= j < data_idx@.len() ==> #[trigger] data_idx@[j] < n,
            forall|p: int|
                0 <= p < n && (forall|j: int| k <= j < count ==> #[trigger] data_idx@[j] != p) ==> #[trigger] items@[p]
                    == old(items)@[p],
            forall|j: int|
                k <= j < count && (forall|i: int| k <= i < j ==> #[trigger] data_idx@[i] != data_idx@[j])
                    ==> #[trigger] items@[data_idx@[j] as int] == Some(cs[j]),
        decreases k,
    {
        k -= 1;
        let ghost before = items@;
        let c = match written.pop() {
            Some(c) => c,
            None => return Err(FsError::EmptyPool),
        };
        proof {
            assert(c == cs[k as int]);
            assert(written@ =~= cs.subrange(0, k as int));
        }
        items.set(data_idx[k], Some(c));
        proof {
            assert forall|p: int|
                0 <= p < n && (forall|j: int| k <= j < count ==> #[trigger] data_idx@[j] != p) implies #[trigger] items@[p]
                    == old(items)@[p] by {
                assert(data_idx@[k as int] != p);
                assert forall|j: int| k + 1 <= j < count implies #[trigger] data_idx@[j] != p by {
                    assert(data_idx@[j] != p);
                }
            }
            assert forall|j: int|
                k <= j < count && (forall|i: int| k <= i < j ==> #[trigger] data_idx@[i] != data_idx@[j])
                    implies #[trigger] items@[data_idx@[j] as int] == Some(cs[j]) by {
                if j > k {
                    assert(data_idx@[k as int] != data_idx@[j]);
                    assert forall|i: int| k + 1 <= i < j implies #[trigger] data_idx@[i] != data_idx@[j] by {
                        assert(data_idx@[i] != data_idx@[j]);
                    }
                    assert(before[data_idx@[j] as int] == Some(cs[j]));
                }
            }
        }
    }
    Ok(())
}

/// Formats the pool: every carrier whose capacity holds at least one block
/// joins the manifest, in pool order; an encrypted format keeps the largest
/// carrier, or the requested one, aside as the anchor. Refuses to overwrite
/// an existing filesystem unless `force` is set.
#[verifier::rlimit(60)]
pub fn format_with_anchor_options(
    pool: Vec<Carrier>,
    passphrase: Option<&str>,
    requested_anchor: Option<usize>,
    force: bool,
) -> (res: Result<FormatResult, FsError>)
    ensures
        requested_anchor is Some && passphrase is None ==> (res matches Err(FsError::Manifest(_))),
        !(requested_anchor is Some && passphrase is None) && pool@.len() == 0 ==> (res matches Err(
            FsError::EmptyPool,
        )),
        res matches Ok(r) ==> format_geometry(r.superblock@) && (r.anchor is Some
            <==> passphrase is Some) && (passphrase is Some <==> sb_encrypted(r.superblock))
            && r.superblock.version == (if passphrase is Some {
            MARKERLESS_FS_VERSION
        } else {
            FS_VERSION
        }),
        passphrase is None && requested_anchor is None && !force && pool_formatted(pool@) ==> (res matches Err(
            FsError::AlreadyFormatted,
        )),
        passphrase is None && res is Ok ==> plaintext_planned(pool@, res->Ok_0.superblock.manifest@),
        res is Ok && !force ==> !pool_formatted(pool@),
        res is Ok && requested_anchor is Some ==> res->Ok_0.anchor is Some && res->Ok_0.anchor->Some_0@
            == pool@[requested_anchor->Some_0 as int].name@,
        res is Ok && passphrase is Some && requested_anchor is None ==> res->Ok_0.anchor is Some
            && largest_carrier_named(pool@, res->Ok_0.anchor->Some_0@),
        res matches Ok(r) ==> r.superblock.inode_count >= 64 && r.superblock.inode_count >= r.superblock.total_blocks
            / 4 && (r.superblock.inode_count == 64 || r.superblock.inode_count == r.superblock.total_blocks / 4),
{
    if requested_anchor.is_some() && passphrase.is_none() {
        return Err(FsError::Manifest("an anchor requires an encrypted format with a passphrase".to_string()));
    }
    let n = pool.len();
    if n == 0 {
        return Err(FsError::EmptyPool);
    }
    let mut items = to_items(pool);
    proof {
        assert(items@ =~= pool_items(pool@));
    }
    let anchor: Option<usize> = match passphrase {
        Some(_) => Some(select_anchor(&items, requested_anchor)?),
        None => None,
    };
    proof {
        if requested_anchor is None && anchor is Some {
            assert(is_largest_first(pool_items(pool@), anchor->Some_0 as int));
        }
    }
    assert(pool_formatted(pool@) ==> exists|
        i: int|
        0 <= i < items@.len() && (#[trigger] items@[i]) is Some && carrier_has_plaintext_fs(
            items@[i]->Some_0.name@,
            items@[i]->Some_0.image@,
        )) by {
        if pool_formatted(pool@) {
            let i = choose|i: int| 0 <= i < pool@.len() && #[trigger] carrier_has_plaintext_fs(pool@[i].name@, pool@[i].image@);
            assert(items@[i] is Some && carrier_has_plaintext_fs(items@[i]->Some_0.name@, items@[i]->Some_0.image@));
        }
    }
    if !force && contains_valid_plaintext_filesystem(&items) {
        return Err(FsError::AlreadyFormatted);
    }
    if !force {
        if let (Some(p), Some(a)) = (passphrase, anchor) {
            if let Some(c) = &items[a] {
                if contains_valid_markerless_filesystem(c, p)? {
                    return Err(FsError::AlreadyFormatted);
                }
            }
        }
    }
    let encrypted = passphrase.is_some();
    let ghost orig_items = items@;
    let (data_idx, manifest) = plan_manifest(&items, anchor, encrypted)?;
    proof {
        reveal(planned_upto);
        assert(orig_items =~= pool_items(pool@));
    }
    let count = manifest.len();
    let total_blocks = manifest[count - 1].block_start + manifest[count - 1].block_count;
    proof {
        let v = range_views(manifest@);
        assert(v[count - 1] == manifest@[count - 1]@);
        lemma_sum_counts_step(v, count - 1);
    }
    let bitmap_start: u64 = 1;
    let bitmap_blocks = ceil_div(ceil_div(total_blocks, 8), UB as u64);
    let inode_table_start = bitmap_start + bitmap_blocks;
    let inode_count = if total_blocks / 4 > 64 {
        total_blocks / 4
    } else {
        64
    };
    let inode_table_blocks = ceil_div(inode_count, 21);
    let data_start = inode_table_start + inode_table_blocks;
    if data_start >= total_blocks {
        return Err(FsError::EmptyPool);
    }
    let superblock = if encrypted {
        Superblock::markerless(total_blocks, inode_count, bitmap_start, inode_table_start, data_start, manifest)
    } else {
        Superblock::standard(
            total_blocks,
            inode_count,
            bitmap_start,
            inode_table_start,
            data_start,
            manifest,
            false,
        )
    };
    assert(passphrase is None ==> planned(pool_items(pool@), None, false, data_idx@, superblock.manifest@));
    proof {
        assert(range_views(superblock.manifest@) =~= superblock@.manifest);
        assert forall|j: int| 0 <= j < superblock@.manifest.len() implies (#[trigger] superblock@.manifest[j]).chunk_index
            == j && superblock@.manifest[j].block_start == sum_counts(superblock@.manifest, j)
            && superblock@.manifest[j].block_count > 0 by {
            assert(superblock@.manifest[j] == superblock.manifest@[j]@);
        }
    }
    let (bootstrap, keys) = match passphrase {
        Some(p) => {
            let encoded = superblock.encode();
            let (b, k) = create_bootstrap(p, encoded.as_slice())?;
            (Some(b), Some(k))
        },
        None => (None, None),
    };
    let mut carriers: Vec<Carrier> = Vec::new();
    let mut k: usize = 0;
    while k < count
        invariant
            !(requested_anchor is Some && passphrase is None),
            pool@.len() > 0,
            count == data_idx@.len(),
            k <= count,
            carriers@.len() == k,
            n == items@.len(),
            forall|j: int| 0 <= j < data_idx@.len() ==> #[trigger] data_idx@[j] < n,
            !(!force && pool_formatted(pool@)),
            anchor matches Some(a) ==> a < n && items@[a as int] == Some(pool@[a as int]) && forall|j: int|
                0 <= j < data_idx@.len() ==> #[trigger] data_idx@[j] != a,
            requested_anchor is Some ==> anchor == requested_anchor,
            requested_anchor is None && anchor is Some ==> is_largest_first(pool_items(pool@), anchor->Some_0 as int),
            n == pool@.len(),
        decreases count - k,
    {
        match take_item(&mut items, data_idx[k]) {
            Some(c) => carriers.push(c),
            None => return Err(FsError::EmptyPool),
        }
        k += 1;
    }
    let mut store = BlockStore::new_for_format(carriers, superblock.manifest.as_slice(), keys);
    initialize_blocks(&mut store, &superblock)?;
    store.flush()?;
    let written = store.into_carriers();
    return_carriers(&mut items, &data_idx, written)?;
    let anchor_name = match (anchor, bootstrap) {
        (Some(a), Some(b)) => {
            if a >= items.len() {
                return Err(FsError::EmptyPool);
            }
            match take_item(&mut items, a) {
                Some(mut c) => {
                    assert(c == pool@[a as int]);
                    assert(requested_anchor is None ==> is_largest_first(pool_items(pool@), a as int));
                    let codec = match Codec::for_path(c.name.as_str()) {
                        Some(k) => k,
                        None => return Err(FsError::Manifest("unsupported anchor type".to_string())),
                    };
                    match codec.write_prefix(&mut c.image, b.as_slice()) {
                        Ok(()) => {},
                        Err(e) => return Err(FsError::Codec(e)),
                    }
                    c.modified = true;
                    let name = c.name.clone();
                    items.set(a, Some(c));
                    Some(name)
                },
                None => return Err(FsError::EmptyPool),
            }
        },
        _ => None,
    };
    proof {
        assert(1u32 & 1u32 != 0) by (bit_vector);
        assert(0u32 & 1u32 == 0) by (bit_vector);
        assert(geometry_ok(superblock@));
        assert(format_geometry(superblock@));
        lemma_format_capacity(superblock@);
    }
    assert(passphrase is None ==> plaintext_planned(pool@, superblock.manifest@));
    Ok(FormatResult { superblock, anchor: anchor_name, carriers: from_items(items) })
}

/// Formats a pool in plaintext.
pub fn format(pool: Vec<Carrier>) -> (res: Result<FormatResult, FsError>)
    ensures
        pool@.len() == 0 ==> (res matches Err(FsError::EmptyPool)),
        res matches Ok(r) ==> format_geometry(r.superblock@) && !sb_encrypted(r.superblock)
            && r.anchor is None,
        pool_formatted(pool@) ==> (res matches Err(FsError::AlreadyFormatted)),
        res is Ok ==> plaintext_planned(pool@, res->Ok_0.superblock.manifest@),
        res matches Ok(r) ==> r.superblock.inode_count >= 64 && r.superblock.inode_count >= r.superblock.total_blocks
            / 4 && (r.superblock.inode_count == 64 || r.superblock.inode_count == r.superblock.total_blocks / 4),
{
    format_with_anchor_options(pool, None, None, false)
}

/// Formats a pool, encrypted where a passphrase is given.
pub fn format_with_passphrase(pool: Vec<Carrier>, passphrase: Option<&str>) -> (res: Result<
    FormatResult,
    FsError,
>)
    ensures
        pool@.len() == 0 ==> (res matches Err(FsError::EmptyPool)),
        res matches Ok(r) ==> format_geometry(r.superblock@) && (passphrase is Some <==> sb_encrypted(
            r.superblock,
        )),
        passphrase is None && pool_formatted(pool@) ==> (res matches Err(FsError::AlreadyFormatted)),
        res is Ok ==> !pool_formatted(pool@),
        passphrase is None && res is Ok ==> plaintext_planned(pool@, res->Ok_0.superblock.manifest@),
        res matches Ok(r) ==> r.superblock.inode_count >= 64 && r.superblock.inode_count >= r.superblock.total_blocks
            / 4 && (r.superblock.inode_count == 64 || r.superblock.inode_count == r.superblock.total_blocks / 4),
{
    format_with_anchor_options(pool, passphrase, None, false)
}

/// Formats a pool, overwriting an existing filesystem where `force` is set.
pub fn format_with_options(pool: Vec<Carrier>, passphrase: Option<&str>, force: bool) -> (res: Result<
    FormatResult,
    FsError,
>)
    ensures
        pool@.len() == 0 ==> (res matches Err(FsError::EmptyPool)),
        res matches Ok(r) ==> format_geometry(r.superblock@) && (passphrase is Some <==> sb_encrypted(
            r.superblock,
        )),
        passphrase is None && !force && pool_formatted(pool@) ==> (res matches Err(FsError::AlreadyFormatted)),
        res is Ok && !force ==> !pool_formatted(pool@),
        passphrase is None && res is Ok ==> plaintext_planned(pool@, res->Ok_0.superblock.manifest@),
        res matches Ok(r) ==> r.superblock.inode_count >= 64 && r.superblock.inode_count >= r.superblock.total_blocks
            / 4 && (r.superblock.inode_count == 64 || r.superblock.inode_count == r.superblock.total_blocks / 4),
{
    format_with_anchor_options(pool, passphrase, None, force)
}

} // verus!
