//! A summary of a filesystem's use: blocks, inodes and how full each
//! carrier is.

use super::album::{inode_readable, lemma_used_count_loaded, used_count, AlbumFs};
use super::bitmap::Bitmap;
use super::block::{sum_counts, BlockStore, Carrier};
use super::bitmap::count_clear;
use super::format::{
    bitmap_len, geometry_ok, load_bitmap, open_with_anchor, open_with_passphrase, sb_encrypted,
    stored_bitmap, first_primary, primary_superblock, anchor_bootstrap, bootstrap_plaintext,
};
use super::superblock::Superblock;
use super::FsError;
use vstd::prelude::*;
use vstd::string::StringSliceAdditionalSpecFns;

verus! {

#[derive(Debug, Clone, PartialEq)]
pub struct CarrierFill {
    pub chunk_index: u32,
    pub used_blocks: u64,
    pub capacity_blocks: u64,
}

#[derive(Debug, Clone, PartialEq)]
pub struct FsStats {
    pub block_size: u32,
    pub total_blocks: u64,
    pub free_blocks: u64,
    pub used_inodes: u64,
    pub total_inodes: u64,
    pub encrypted: bool,
    pub carriers: Vec<CarrierFill>,
}

/// How many of the `count` blocks from `start` are in use.
pub open spec fn used_in_range(bits: Seq<bool>, start: int, count: nat) -> nat
    decreases count,
{
    if count == 0 {
        0
    } else {
        used_in_range(bits, start, (count - 1) as nat) + if 0 <= start + count - 1 < bits.len()
            && bits[start + count - 1] {
            1nat
        } else {
            0nat
        }
    }
}

impl FsStats {
    /// Less than a tenth of the blocks is free.
    pub fn low_space(&self) -> (low: bool)
        ensures
            low == (self.total_blocks != 0 && self.free_blocks * 100 < self.total_blocks * 10),
    {
        self.total_blocks != 0 && (self.free_blocks as u128) * 100 < (self.total_blocks as u128)
            * 10
    }
}

/// How many blocks of a carrier's range are in use.
fn used_blocks(bitmap: &Bitmap, start: u64, count: u64) -> (n: u64)
    requires
        bitmap.wf(),
    ensures
        n == used_in_range(bitmap@, start as int, count as nat),
{
    let mut used: u64 = 0;
    let mut k: u64 = 0;
    proof {
        bitmap.lemma_len();
    }
    while k < count
        invariant
            bitmap.wf(),
            bitmap@.len() == bitmap.total(),
            k <= count,
            used == used_in_range(bitmap@, start as int, k as nat),
            used <= k,
        decreases count - k,
    {
        if start <= u64::MAX - k {
            if bitmap.is_set(start + k) {
                used += 1;
            }
        }
        k += 1;
    }
    used
}

/// The statistics of a filesystem with superblock `sb` whose blocks in
/// use are `used`: its geometry, its free blocks, and for each carrier of
/// the manifest its capacity and how many of its blocks are in use.
pub open spec fn stats_of(stats: FsStats, sb: Superblock, used: Seq<bool>) -> bool {
    &&& stats.block_size == sb.block_size
    &&& stats.total_blocks == sb.total_blocks
    &&& stats.total_inodes == sb.inode_count
    &&& stats.encrypted == sb_encrypted(sb)
    &&& stats.used_inodes <= sb.inode_count
    &&& used.len() == sb.total_blocks
    &&& stats.free_blocks == count_clear(used)
    &&& stats.carriers@.len() == sb.manifest@.len()
    &&& forall|i: int|
        0 <= i < stats.carriers@.len() ==> (#[trigger] stats.carriers@[i]).chunk_index
            == sb.manifest@[i].chunk_index && stats.carriers@[i].capacity_blocks
            == sb.manifest@[i].block_count && stats.carriers@[i].used_blocks == used_in_range(
            used,
            sb.manifest@[i].block_start as int,
            sb.manifest@[i].block_count as nat,
        )
}

/// The capacities of the first `n` carriers, added up.
pub open spec fn sum_capacity(c: Seq<CarrierFill>, n: int) -> int
    decreases n,
{
    if n <= 0 {
        0
    } else {
        sum_capacity(c, n - 1) + c[n - 1].capacity_blocks
    }
}

/// The blocks in use of the first `n` carriers, added up.
pub open spec fn sum_used(c: Seq<CarrierFill>, n: int) -> int
    decreases n,
{
    if n <= 0 {
        0
    } else {
        sum_used(c, n - 1) + c[n - 1].used_blocks
    }
}

/// Counting blocks in use over two adjacent ranges counts them over both.
proof fn lemma_used_split(bits: Seq<bool>, start: int, a: nat, b: nat)
    ensures
        used_in_range(bits, start, a + b) == used_in_range(bits, start, a) + used_in_range(
            bits,
            start + a,
            b,
        ),
    decreases b,
{
    if b > 0 {
        lemma_used_split(bits, start, a, (b - 1) as nat);
        assert((a + b - 1) as nat == a + (b - 1) as nat);
    }
}

/// Counting from the start over a prefix of the bits sees that prefix
/// only.
proof fn lemma_used_prefix(bits: Seq<bool>, n: nat)
    requires
        n <= bits.len(),
    ensures
        used_in_range(bits, 0, n) == used_in_range(bits.subrange(0, n as int), 0, n),
    decreases n,
{
    if n > 0 {
        lemma_used_prefix(bits, (n - 1) as nat);
        lemma_used_prefix(bits.subrange(0, n as int), (n - 1) as nat);
        assert(bits.subrange(0, n as int).subrange(0, n - 1) =~= bits.subrange(0, n - 1));
    }
}

/// Every block is in use or free.
proof fn lemma_used_plus_free(bits: Seq<bool>)
    ensures
        used_in_range(bits, 0, bits.len()) + count_clear(bits) == bits.len(),
    decreases bits.len(),
{
    if bits.len() > 0 {
        let n = bits.len();
        let d = bits.drop_last();
        lemma_used_plus_free(d);
        lemma_used_prefix(bits, (n - 1) as nat);
        lemma_used_prefix(d, (n - 1) as nat);
        assert(bits.subrange(0, n - 1) =~= d);
        assert(d.subrange(0, n - 1) =~= d);
    }
}

/// Over the first `k` carriers, the capacities add up to the blocks the
/// first `k` manifest entries span, and the blocks in use to those in use
/// among them.
proof fn lemma_sums_prefix(stats: FsStats, sb: Superblock, used: Seq<bool>, k: int)
    requires
        geometry_ok(sb@),
        stats_of(stats, sb, used),
        0 <= k <= stats.carriers@.len(),
    ensures
        sum_capacity(stats.carriers@, k) == sum_counts(sb@.manifest, k),
        sum_used(stats.carriers@, k) == used_in_range(used, 0, sum_counts(sb@.manifest, k) as nat),
    decreases k,
{
    let c = stats.carriers@;
    let m = sb@.manifest;
    if k > 0 {
        lemma_sums_prefix(stats, sb, used, k - 1);
        assert(m[k - 1].block_start == sum_counts(m, k - 1));
        assert(c[k - 1].capacity_blocks == m[k - 1].block_count);
        assert(sum_counts(m, k) == sum_counts(m, k - 1) + m[k - 1].block_count);
        lemma_used_split(used, 0, sum_counts(m, k - 1) as nat, m[k - 1].block_count as nat);
    }
}

/// The carriers' capacities add up to the filesystem's blocks, and their
/// blocks in use and the free blocks to the same total.
pub proof fn lemma_stats_add_up(stats: FsStats, sb: Superblock, used: Seq<bool>)
    requires
        geometry_ok(sb@),
        stats_of(stats, sb, used),
    ensures
        sum_capacity(stats.carriers@, stats.carriers@.len() as int) == stats.total_blocks,
        sum_used(stats.carriers@, stats.carriers@.len() as int) + stats.free_blocks == stats.total_blocks,
{
    lemma_sums_prefix(stats, sb, used, stats.carriers@.len() as int);
    lemma_used_plus_free(used);
}

/// The statistics of an opened filesystem.
fn collect_opened(opened: Superblock, store: BlockStore) -> (res: Result<FsStats, FsError>)
    requires
        store.wf(),
    ensures
        res matches Ok(stats) ==> exists|used: Seq<bool>| #[trigger] stats_of(stats, opened, used),
        res matches Ok(stats) ==> stats.used_inodes == used_count(store@, opened, opened.inode_count as nat),
        opened.total_blocks / 8 < usize::MAX && (opened.bitmap_start <= opened.inode_table_start
            ==> stored_bitmap(
            store@,
            opened.bitmap_start,
            (opened.inode_table_start - opened.bitmap_start) as nat,
            bitmap_len(opened.total_blocks) as nat,
        ) is Ok) && (forall|k: u64|
            1 <= k <= opened.inode_count ==> #[trigger] inode_readable(store@, opened, k)) ==> res is Ok,
{
    let ghost s0 = store@;
    let mut store = store;
    if opened.total_blocks / 8 >= usize::MAX as u64 {
        return Err(FsError::Manifest("the filesystem has too many blocks".to_string()));
    }
    let bitmap = if opened.bitmap_start <= opened.inode_table_start {
        load_bitmap(&mut store, &opened)?
    } else {
        let empty: Vec<u8> = Vec::new();
        Bitmap::from_bytes(empty.as_slice(), opened.total_blocks)
    };
    let n = opened.manifest.len();
    let mut carriers: Vec<CarrierFill> = Vec::new();
    let mut i: usize = 0;
    while i < n
        invariant
            n == opened.manifest@.len(),
            bitmap.wf(),
            i <= n,
            carriers@.len() == i,
            forall|j: int|
                0 <= j < i ==> (#[trigger] carriers@[j]).chunk_index == opened.manifest@[j].chunk_index
                    && carriers@[j].capacity_blocks == opened.manifest@[j].block_count
                    && carriers@[j].used_blocks == used_in_range(
                    bitmap@,
                    opened.manifest@[j].block_start as int,
                    opened.manifest@[j].block_count as nat,
                ),
        decreases n - i,
    {
        let range = &opened.manifest[i];
        let used = used_blocks(&bitmap, range.block_start, range.block_count);
        carriers.push(
            CarrierFill {
                chunk_index: range.chunk_index,
                used_blocks: used,
                capacity_blocks: range.block_count,
            },
        );
        i += 1;
    }
    let free_blocks = bitmap.count_free();
    let block_size = opened.block_size;
    let total_blocks = opened.total_blocks;
    let total_inodes = opened.inode_count;
    let encrypted = opened.encrypted();
    let ghost used = bitmap@;
    let ghost sb = opened;
    proof {
        bitmap.lemma_len();
    }
    let ghost s1 = store@;
    let mut fs = AlbumFs::from_parts(store, opened, bitmap);
    proof {
        lemma_used_count_loaded(s0, s1, opened, opened.inode_count as nat);
    }
    let used_inodes = fs.used_inodes()?;
    let stats = FsStats {
        block_size,
        total_blocks,
        free_blocks,
        used_inodes,
        total_inodes,
        encrypted,
        carriers,
    };
    assert(stats_of(stats, sb, used));
    assert(sb == opened);
    let r: Result<FsStats, FsError> = Ok(stats);
    assert(r->Ok_0 == stats);
    assert(stats_of(r->Ok_0, opened, used));
    r
}

/// The statistics of a plaintext pool.
pub fn collect(pool: Vec<Carrier>, passphrase: Option<&str>) -> (res: Result<FsStats, FsError>)
    ensures
        passphrase is Some ==> (res matches Err(FsError::AnchorRequired)),
        res matches Ok(stats) ==> !stats.encrypted && exists|sb: Superblock, used: Seq<bool>|
            geometry_ok(sb@) && stats_of(stats, sb, used),
        passphrase is None && first_primary(pool@, 0) is None ==> (res matches Err(FsError::NoPrimary)),
        res is Ok ==> first_primary(pool@, 0) is Some && exists|sb: Superblock, used: Seq<bool>|
            #[trigger] stats_of(res->Ok_0, sb, used) && primary_superblock(first_primary(pool@, 0)->Some_0)
                == Some(sb@),
{
    let (superblock, store) = open_with_passphrase(pool, passphrase)?;
    let res = collect_opened(superblock, store);
    proof {
        if res is Ok {
            let used = choose|used: Seq<bool>| #[trigger] stats_of(res->Ok_0, superblock, used);
            assert(stats_of(res->Ok_0, superblock, used));
        }
    }
    res
}

/// The statistics of an encrypted pool, opened through its anchor.
pub fn collect_with_anchor(pool: Vec<Carrier>, anchor: usize, passphrase: &str) -> (res: Result<
    FsStats,
    FsError,
>)
    ensures
        res matches Ok(stats) ==> stats.encrypted && exists|sb: Superblock, used: Seq<bool>|
            geometry_ok(sb@) && stats_of(stats, sb, used),
        anchor_bootstrap(pool@, anchor as int) is Some && bootstrap_plaintext(
            passphrase.spec_bytes(),
            anchor_bootstrap(pool@, anchor as int)->Some_0,
        ) is None ==> (res matches Err(FsError::Auth)),
{
    let (superblock, store) = open_with_anchor(pool, anchor, passphrase)?;
    collect_opened(superblock, store)
}

} // verus!
