//! The block store: fixed-size physical blocks kept in the chunks of a pool
//! of carrier images. Each carrier holds one chunk, a run of consecutive
//! blocks; a chunk is read into a buffer the first time one of its blocks is
//! needed, and written back into its image on `flush`.

use super::crypto::{is_sealed_block, open_block_spec, BlockCipher, Key, StoreKeys};
use super::superblock::{CarrierRange, CarrierRangeView, Superblock};
use super::{request_error, 
    build_physical_block, fs_fault, lemma_physical_block_roundtrip, padded, physical_block_of, read_physical_block, FsError,
    FsFault, BLOCK_HEADER, PB, UB,
};
use crate::layout::{copy_range, get32, splice, write_at, zero_bytes, zeros};
use crate::primitives::crc32_of;
use crate::stego::{
    carrier_bounded, carrier_keyed_ok, lemma_carrier_chunk_roundtrip, read_back_meta,
    read_back_mode, carrier_read_spec, carrier_write_spec, codec_kind, fault_of, kind_of_path, CarrierImage,
    CarrierView, ChunkMeta, ChunkRead, ChunkWrite, Codec, CodecFault, ImageKind,
};
use vstd::prelude::*;
use vstd::string::StringSliceAdditionalSpecFns;
use vstd::utf8::encode_utf8;

verus! {

/// An image of the pool: its file name and decoded contents. `modified` is
/// set when the store writes a chunk into the image, so that its owner knows
/// to save it.
#[derive(Debug, Clone)]
pub struct Carrier {
    pub name: String,
    pub image: CarrierImage,
    pub modified: bool,
}

impl Carrier {
    pub fn new(name: String, image: CarrierImage) -> (c: Carrier)
        ensures
            c.name@ == name@,
            c.image@ == image@,
            !c.modified,
    {
        Carrier { name, image, modified: false }
    }
}

/// Where a carrier's chunk sits in the block space, and whether its buffer
/// has changes not yet written into the image.
#[derive(Debug, Clone, Copy)]
pub struct SlotInfo {
    pub chunk_index: u32,
    pub is_primary: bool,
    pub block_start: u64,
    pub block_count: u64,
    pub dirty: bool,
}

pub struct BlockStore {
    carriers: Vec<Carrier>,
    slots: Vec<SlotInfo>,
    buffers: Vec<Option<Vec<u8>>>,
    total_blocks: u64,
    encrypted: bool,
    cipher: Option<BlockCipher>,
    order_key: Option<Key>,
}

/// What a block store holds, as mathematical values.
pub struct StoreView {
    pub total_blocks: u64,
    pub encrypted: bool,
    pub cipher: Option<Seq<u8>>,
    pub order_key: Option<Seq<u8>>,
    pub slots: Seq<SlotInfo>,
    pub buffers: Seq<Option<Seq<u8>>>,
    pub names: Seq<Seq<char>>,
    pub images: Seq<CarrierView>,
    pub modified: Seq<bool>,
}

pub open spec fn buffer_view(b: Option<Vec<u8>>) -> Option<Seq<u8>> {
    match b {
        Some(v) => Some(v@),
        None => None,
    }
}

impl View for BlockStore {
    type V = StoreView;

    closed spec fn view(&self) -> StoreView {
        StoreView {
            total_blocks: self.total_blocks,
            encrypted: self.encrypted,
            cipher: match self.cipher {
                Some(c) => Some(c@),
                None => None,
            },
            order_key: match self.order_key {
                Some(k) => Some(k@),
                None => None,
            },
            slots: self.slots@,
            buffers: self.buffers@.map_values(|b: Option<Vec<u8>>| buffer_view(b)),
            names: self.carriers@.map_values(|c: Carrier| c.name@),
            images: self.carriers@.map_values(|c: Carrier| c.image@),
            modified: self.carriers@.map_values(|c: Carrier| c.modified),
        }
    }
}

/// The byte length of a slot's chunk.
pub open spec fn chunk_len(slot: SlotInfo) -> int {
    slot.block_count * PB
}

/// The store's sequences line up, every loaded buffer has its chunk's
/// length, and every chunk length fits in memory.
pub open spec fn store_wf(s: StoreView) -> bool {
    &&& s.slots.len() == s.buffers.len()
    &&& s.slots.len() == s.names.len()
    &&& s.slots.len() == s.images.len()
    &&& s.slots.len() == s.modified.len()
    &&& forall|i: int| 0 <= i < s.slots.len() ==> chunk_len(#[trigger] s.slots[i]) <= usize::MAX
    &&& forall|i: int|
        0 <= i < s.slots.len() && (#[trigger] s.buffers[i]) is Some ==> s.buffers[i]->Some_0.len()
            == chunk_len(s.slots[i])
    &&& forall|i: int|
        0 <= i < s.slots.len() && !s.slots[i].dirty && (#[trigger] s.buffers[i]) is Some
            ==> load_spec(s, i) == Ok::<Seq<u8>, FsFault>(s.buffers[i]->Some_0)
}

/// Block `lba` lies in the slot's range.
pub open spec fn holds(slot: SlotInfo, lba: u64) -> bool {
    slot.block_start <= lba && lba - slot.block_start < slot.block_count
}

/// Slot `i` is the first slot whose range holds `lba`.
pub open spec fn is_first_holder(slots: Seq<SlotInfo>, lba: u64, i: int) -> bool {
    &&& 0 <= i < slots.len()
    &&& holds(slots[i], lba)
    &&& forall|j: int| 0 <= j < i ==> !holds(#[trigger] slots[j], lba)
}

/// The slot that block `lba` lives in: the first whose range holds it, for
/// a block below the store's total.
pub open spec fn slot_for(s: StoreView, lba: u64) -> Option<int> {
    if lba < s.total_blocks && exists|i: int| is_first_holder(s.slots, lba, i) {
        Some(choose|i: int| is_first_holder(s.slots, lba, i))
    } else {
        None
    }
}

/// How a slot's chunk is read: markerless under the order key in an
/// encrypted store, framed otherwise.
pub open spec fn read_mode(s: StoreView, slot: SlotInfo) -> ChunkRead {
    if s.encrypted {
        ChunkRead::Markerless { chunk_index: slot.chunk_index, payload_len: chunk_len(slot) as usize }
    } else {
        ChunkRead::Framed
    }
}

/// How a slot's chunk is written.
pub open spec fn write_mode(s: StoreView, slot: SlotInfo) -> ChunkWrite {
    if s.encrypted {
        ChunkWrite::Markerless { chunk_index: slot.chunk_index }
    } else {
        ChunkWrite::Framed(
            ChunkMeta {
                chunk_index: slot.chunk_index,
                flags: if slot.is_primary {
                    1u16
                } else {
                    0u16
                },
            },
        )
    }
}

/// The order key the codec is given: the store's in an encrypted store,
/// none otherwise.
pub open spec fn codec_key(s: StoreView) -> Seq<u8> {
    if s.encrypted {
        s.order_key->Some_0
    } else {
        Seq::empty()
    }
}

/// What loading slot `i` from its image gives.
pub open spec fn load_spec(s: StoreView, i: int) -> Result<Seq<u8>, FsFault> {
    let slot = s.slots[i];
    match kind_of_path(encode_utf8(s.names[i])) {
        None => Err(FsFault::Manifest),
        Some(kind) => if s.encrypted && s.order_key is None {
            Err(FsFault::Auth)
        } else {
            match carrier_read_spec(kind, s.images[i], read_mode(s, slot), codec_key(s)) {
                Err(f) => Err(FsFault::Codec(f)),
                Ok((meta, payload)) => if meta.chunk_index != slot.chunk_index {
                    Err(FsFault::Manifest)
                } else if payload.len() != chunk_len(slot) {
                    Err(FsFault::Manifest)
                } else {
                    Ok(payload)
                },
            }
        },
    }
}

/// The bytes of slot `i`: its buffer where it is loaded, else what loading
/// would give.
pub open spec fn chunk_bytes(s: StoreView, i: int) -> Result<Seq<u8>, FsFault> {
    match s.buffers[i] {
        Some(b) => Ok(b),
        None => load_spec(s, i),
    }
}

/// Where block `lba` starts in its slot's chunk.
pub open spec fn block_offset(slot: SlotInfo, lba: u64) -> int {
    (lba - slot.block_start) * PB
}

/// The physical block stored for `lba`.
pub open spec fn physical_block(s: StoreView, lba: u64) -> Result<Seq<u8>, FsFault> {
    match slot_for(s, lba) {
        None => Err(FsFault::BadBlock(lba)),
        Some(i) => match chunk_bytes(s, i) {
            Err(f) => Err(f),
            Ok(b) => Ok(
                b.subrange(block_offset(s.slots[i], lba), block_offset(s.slots[i], lba) + PB),
            ),
        },
    }
}

/// What reading a physical block in plaintext gives.
pub open spec fn read_plain_spec(lba: u64, blk: Seq<u8>) -> Result<Seq<u8>, FsFault> {
    if blk.len() != PB {
        Err(FsFault::Manifest)
    } else if get32(blk, 40) != crc32_of(blk.subrange(BLOCK_HEADER as int, PB as int)) {
        Err(FsFault::BlockCrc(lba))
    } else {
        Ok(blk.subrange(BLOCK_HEADER as int, PB as int))
    }
}

/// What reading block `lba` gives: the block opened under the store's block
/// key, or checked and unwrapped in plaintext.
pub open spec fn read_block_spec(s: StoreView, lba: u64) -> Result<Seq<u8>, FsFault> {
    match physical_block(s, lba) {
        Err(f) => Err(f),
        Ok(blk) => if s.encrypted {
            match s.cipher {
                None => Err(FsFault::Auth),
                Some(k) => match open_block_spec(k, lba, blk) {
                    Some(p) => Ok(p),
                    None => Err(FsFault::Auth),
                },
            }
        } else {
            read_plain_spec(lba, blk)
        },
    }
}

/// The physical block that writing `payload` at `lba` leaves: the plaintext
/// block, or a block that seals the padded payload under the block key.
pub open spec fn written_block(s: StoreView, lba: u64, payload: Seq<u8>, blk: Seq<u8>) -> bool {
    if s.encrypted {
        s.cipher is Some && is_sealed_block(s.cipher->Some_0, lba, blk, padded(payload))
    } else {
        blk == physical_block_of(payload)
    }
}

/// Two states of a store with the same layout, keys, names and images.
pub open spec fn same_frame(a: StoreView, b: StoreView) -> bool {
    &&& a.total_blocks == b.total_blocks
    &&& a.encrypted == b.encrypted
    &&& a.cipher == b.cipher
    &&& a.order_key == b.order_key
    &&& a.names == b.names
    &&& a.slots.len() == b.slots.len()
    &&& forall|i: int|
        0 <= i < a.slots.len() ==> (#[trigger] a.slots[i]).chunk_index == b.slots[i].chunk_index
            && a.slots[i].is_primary == b.slots[i].is_primary && a.slots[i].block_start
            == b.slots[i].block_start && a.slots[i].block_count == b.slots[i].block_count
}

/// `b` is `a` with possibly more chunks loaded into their buffers; every
/// chunk holds the same bytes.
pub open spec fn loaded_from(a: StoreView, b: StoreView) -> bool {
    &&& same_frame(a, b)
    &&& a.images == b.images
    &&& a.modified == b.modified
    &&& a.slots == b.slots
    &&& forall|i: int|
        0 <= i < a.slots.len() ==> #[trigger] b.buffers[i] == a.buffers[i] || (a.buffers[i] is None
            && load_spec(a, i) is Ok && b.buffers[i] == Some(load_spec(a, i)->Ok_0))
}

/// The blocks the first `n` manifest entries span together.
pub open spec fn sum_counts(m: Seq<CarrierRangeView>, n: int) -> int
    decreases n,
{
    if n <= 0 {
        0
    } else {
        sum_counts(m, n - 1) + m[n - 1].block_count
    }
}

pub open spec fn range_views(m: Seq<CarrierRange>) -> Seq<CarrierRangeView> {
    m.map_values(|r: CarrierRange| r@)
}

/// A manifest whose chunks all fit in memory and whose block counts add up
/// without overflow.
pub open spec fn manifest_fits(m: Seq<CarrierRange>) -> bool {
    &&& forall|i: int| 0 <= i < m.len() ==> (#[trigger] m[i]).block_count * PB <= usize::MAX
    &&& sum_counts(range_views(m), m.len() as int) <= u64::MAX
}

/// The slot a manifest entry describes.
pub open spec fn slot_of_range(r: CarrierRangeView, is_primary: bool, dirty: bool) -> SlotInfo {
    SlotInfo {
        chunk_index: r.chunk_index,
        is_primary,
        block_start: r.block_start,
        block_count: r.block_count,
        dirty,
    }
}

/// Slot `i` was written into its image as the chunk its buffer holds.
pub open spec fn flushed(old: StoreView, new: StoreView, i: int) -> bool {
    &&& old.buffers[i] is Some
    &&& kind_of_path(encode_utf8(old.names[i])) is Some
    &&& carrier_write_spec(
        kind_of_path(encode_utf8(old.names[i]))->Some_0,
        old.images[i],
        write_mode(old, old.slots[i]),
        old.buffers[i]->Some_0,
        codec_key(old),
    ) == Ok::<CarrierView, CodecFault>(new.images[i])
    &&& new.modified[i]
    &&& carrier_bounded(old.images[i])
    &&& old.encrypted ==> old.order_key is Some && carrier_keyed_ok(
        old.images[i],
        old.order_key->Some_0,
        old.slots[i].chunk_index,
    )
}

/// Chunk `i` can be written back: it has a buffer, a codec by its name, a
/// key where the store is encrypted, and the codec takes the chunk.
pub open spec fn chunk_writable(s: StoreView, i: int) -> bool {
    &&& s.buffers[i] is Some
    &&& kind_of_path(encode_utf8(s.names[i])) is Some
    &&& s.encrypted ==> s.order_key is Some
    &&& carrier_write_spec(
        kind_of_path(encode_utf8(s.names[i]))->Some_0,
        s.images[i],
        write_mode(s, s.slots[i]),
        s.buffers[i]->Some_0,
        codec_key(s),
    ) is Ok
}

/// Chunk `i` takes a payload of its length back into its image: a codec by
/// its name, a key where the store is encrypted, and room in the image.
pub open spec fn chunk_fits(s: StoreView, i: int) -> bool {
    &&& kind_of_path(encode_utf8(s.names[i])) is Some
    &&& s.encrypted ==> s.order_key is Some
    &&& carrier_write_spec(
        kind_of_path(encode_utf8(s.names[i]))->Some_0,
        s.images[i],
        write_mode(s, s.slots[i]),
        zero_payload(chunk_len(s.slots[i]) as nat),
        codec_key(s),
    ) is Ok
}

/// A payload of `n` zero bytes.
pub open spec fn zero_payload(n: nat) -> Seq<u8> {
    Seq::new(n, |k: int| 0u8)
}

/// Every chunk takes a payload of its length back, and every chunk that
/// waits to be written back has its bytes in a buffer.
pub open spec fn store_flushable(s: StoreView) -> bool {
    forall|i: int|
        0 <= i < s.slots.len() ==> #[trigger] chunk_fits(s, i) && (s.slots[i].dirty ==> s.buffers[i] is Some)
}

/// A chunk that takes a payload of its length takes the one in its buffer.
pub proof fn lemma_fits_writable(s: StoreView, i: int)
    requires
        store_wf(s),
        0 <= i < s.slots.len(),
        chunk_fits(s, i),
        s.buffers[i] is Some,
    ensures
        chunk_writable(s, i),
{
    let z = zero_payload(chunk_len(s.slots[i]) as nat);
    let p = s.buffers[i]->Some_0;
    assert(p.len() == z.len());
}

/// Loading chunks keeps a store flushable.
pub proof fn lemma_flushable_loaded(a: StoreView, b: StoreView)
    requires
        loaded_from(a, b),
        store_flushable(a),
    ensures
        store_flushable(b),
{
    assert forall|i: int| 0 <= i < b.slots.len() implies #[trigger] chunk_fits(b, i) && (b.slots[i].dirty
        ==> b.buffers[i] is Some) by {
        assert(chunk_fits(a, i));
        assert(a.slots[i] == b.slots[i]);
    }
}

/// Writing a block into a loaded chunk keeps a store flushable.
proof fn lemma_flushable_write(a: StoreView, b: StoreView, i: int)
    requires
        store_flushable(a),
        same_frame(a, b),
        a.images == b.images,
        0 <= i < a.slots.len(),
        b.buffers[i] is Some,
        forall|j: int| 0 <= j < a.slots.len() && j != i ==> #[trigger] b.slots[j] == a.slots[j] && b.buffers[j] == a.buffers[j],
    ensures
        store_flushable(b),
{
    assert forall|j: int| 0 <= j < b.slots.len() implies #[trigger] chunk_fits(b, j) && (b.slots[j].dirty
        ==> b.buffers[j] is Some) by {
        assert(chunk_fits(a, j));
        assert(write_mode(a, a.slots[j]) == write_mode(b, b.slots[j]));
        assert(chunk_len(a.slots[j]) == chunk_len(b.slots[j]));
    }
}

/// Loading depends only on the slot, the name, the image and the keys.
proof fn lemma_load_spec_same(a: StoreView, b: StoreView, i: int)
    requires
        same_frame(a, b),
        0 <= i < a.slots.len(),
        a.images[i] == b.images[i],
    ensures
        load_spec(a, i) == load_spec(b, i),
{
    assert(a.slots[i].chunk_index == b.slots[i].chunk_index);
    assert(chunk_len(a.slots[i]) == chunk_len(b.slots[i]));
    assert(read_mode(a, a.slots[i]) == read_mode(b, b.slots[i]));
}

/// A chunk that `flush` wrote into its image loads back as the buffer it
/// was written from.
pub proof fn lemma_flushed_chunk_reloads(old: StoreView, new: StoreView, i: int)
    requires
        store_wf(old),
        0 <= i < old.slots.len(),
        same_frame(old, new),
        flushed(old, new, i),
    ensures
        load_spec(new, i) == Ok::<Seq<u8>, FsFault>(old.buffers[i]->Some_0),
{
    let kind = kind_of_path(encode_utf8(old.names[i]))->Some_0;
    let slot = old.slots[i];
    let buffer = old.buffers[i]->Some_0;
    let mode = write_mode(old, slot);
    lemma_carrier_chunk_roundtrip(kind, old.images[i], mode, buffer, codec_key(old));
    assert(buffer.len() == chunk_len(slot));
    assert(new.slots[i].chunk_index == slot.chunk_index);
    assert(chunk_len(new.slots[i]) == chunk_len(slot));
    assert(read_mode(new, new.slots[i]) == read_back_mode(mode, buffer.len()));
    assert(codec_key(new) == codec_key(old));
}

proof fn lemma_first_holder_unique(slots: Seq<SlotInfo>, lba: u64, i: int, j: int)
    requires
        is_first_holder(slots, lba, i),
        is_first_holder(slots, lba, j),
    ensures
        i == j,
{
    if i < j {
        assert(!holds(slots[i], lba));
    } else if j < i {
        assert(!holds(slots[j], lba));
    }
}

/// Slots with the same ranges send every block to the same slot.
proof fn lemma_slot_for_frame(a: StoreView, b: StoreView, lba: u64)
    requires
        same_frame(a, b),
    ensures
        slot_for(a, lba) == slot_for(b, lba),
{
    assert forall|j: int| 0 <= j < a.slots.len() implies holds(#[trigger] a.slots[j], lba) == holds(
        b.slots[j],
        lba,
    ) by {
        assert(a.slots[j].block_start == b.slots[j].block_start);
    }
    assert forall|i: int| #[trigger] is_first_holder(a.slots, lba, i) implies is_first_holder(
        b.slots,
        lba,
        i,
    ) by {
        assert forall|j: int| 0 <= j < i implies !holds(#[trigger] b.slots[j], lba) by {
            assert(!holds(a.slots[j], lba));
        }
    }
    assert forall|i: int| #[trigger] is_first_holder(b.slots, lba, i) implies is_first_holder(
        a.slots,
        lba,
        i,
    ) by {
        assert forall|j: int| 0 <= j < i implies !holds(#[trigger] a.slots[j], lba) by {
            assert(!holds(b.slots[j], lba));
        }
    }
    if exists|i: int| is_first_holder(a.slots, lba, i) {
        let i = choose|i: int| is_first_holder(a.slots, lba, i);
        assert(is_first_holder(b.slots, lba, i));
        let k = choose|k: int| is_first_holder(b.slots, lba, k);
        lemma_first_holder_unique(b.slots, lba, i, k);
    } else {
        assert forall|i: int| !is_first_holder(b.slots, lba, i) by {
            if is_first_holder(b.slots, lba, i) {
                assert(is_first_holder(a.slots, lba, i));
            }
        }
    }
}

/// The slot a block lives in holds it, before all others.
proof fn lemma_slot_for(s: StoreView, lba: u64)
    ensures
        slot_for(s, lba) matches Some(i) ==> is_first_holder(s.slots, lba, i),
{
}

/// Loading chunks twice over is loading them once.
pub proof fn lemma_loaded_from_trans(a: StoreView, b: StoreView, c: StoreView)
    requires
        loaded_from(a, b),
        loaded_from(b, c),
    ensures
        loaded_from(a, c),
{
    assert forall|i: int| 0 <= i < a.slots.len() implies #[trigger] c.buffers[i] == a.buffers[i]
        || (a.buffers[i] is None && load_spec(a, i) is Ok && c.buffers[i] == Some(
        load_spec(a, i)->Ok_0,
    )) by {
        assert(b.buffers[i] == a.buffers[i] || (a.buffers[i] is None && load_spec(a, i) is Ok
            && b.buffers[i] == Some(load_spec(a, i)->Ok_0)));
        assert(c.buffers[i] == b.buffers[i] || (b.buffers[i] is None && load_spec(b, i) is Ok
            && c.buffers[i] == Some(load_spec(b, i)->Ok_0)));
        lemma_load_spec_same(a, b, i);
    }
}

/// Loading more chunks changes no block.
pub proof fn lemma_loaded_from_blocks(a: StoreView, b: StoreView, lba: u64)
    requires
        loaded_from(a, b),
        store_wf(a),
    ensures
        physical_block(b, lba) == physical_block(a, lba),
        read_block_spec(b, lba) == read_block_spec(a, lba),
{
    lemma_slot_for_frame(a, b, lba);
    match slot_for(a, lba) {
        None => {},
        Some(i) => {
            assert(is_first_holder(a.slots, lba, i));
            assert(b.buffers[i] == a.buffers[i] || (a.buffers[i] is None && load_spec(a, i) is Ok
                && b.buffers[i] == Some(load_spec(a, i)->Ok_0)));
            assert(load_spec(b, i) == load_spec(a, i));
            assert(chunk_bytes(b, i) == chunk_bytes(a, i));
        },
    }
}

/// A block offset and the block after it fit in the chunk.
proof fn lemma_block_in_chunk(slot: SlotInfo, lba: u64)
    requires
        holds(slot, lba),
    ensures
        0 <= block_offset(slot, lba),
        block_offset(slot, lba) + PB <= chunk_len(slot),
{
    let a = (lba - slot.block_start) as int;
    let n = slot.block_count as int;
    assert(a * 4096 + 4096 <= n * 4096) by (nonlinear_arith)
        requires
            0 <= a < n,
    ;
}

/// Distinct blocks of one slot occupy disjoint byte ranges.
proof fn lemma_blocks_disjoint(slot: SlotInfo, x: u64, y: u64)
    requires
        holds(slot, x),
        holds(slot, y),
        x != y,
    ensures
        block_offset(slot, x) + PB <= block_offset(slot, y) || block_offset(slot, y) + PB
            <= block_offset(slot, x),
{
    let a = (x - slot.block_start) as int;
    let b = (y - slot.block_start) as int;
    assert(a * 4096 + 4096 <= b * 4096 || b * 4096 + 4096 <= a * 4096) by (nonlinear_arith)
        requires
            a != b,
            0 <= a,
            0 <= b,
    ;
}

/// Writing one block's bytes into its slot's chunk changes that block and
/// no other.
proof fn lemma_write_effect(
    loaded: StoreView,
    s: StoreView,
    i: int,
    lba: u64,
    old_chunk: Seq<u8>,
    new_chunk: Seq<u8>,
)
    requires
        store_wf(loaded),
        slot_for(loaded, lba) == Some(i),
        loaded.buffers[i] == Some(old_chunk),
        same_frame(loaded, s),
        s.images == loaded.images,
        s.buffers == loaded.buffers.update(i, Some(new_chunk)),
        new_chunk.len() == old_chunk.len(),
        forall|k: int|
            0 <= k < old_chunk.len() && !(block_offset(loaded.slots[i], lba) <= k < block_offset(
                loaded.slots[i],
                lba,
            ) + PB) ==> new_chunk[k] == old_chunk[k],
    ensures
        physical_block(s, lba) == Ok::<Seq<u8>, FsFault>(
            new_chunk.subrange(
                block_offset(loaded.slots[i], lba),
                block_offset(loaded.slots[i], lba) + PB,
            ),
        ),
        forall|other: u64|
            other != lba ==> #[trigger] physical_block(s, other) == physical_block(loaded, other),
{
    lemma_slot_for_frame(loaded, s, lba);
    lemma_slot_for(loaded, lba);
    assert forall|other: u64| other != lba implies #[trigger] physical_block(s, other)
        == physical_block(loaded, other) by {
        lemma_slot_for_frame(loaded, s, other);
        lemma_slot_for(loaded, other);
        match slot_for(loaded, other) {
            None => {},
            Some(j) => {
                if j == i {
                    lemma_blocks_disjoint(loaded.slots[j], lba, other);
                    lemma_block_in_chunk(loaded.slots[j], other);
                    let o = block_offset(loaded.slots[j], other);
                    assert(new_chunk.subrange(o, o + PB) =~= old_chunk.subrange(o, o + PB));
                } else {
                    assert(s.buffers[j] == loaded.buffers[j]);
                    assert(load_spec(s, j) == load_spec(loaded, j));
                }
            },
        }
    }
}

/// Reading a block of a plaintext store gives back, padded to a full block,
/// the payload that was last written to it.
pub proof fn lemma_read_after_write(s: StoreView, lba: u64, payload: Seq<u8>, blk: Seq<u8>)
    requires
        !s.encrypted,
        payload.len() <= UB,
        physical_block(s, lba) == Ok::<Seq<u8>, FsFault>(blk),
        written_block(s, lba, payload, blk),
    ensures
        read_block_spec(s, lba) == Ok::<Seq<u8>, FsFault>(padded(payload)),
{
    lemma_physical_block_roundtrip(lba, payload);
}

/// A store rebuilt with the same layout and keys over the images of a store
/// with no unwritten changes, with nothing loaded yet, holds every block
/// that store held.
pub proof fn lemma_reopen_after_flush(s: StoreView, fresh: StoreView, lba: u64)
    requires
        store_wf(s),
        forall|i: int| 0 <= i < s.slots.len() ==> !(#[trigger] s.slots[i]).dirty,
        same_frame(s, fresh),
        fresh.images == s.images,
        fresh.buffers.len() == s.buffers.len(),
        forall|i: int| 0 <= i < fresh.buffers.len() ==> (#[trigger] fresh.buffers[i]) is None,
    ensures
        physical_block(fresh, lba) == physical_block(s, lba),
        read_block_spec(fresh, lba) == read_block_spec(s, lba),
{
    lemma_slot_for_frame(s, fresh, lba);
    lemma_slot_for(s, lba);
    match slot_for(s, lba) {
        None => {},
        Some(i) => {
            lemma_load_spec_same(s, fresh, i);
            assert(fresh.buffers[i] is None);
            assert(chunk_bytes(fresh, i) == chunk_bytes(s, i));
        },
    }
}

/// A flush that wrote every chunk with changes leaves every block as it was.
pub proof fn lemma_flush_keeps_blocks(old: StoreView, new: StoreView, lba: u64)
    requires
        store_wf(old),
        store_wf(new),
        same_frame(old, new),
        new.buffers == old.buffers,
        forall|i: int|
            0 <= i < old.slots.len() ==> !(#[trigger] new.slots[i]).dirty && (if old.slots[i].dirty {
                flushed(old, new, i)
            } else {
                new.images[i] == old.images[i]
            }),
    ensures
        physical_block(new, lba) == physical_block(old, lba),
{
    lemma_slot_for_frame(old, new, lba);
    lemma_slot_for(old, lba);
    match slot_for(old, lba) {
        None => {},
        Some(i) => {
            if old.slots[i].dirty {
                assert(flushed(old, new, i));
            } else {
                lemma_load_spec_same(old, new, i);
            }
            assert(chunk_bytes(new, i) == chunk_bytes(old, i));
        },
    }
}

fn empty_key() -> (v: Vec<u8>)
    ensures
        v@ == Seq::<u8>::empty(),
{
    Vec::new()
}

proof fn lemma_sum_counts_prefix(m: Seq<CarrierRangeView>, i: int, n: int)
    requires
        0 <= i <= n <= m.len(),
    ensures
        0 <= sum_counts(m, i) <= sum_counts(m, n),
    decreases n,
{
    if n > 0 {
        if i == n {
            lemma_sum_counts_prefix(m, n - 1, n - 1);
        } else {
            lemma_sum_counts_prefix(m, i, n - 1);
        }
    }
}

/// A store over `carriers`, laid out by `manifest`, with every chunk loaded
/// as `fresh` says: zero-filled and to be written, or left in the images.
fn build_store(
    carriers: Vec<Carrier>,
    primary: &[bool],
    manifest: &[CarrierRange],
    keys: Option<StoreKeys>,
    fresh: bool,
) -> (store: BlockStore)
    requires
        carriers@.len() == manifest@.len(),
        primary@.len() == manifest@.len(),
        manifest_fits(manifest@),
    ensures
        store.wf(),
        store@.total_blocks == sum_counts(range_views(manifest@), manifest@.len() as int),
        store@.encrypted == keys is Some,
        store@.cipher == match keys {
            Some(k) => Some(k.cipher@),
            None => None::<Seq<u8>>,
        },
        store@.order_key == match keys {
            Some(k) => Some(k.order@),
            None => None::<Seq<u8>>,
        },
        store@.slots.len() == manifest@.len(),
        forall|i: int|
            0 <= i < manifest@.len() ==> #[trigger] store@.slots[i] == slot_of_range(
                manifest@[i]@,
                primary@[i],
                fresh,
            ) && store@.buffers[i] == (if fresh {
                Some(zeros(chunk_len(store@.slots[i]) as nat))
            } else {
                None::<Seq<u8>>
            }) && store@.names[i] == carriers@[i].name@ && store@.images[i] == carriers@[i].image@
                && store@.modified[i] == carriers@[i].modified,
{
    let n = manifest.len();
    let ghost cv = carriers@;
    let ghost views = range_views(manifest@);
    let mut slots: Vec<SlotInfo> = Vec::new();
    let mut buffers: Vec<Option<Vec<u8>>> = Vec::new();
    let mut total: u64 = 0;
    let mut i: usize = 0;
    while i < n
        invariant
            n == manifest@.len(),
            primary@.len() == n,
            views == range_views(manifest@),
            manifest_fits(manifest@),
            i <= n,
            total == sum_counts(views, i as int),
            slots@.len() == i,
            buffers@.len() == i,
            forall|j: int|
                0 <= j < i ==> #[trigger] slots@[j] == slot_of_range(manifest@[j]@, primary@[j], fresh)
                    && buffer_view(buffers@[j]) == (if fresh {
                    Some(zeros(chunk_len(slots@[j]) as nat))
                } else {
                    None::<Seq<u8>>
                }),
        decreases n - i,
    {
        let r = &manifest[i];
        proof {
            lemma_sum_counts_prefix(views, i + 1, n as int);
            assert(views[i as int] == manifest@[i as int]@);
        }
        let slot = SlotInfo {
            chunk_index: r.chunk_index,
            is_primary: primary[i],
            block_start: r.block_start,
            block_count: r.block_count,
            dirty: fresh,
        };
        slots.push(slot);
        if fresh {
            assert(manifest@[i as int].block_count * PB <= usize::MAX);
            let len = r.block_count as usize * PB;
            buffers.push(Some(zero_bytes(len)));
        } else {
            buffers.push(None);
        }
        total = total + r.block_count;
        proof {
            assert(slots@[i as int] == slot_of_range(manifest@[i as int]@, primary@[i as int], fresh));
            assert(buffer_view(buffers@[i as int]) == (if fresh {
                Some(zeros(chunk_len(slots@[i as int]) as nat))
            } else {
                None::<Seq<u8>>
            }));
        }
        i += 1;
    }
    let (encrypted, cipher, order_key) = match keys {
        Some(k) => (true, Some(k.cipher), Some(k.order)),
        None => (false, None, None),
    };
    let store = BlockStore { carriers, slots, buffers, total_blocks: total, encrypted, cipher, order_key };
    proof {
        assert(store.carriers@ == cv);
        assert forall|j: int| 0 <= j < n implies chunk_len(#[trigger] store@.slots[j]) <= usize::MAX by {
            assert(manifest@[j].block_count * PB <= usize::MAX);
        }
        assert forall|j: int| 0 <= j < n implies #[trigger] store@.slots[j] == slot_of_range(
            manifest@[j]@,
            primary@[j],
            fresh,
        ) && store@.buffers[j] == (if fresh {
            Some(zeros(chunk_len(store@.slots[j]) as nat))
        } else {
            None::<Seq<u8>>
        }) && store@.names[j] == cv[j].name@ && store@.images[j] == cv[j].image@
            && store@.modified[j] == cv[j].modified by {
            assert(store@.buffers[j] == buffer_view(store.buffers@[j]));
            assert(slots@[j] == slot_of_range(manifest@[j]@, primary@[j], fresh));
            assert(store@.names[j] == store.carriers@[j].name@);
            assert(store@.images[j] == store.carriers@[j].image@);
            assert(store@.modified[j] == store.carriers@[j].modified);
        }
        assert(store_wf(store@));
    }
    store
}

impl BlockStore {
    pub open spec fn wf(&self) -> bool {
        store_wf(self@)
    }

    /// The slot that block `lba` lives in.
    fn carrier_for(&self, lba: u64) -> (res: Result<usize, FsError>)
        requires
            self.wf(),
        ensures
            match slot_for(self@, lba) {
                Some(i) => res is Ok && res->Ok_0 as int == i,
                None => res matches Err(FsError::BadBlock(b)) && b == lba,
            },
            res matches Err(e) ==> !request_error(e),
    {
        if lba >= self.total_blocks {
            return Err(FsError::BadBlock(lba));
        }
        let n = self.slots.len();
        let mut i: usize = 0;
        while i < n
            invariant
                n == self@.slots.len(),
                i <= n,
                lba < self@.total_blocks,
                forall|j: int| 0 <= j < i ==> !holds(#[trigger] self@.slots[j], lba),
            decreases n - i,
        {
            let slot = self.slots[i];
            if lba >= slot.block_start && lba - slot.block_start < slot.block_count {
                proof {
                    assert(is_first_holder(self@.slots, lba, i as int));
                    let k = choose|k: int| is_first_holder(self@.slots, lba, k);
                    lemma_first_holder_unique(self@.slots, lba, i as int, k);
                }
                return Ok(i);
            }
            i += 1;
        }
        proof {
            assert forall|k: int| !is_first_holder(self@.slots, lba, k) by {
                if 0 <= k < n {
                    assert(!holds(self@.slots[k], lba));
                }
            }
        }
        Err(FsError::BadBlock(lba))
    }

    /// Reads slot `i`'s chunk from its image into its buffer, where it is
    /// not loaded yet.
    fn ensure_loaded(&mut self, i: usize) -> (res: Result<(), FsError>)
        requires
            old(self).wf(),
            i < old(self)@.slots.len(),
        ensures
            final(self).wf(),
            loaded_from(old(self)@, final(self)@),
            match chunk_bytes(old(self)@, i as int) {
                Ok(b) => res is Ok && final(self)@.buffers[i as int] == Some(b),
                Err(f) => (res matches Err(e) && fs_fault(e) == f) && final(self)@ == old(self)@,
            },
            res matches Err(e) ==> !request_error(e),
    {
        if self.buffers[i].is_some() {
            return Ok(());
        }
        let codec = match Codec::for_path(self.carriers[i].name.as_str()) {
            Some(c) => c,
            None => return Err(FsError::Manifest("unsupported carrier type".to_string())),
        };
        let slot = self.slots[i];
        assert(chunk_len(self@.slots[i as int]) <= usize::MAX);
        let expected = slot.block_count as usize * PB;
        let result = if self.encrypted {
            match &self.order_key {
                Some(k) => codec.read_chunk(
                    &self.carriers[i].image,
                    ChunkRead::Markerless { chunk_index: slot.chunk_index, payload_len: expected },
                    k.as_bytes(),
                ),
                None => return Err(FsError::Auth),
            }
        } else {
            let key = empty_key();
            codec.read_chunk(&self.carriers[i].image, ChunkRead::Framed, key.as_slice())
        };
        let (meta, payload) = match result {
            Ok(r) => r,
            Err(e) => return Err(FsError::Codec(e)),
        };
        if meta.chunk_index != slot.chunk_index {
            return Err(FsError::Manifest("carrier reports another chunk index".to_string()));
        }
        if payload.len() != expected {
            return Err(FsError::Manifest("carrier chunk has the wrong length".to_string()));
        }
        let ghost before = self@;
        self.buffers.set(i, Some(payload));
        proof {
            assert(self@.buffers =~= before.buffers.update(i as int, Some(payload@)));
            assert(self@.names =~= before.names);
            assert(self@.images =~= before.images);
            assert(self@.modified =~= before.modified);
        }
        Ok(())
    }

    /// The payload of block `lba`.
    pub fn read_block(&mut self, lba: u64) -> (res: Result<Vec<u8>, FsError>)
        requires
            old(self).wf(),
        ensures
            final(self).wf(),
            loaded_from(old(self)@, final(self)@),
            read_block_spec(old(self)@, lba) == match res {
                Ok(p) => Ok(p@),
                Err(e) => Err(fs_fault(e)),
            },
            forall|pt: Seq<u8>|
                old(self)@.encrypted && old(self)@.cipher is Some && physical_block(old(self)@, lba) is Ok
                    && #[trigger] is_sealed_block(
                    old(self)@.cipher->Some_0,
                    lba,
                    physical_block(old(self)@, lba)->Ok_0,
                    pt,
                ) ==> res is Ok && res.unwrap()@ == pt,
            res matches Ok(p) ==> p@.len() == UB,
            res matches Err(e) ==> !request_error(e),
    {
        let i = self.carrier_for(lba)?;
        proof {
            lemma_slot_for(self@, lba);
        }
        match self.ensure_loaded(i) {
            Ok(()) => {},
            Err(e) => return Err(e),
        }
        proof {
            lemma_loaded_from_blocks(old(self)@, self@, lba);
            lemma_block_in_chunk(self@.slots[i as int], lba);
        }
        let slot = self.slots[i];
        let offset = (lba - slot.block_start) as usize * PB;
        let block = match &self.buffers[i] {
            Some(b) => copy_range(b.as_slice(), offset, offset + PB),
            None => return Err(FsError::Manifest("carrier buffer was not loaded".to_string())),
        };
        if self.encrypted {
            match &self.cipher {
                Some(c) => c.decode(lba, block.as_slice()),
                None => Err(FsError::Auth),
            }
        } else {
            read_physical_block(lba, block.as_slice())
        }
    }

    /// Writes `payload`, padded to a full block, as block `lba`.
    #[verifier::rlimit(40)]
    pub fn write_block(&mut self, lba: u64, payload: &[u8]) -> (res: Result<(), FsError>)
        requires
            old(self).wf(),
        ensures
            final(self).wf(),
            same_frame(old(self)@, final(self)@),
            final(self)@.images == old(self)@.images,
            final(self)@.modified == old(self)@.modified,
            payload@.len() > UB ==> (res matches Err(FsError::Manifest(_)) && final(self)@ == old(
                self,
            )@),
            payload@.len() <= UB && physical_block(old(self)@, lba) is Err ==> (res matches Err(e)
                && fs_fault(e) == physical_block(old(self)@, lba)->Err_0),
            payload@.len() <= UB && physical_block(old(self)@, lba) is Ok && !old(self)@.encrypted
                ==> res is Ok,
            res is Ok ==> (physical_block(final(self)@, lba) matches Ok(blk) && written_block(
                old(self)@,
                lba,
                payload@,
                blk,
            )),
            forall|other: u64|
                other != lba || res is Err ==> #[trigger] physical_block(final(self)@, other)
                    == physical_block(old(self)@, other),
            res matches Err(e) ==> !request_error(e),
            store_flushable(old(self)@) ==> store_flushable(final(self)@),
    {
        if payload.len() > UB {
            return Err(FsError::Manifest("block payload is longer than a block".to_string()));
        }
        let i = self.carrier_for(lba)?;
        proof {
            lemma_slot_for(self@, lba);
        }
        match self.ensure_loaded(i) {
            Ok(()) => {},
            Err(e) => return Err(e),
        }
        let ghost loaded = self@;
        proof {
            if store_flushable(old(self)@) {
                lemma_flushable_loaded(old(self)@, loaded);
            }
            assert forall|other: u64| #[trigger] physical_block(loaded, other) == physical_block(
                old(self)@,
                other,
            ) by {
                lemma_loaded_from_blocks(old(self)@, loaded, other);
            }
            lemma_block_in_chunk(self@.slots[i as int], lba);
        }
        let slot = self.slots[i];
        let offset = (lba - slot.block_start) as usize * PB;
        let block = if self.encrypted {
            match &self.cipher {
                Some(c) => c.encode(lba, payload)?,
                None => return Err(FsError::Auth),
            }
        } else {
            build_physical_block(payload)
        };
        let mut buf: Option<Vec<u8>> = None;
        self.buffers.set_and_swap(i, &mut buf);
        let mut b = match buf {
            Some(b) => b,
            None => {
                self.buffers.set(i, None);
                proof {
                    assert(self@.buffers =~= loaded.buffers);
                    assert(self@ == loaded);
                }
                return Err(FsError::Manifest("carrier buffer was not loaded".to_string()));
            },
        };
        let ghost old_chunk = b@;
        write_at(&mut b, offset, block.as_slice());
        let ghost new_chunk = b@;
        self.buffers.set(i, Some(b));
        let mut updated = slot;
        updated.dirty = true;
        self.slots.set(i, updated);
        proof {
            let s = self@;
            assert(s.buffers =~= loaded.buffers.update(i as int, Some(new_chunk)));
            assert(s.names =~= loaded.names);
            assert(s.images =~= loaded.images);
            assert(s.modified =~= loaded.modified);
            assert(s.slots =~= loaded.slots.update(i as int, updated));
            assert(new_chunk.subrange(offset as int, offset + PB) =~= block@);
            lemma_write_effect(loaded, s, i as int, lba, old_chunk, new_chunk);
            if store_flushable(old(self)@) {
                lemma_flushable_write(loaded, s, i as int);
            }
        }
        Ok(())
    }

    /// Writes every chunk with changes back into its image: framed behind a
    /// header that marks the primary carrier, or markerless under the order
    /// key in an encrypted store.
    #[verifier::spinoff_prover]
    #[verifier::rlimit(100)]
    pub fn flush(&mut self) -> (res: Result<(), FsError>)
        requires
            old(self).wf(),
        ensures
            final(self).wf(),
            same_frame(old(self)@, final(self)@),
            final(self)@.buffers == old(self)@.buffers,
            res is Ok ==> forall|i: int|
                0 <= i < old(self)@.slots.len() ==> !(#[trigger] final(self)@.slots[i]).dirty && (if old(
                    self,
                )@.slots[i].dirty {
                    flushed(old(self)@, final(self)@, i)
                } else {
                    final(self)@.images[i] == old(self)@.images[i] && final(self)@.modified[i]
                        == old(self)@.modified[i]
                }),
            res is Err ==> forall|i: int|
                0 <= i < old(self)@.slots.len() ==> #[trigger] final(self)@.images[i] == old(
                    self,
                )@.images[i] || flushed(old(self)@, final(self)@, i),            (forall|i: int|
                0 <= i < old(self)@.slots.len() && (#[trigger] old(self)@.slots[i]).dirty ==> chunk_writable(
                    old(self)@,
                    i,
                )) ==> res is Ok,
            res matches Err(e) ==> !request_error(e),
    {
        let n = self.slots.len();
        let ghost start = self@;
        let mut i: usize = 0;
        while i < n
            invariant
                n == start.slots.len(),
                start == old(self)@,
                store_wf(start),
                i <= n,
                self.wf(),
                same_frame(start, self@),
                self@.buffers == start.buffers,
                forall|j: int|
                    0 <= j < i ==> !(#[trigger] self@.slots[j]).dirty && (if start.slots[j].dirty {
                        flushed(start, self@, j)
                    } else {
                        self@.images[j] == start.images[j] && self@.modified[j] == start.modified[j]
                    }),
                forall|j: int|
                    i <= j < n ==> #[trigger] self@.slots[j] == start.slots[j] && self@.images[j]
                        == start.images[j] && self@.modified[j] == start.modified[j],
            decreases n - i,
        {
            let slot = self.slots[i];
            let ghost before = self@;
            proof {
                assert(before.images[i as int] == start.images[i as int]);
                assert(before.slots[i as int] == start.slots[i as int]);
            }
            if slot.dirty {
                let codec = match Codec::for_path(self.carriers[i].name.as_str()) {
                    Some(c) => c,
                    None => return Err(FsError::Manifest("unsupported carrier type".to_string())),
                };
                let result = match &self.buffers[i] {
                    None => return Err(FsError::Manifest("dirty carrier has no buffer".to_string())),
                    Some(buffer) => if self.encrypted {
                        match &self.order_key {
                            Some(k) => codec.write_chunk(
                                &mut self.carriers[i].image,
                                ChunkWrite::Markerless { chunk_index: slot.chunk_index },
                                buffer.as_slice(),
                                k.as_bytes(),
                            ),
                            None => return Err(FsError::Auth),
                        }
                    } else {
                        let key = empty_key();
                        let flags: u16 = if slot.is_primary {
                            1
                        } else {
                            0
                        };
                        codec.write_chunk(
                            &mut self.carriers[i].image,
                            ChunkWrite::Framed(ChunkMeta { chunk_index: slot.chunk_index, flags }),
                            buffer.as_slice(),
                            key.as_slice(),
                        )
                    },
                };
                proof {
                    assert(self@.names =~= before.names);
                    assert(self@.images =~= before.images.update(i as int, self.carriers@[i as int].image@));
                    assert(self@.modified =~= before.modified);
                }
                match result {
                    Ok(()) => {},
                    Err(e) => return Err(FsError::Codec(e)),
                }
                self.carriers[i].modified = true;
                proof {
                    assert(self@.names =~= before.names);
                    assert(self@.modified =~= before.modified.update(i as int, true));
                }
                let mut updated = slot;
                updated.dirty = false;
                self.slots.set(i, updated);
                proof {
                    let s = self@;
                    assert(s.slots =~= before.slots.update(i as int, updated));
                    assert(s.images =~= before.images.update(i as int, self.carriers@[i as int].image@));
                    assert(s.modified =~= before.modified.update(i as int, true));
                    assert(same_frame(start, s));
                    assert(flushed(start, s, i as int));
                    lemma_flushed_chunk_reloads(start, s, i as int);
                    assert forall|j: int| 0 <= j < n && j != i implies load_spec(s, j) == load_spec(
                        before,
                        j,
                    ) by {
                        lemma_load_spec_same(before, s, j);
                    }
                    assert(store_wf(s));
                }
            }
            proof {
                assert forall|j: int| i < j < n implies #[trigger] self@.slots[j] == start.slots[j]
                    && self@.images[j] == start.images[j] && self@.modified[j] == start.modified[j] by {
                    assert(before.slots[j] == start.slots[j]);
                }
            }
            i += 1;
        }
        Ok(())
    }

    /// A store for a pool being formatted: every chunk zero-filled and to be
    /// written, the carrier with chunk index 0 the primary.
    pub(crate) fn new_for_format(
        carriers: Vec<Carrier>,
        manifest: &[CarrierRange],
        keys: Option<StoreKeys>,
    ) -> (store: BlockStore)
        requires
            carriers@.len() == manifest@.len(),
            manifest_fits(manifest@),
        ensures
            store.wf(),
            store@.total_blocks == sum_counts(range_views(manifest@), manifest@.len() as int),
            store@.encrypted == keys is Some,
            store@.slots.len() == manifest@.len(),
            forall|i: int|
                0 <= i < manifest@.len() ==> #[trigger] store@.slots[i] == slot_of_range(
                    manifest@[i]@,
                    manifest@[i].chunk_index == 0,
                    true,
                ) && store@.buffers[i] == Some(zeros(chunk_len(store@.slots[i]) as nat))
                    && store@.names[i] == carriers@[i].name@ && store@.images[i]
                    == carriers@[i].image@,
    {
        let n = manifest.len();
        let mut primary: Vec<bool> = Vec::new();
        let mut i: usize = 0;
        while i < n
            invariant
                n == manifest@.len(),
                i <= n,
                primary@.len() == i,
                forall|j: int| 0 <= j < i ==> #[trigger] primary@[j] == (manifest@[j].chunk_index == 0),
            decreases n - i,
        {
            primary.push(manifest[i].chunk_index == 0);
            i += 1;
        }
        build_store(carriers, primary.as_slice(), manifest, keys, true)
    }

    /// A store for an opened pool: chunks are read from the images when
    /// first needed.
    pub(crate) fn from_manifest(
        carriers: Vec<Carrier>,
        primary: &[bool],
        manifest: &[CarrierRange],
        keys: Option<StoreKeys>,
    ) -> (store: BlockStore)
        requires
            carriers@.len() == manifest@.len(),
            primary@.len() == manifest@.len(),
            manifest_fits(manifest@),
        ensures
            store.wf(),
            store@.total_blocks == sum_counts(range_views(manifest@), manifest@.len() as int),
            store@.encrypted == keys is Some,
            store@.slots.len() == manifest@.len(),
            forall|i: int|
                0 <= i < manifest@.len() ==> #[trigger] store@.slots[i] == slot_of_range(
                    manifest@[i]@,
                    primary@[i],
                    false,
                ) && store@.buffers[i] == None::<Seq<u8>> && store@.names[i] == carriers@[i].name@
                    && store@.images[i] == carriers@[i].image@,
    {
        let ghost cv = carriers@;
        let store = build_store(carriers, primary, manifest, keys, false);
        proof {
            assert forall|i: int| 0 <= i < manifest@.len() implies #[trigger] store@.slots[i]
                == slot_of_range(manifest@[i]@, primary@[i], false) && store@.buffers[i] == None::<
                Seq<u8>,
            > && store@.names[i] == cv[i].name@ && store@.images[i] == cv[i].image@ by {
                assert(store@.slots[i] == slot_of_range(manifest@[i]@, primary@[i], false));
            }
        }
        store
    }

    /// Opens the plaintext filesystem of a pool.
    pub fn open(pool: Vec<Carrier>) -> (res: Result<(Superblock, BlockStore), FsError>)
        ensures
            res matches Ok((sb, store)) ==> store.wf() && !store@.encrypted
                && super::format::geometry_ok(sb@),
            super::format::opened_from_primary(pool@, res),
            super::format::plain_pool_ok(pool@) ==> res is Ok,
    {
        super::format::open(pool)
    }

    /// Opens the plaintext filesystem of a pool; an encrypted one needs its
    /// anchor.
    pub fn open_with_passphrase(pool: Vec<Carrier>, passphrase: Option<&str>) -> (res: Result<
        (Superblock, BlockStore),
        FsError,
    >)
        ensures
            passphrase is Some ==> (res matches Err(FsError::AnchorRequired)),
            res matches Ok((sb, store)) ==> store.wf() && super::format::geometry_ok(sb@),
            passphrase is None ==> super::format::opened_from_primary(pool@, res),
    {
        super::format::open_with_passphrase(pool, passphrase)
    }

    /// Opens the encrypted filesystem of a pool through its anchor image.
    pub fn open_with_anchor(pool: Vec<Carrier>, anchor: usize, passphrase: &str) -> (res: Result<
        (Superblock, BlockStore),
        FsError,
    >)
        ensures
            res matches Ok((sb, store)) ==> store.wf() && store@.encrypted
                && super::format::geometry_ok(sb@),
            super::format::anchor_bootstrap(pool@, anchor as int) is Some && super::format::bootstrap_plaintext(
                passphrase.spec_bytes(),
                super::format::anchor_bootstrap(pool@, anchor as int)->Some_0,
            ) is None ==> (res matches Err(FsError::Auth)),
    {
        super::format::open_with_anchor(pool, anchor, passphrase)
    }

    /// The store's carriers, in slot order.
    pub fn into_carriers(self) -> (carriers: Vec<Carrier>)
        ensures
            carriers@.len() == self@.names.len(),
            forall|i: int|
                0 <= i < carriers@.len() ==> #[trigger] carriers@[i].name@ == self@.names[i]
                    && carriers@[i].image@ == self@.images[i] && carriers@[i].modified
                    == self@.modified[i],
    {
        self.carriers
    }

    /// The number of blocks the store spans.
    pub fn total_blocks(&self) -> (n: u64)
        ensures
            n == self@.total_blocks,
    {
        self.total_blocks
    }

    /// Whether blocks are sealed and chunks written markerless.
    pub fn is_encrypted(&self) -> (b: bool)
        ensures
            b == self@.encrypted,
    {
        self.encrypted
    }

    /// The number of carriers the store holds.
    pub fn carrier_count(&self) -> (n: usize)
        ensures
            n == self@.names.len(),
    {
        proof {
            assert(self@.names.len() == self.carriers@.len());
        }
        self.carriers.len()
    }

    /// Carrier `i` of the store.
    pub fn carrier(&self, i: usize) -> (c: &Carrier)
        requires
            i < self@.names.len(),
        ensures
            c.name@ == self@.names[i as int],
            c.image@ == self@.images[i as int],
            c.modified == self@.modified[i as int],
    {
        proof {
            assert(self@.names.len() == self.carriers@.len());
        }
        &self.carriers[i]
    }
}

} // verus!
