//! Key derivation and authenticated encryption of blocks and of the
//! superblock bootstrap.
//!
//! A passphrase and a random salt give a master key through Argon2id; BLAKE3
//! derives from it one key for blocks, one for the keyed carrier order and
//! one for the bootstrap. Blocks and the bootstrap are sealed with
//! XChaCha20-Poly1305 under a random nonce.

use super::{padded, FsError, BLOCK_HEADER, PB, UB};
use crate::layout::{
    copy_range, get32, get32_at, le32, le64, lemma_get32_at, lemma_le_roundtrip, push32,
    push_bytes, zero_bytes, zeros,
};
use crate::primitives::{
    argon2id_hash, argon2id_output, blake3_derive_key, blake3_derived_key, crc32, crc32_of,
    os_random_bytes, xchacha20poly1305_open, xchacha20poly1305_seal, xchacha_open, xchacha_seal,
};
use vstd::bytes::u64_to_le_bytes;
use vstd::prelude::*;
use vstd::string::StringSliceAdditionalSpecFns;

verus! {

pub const ARGON2_MEM_KIB: u32 = 65536;

pub const ARGON2_ITERS: u32 = 3;

pub const ARGON2_PARALLEL: u32 = 1;

pub const ARGON2_OUTPUT_LEN: usize = 32;

/// Salt, nonce, tag and the sealed superblock block.
pub const BOOTSTRAP_LEN: usize = 16 + 24 + 16 + UB;

/// Associated data of the bootstrap seal: "albumfs-superblock-v1".
pub open spec fn boot_aad() -> Seq<u8> {
    seq![
        0x61u8, 0x6cu8, 0x62u8, 0x75u8, 0x6du8, 0x66u8, 0x73u8, 0x2du8, 0x73u8, 0x75u8, 0x70u8,
        0x65u8, 0x72u8, 0x62u8, 0x6cu8, 0x6fu8, 0x63u8, 0x6bu8, 0x2du8, 0x76u8, 0x31u8,
    ]
}

fn boot_aad_bytes() -> (v: Vec<u8>)
    ensures
        v@ == boot_aad(),
{
    let v = vec![
        0x61u8, 0x6cu8, 0x62u8, 0x75u8, 0x6du8, 0x66u8, 0x73u8, 0x2du8, 0x73u8, 0x75u8, 0x70u8,
        0x65u8, 0x72u8, 0x62u8, 0x6cu8, 0x6fu8, 0x63u8, 0x6bu8, 0x2du8, 0x76u8, 0x31u8,
    ];
    assert(v@ =~= boot_aad());
    v
}

/// A 32-byte secret key.
pub struct Key {
    bytes: Vec<u8>,
}

impl View for Key {
    type V = Seq<u8>;

    closed spec fn view(&self) -> Seq<u8> {
        self.bytes@
    }
}

impl Key {
    pub fn as_bytes(&self) -> (b: &[u8])
        ensures
            b@ == self@,
    {
        self.bytes.as_slice()
    }
}

/// The Argon2id master key for a passphrase and salt, where the crate
/// accepts them.
pub open spec fn master_key(passphrase: Seq<u8>, salt: Seq<u8>) -> Option<Seq<u8>> {
    argon2id_output(
        passphrase,
        salt,
        ARGON2_MEM_KIB,
        ARGON2_ITERS,
        ARGON2_PARALLEL,
        ARGON2_OUTPUT_LEN,
    )
}

pub open spec fn block_key(master: Seq<u8>) -> Seq<u8> {
    blake3_derived_key("albumfs block v1"@, master)
}

pub open spec fn order_key(master: Seq<u8>) -> Seq<u8> {
    blake3_derived_key("albumfs order v1"@, master)
}

pub open spec fn boot_key(master: Seq<u8>) -> Seq<u8> {
    blake3_derived_key("albumfs boot v1"@, master)
}

/// Derives the block, order and bootstrap keys from a passphrase and salt.
fn derive_keys(passphrase: &str, salt: &[u8]) -> (res: Result<(Key, Key, Key), FsError>)
    ensures
        match master_key(passphrase.spec_bytes(), salt@) {
            Some(m) => res matches Ok((b, o, t)) && b@ == block_key(m) && o@ == order_key(m)
                && t@ == boot_key(m),
            None => res matches Err(FsError::Auth),
        },
{
    let master = match argon2id_hash(
        passphrase.as_bytes(),
        salt,
        ARGON2_MEM_KIB,
        ARGON2_ITERS,
        ARGON2_PARALLEL,
        ARGON2_OUTPUT_LEN,
    ) {
        Some(m) => m,
        None => return Err(FsError::Auth),
    };
    let block = Key { bytes: blake3_derive_key("albumfs block v1", master.as_slice()) };
    let order = Key { bytes: blake3_derive_key("albumfs order v1", master.as_slice()) };
    let boot = Key { bytes: blake3_derive_key("albumfs boot v1", master.as_slice()) };
    Ok((block, order, boot))
}

/// Seals and opens blocks under one key; a block's number is its
/// associated data.
pub struct BlockCipher {
    key: Key,
}

impl View for BlockCipher {
    type V = Seq<u8>;

    closed spec fn view(&self) -> Seq<u8> {
        self.key@
    }
}

/// The keys a block store works with.
pub struct StoreKeys {
    pub cipher: BlockCipher,
    pub order: Key,
}

/// The store keys for a master key.
pub open spec fn store_keys_match(keys: StoreKeys, master: Seq<u8>) -> bool {
    keys.cipher@ == block_key(master) && keys.order@ == order_key(master)
}

/// The physical block that seals `plaintext` for block `lba` under `key`
/// with `nonce`: nonce, tag, the CRC-32 of the ciphertext, twenty zero bytes
/// and the ciphertext of a full block.
pub open spec fn sealed_block(key: Seq<u8>, lba: u64, nonce: Seq<u8>, plaintext: Seq<u8>) -> Option<
    Seq<u8>,
> {
    match xchacha20poly1305_seal(key, nonce, le64(lba), plaintext) {
        Some((ct, tag)) => if nonce.len() == 24 && tag.len() == 16 && ct.len() == UB {
            Some(nonce + tag + le32(crc32_of(ct)) + zeros(20) + ct)
        } else {
            None
        },
        None => None,
    }
}

/// `blk` is `plaintext` sealed for block `lba` under `key`, with the nonce
/// at its front.
pub open spec fn is_sealed_block(key: Seq<u8>, lba: u64, blk: Seq<u8>, plaintext: Seq<u8>) -> bool {
    blk.len() == PB && sealed_block(key, lba, blk.subrange(0, 24), plaintext) == Some(blk)
}

/// What opening a physical block gives: the plaintext where the CRC of the
/// ciphertext matches and authentication succeeds.
pub open spec fn open_block_spec(key: Seq<u8>, lba: u64, blk: Seq<u8>) -> Option<Seq<u8>> {
    if blk.len() != PB {
        None
    } else if get32(blk, 40) != crc32_of(blk.subrange(BLOCK_HEADER as int, PB as int)) {
        None
    } else {
        xchacha20poly1305_open(
            key,
            blk.subrange(0, 24),
            le64(lba),
            blk.subrange(BLOCK_HEADER as int, PB as int),
            blk.subrange(24, 40),
        )
    }
}

proof fn lemma_sealed_block_parts(nonce: Seq<u8>, tag: Seq<u8>, ct: Seq<u8>)
    requires
        nonce.len() == 24,
        tag.len() == 16,
        ct.len() == UB,
    ensures
        ({
            let blk = nonce + tag + le32(crc32_of(ct)) + zeros(20) + ct;
            &&& blk.len() == PB
            &&& blk.subrange(0, 24) == nonce
            &&& blk.subrange(24, 40) == tag
            &&& blk.subrange(BLOCK_HEADER as int, PB as int) == ct
            &&& get32(blk, 40) == crc32_of(ct)
        }),
{
    lemma_le_roundtrip();
    let blk = nonce + tag + le32(crc32_of(ct)) + zeros(20) + ct;
    assert(blk.subrange(0, 24) =~= nonce);
    assert(blk.subrange(24, 40) =~= tag);
    assert(blk.subrange(BLOCK_HEADER as int, PB as int) =~= ct);
    lemma_get32_at(nonce + tag, crc32_of(ct), zeros(20) + ct);
    assert(blk =~= (nonce + tag) + le32(crc32_of(ct)) + (zeros(20) + ct));
}

impl BlockCipher {
    pub fn new(key: Key) -> (c: BlockCipher)
        ensures
            c@ == key@,
    {
        BlockCipher { key }
    }

    /// Seals a payload, padded with zeros to a full block, for block `lba`
    /// under a fresh random nonce.
    pub fn encode(&self, lba: u64, payload: &[u8]) -> (res: Result<Vec<u8>, FsError>)
        ensures
            payload@.len() > UB ==> res matches Err(FsError::Manifest(_)),
            payload@.len() <= UB ==> res is Ok || res matches Err(FsError::Auth),
            res matches Ok(blk) ==> is_sealed_block(self@, lba, blk@, padded(payload@)),
    {
        if payload.len() > UB {
            return Err(FsError::Manifest("block payload is longer than a block".to_string()));
        }
        let mut plaintext: Vec<u8> = Vec::new();
        push_bytes(&mut plaintext, payload);
        let pad = zero_bytes(UB - payload.len());
        push_bytes(&mut plaintext, pad.as_slice());
        assert(plaintext@ =~= padded(payload@));
        let nonce = match os_random_bytes(24) {
            Some(n) => n,
            None => return Err(FsError::Auth),
        };
        let aad = u64_to_le_bytes(lba);
        proof {
            lemma_le_roundtrip();
        }
        let (ct, tag) = match xchacha_seal(self.key.as_bytes(), nonce.as_slice(), aad.as_slice(), plaintext.as_slice()) {
            Some(sealed) => sealed,
            None => return Err(FsError::Auth),
        };
        let crc = crc32(ct.as_slice());
        let mut blk: Vec<u8> = Vec::new();
        push_bytes(&mut blk, nonce.as_slice());
        push_bytes(&mut blk, tag.as_slice());
        push32(&mut blk, crc);
        let gap = zero_bytes(20);
        push_bytes(&mut blk, gap.as_slice());
        push_bytes(&mut blk, ct.as_slice());
        proof {
            lemma_sealed_block_parts(nonce@, tag@, ct@);
        }
        Ok(blk)
    }

    /// Opens a physical block sealed for block `lba`.
    pub fn decode(&self, lba: u64, blk: &[u8]) -> (res: Result<Vec<u8>, FsError>)
        ensures
            match res {
                Ok(p) => open_block_spec(self@, lba, blk@) == Some(p@),
                Err(e) => open_block_spec(self@, lba, blk@) is None && e is Auth,
            },
            forall|pt: Seq<u8>|
                #[trigger] is_sealed_block(self@, lba, blk@, pt) ==> res is Ok && res.unwrap()@ == pt,
            res matches Ok(p) ==> p@.len() == UB,
    {
        if blk.len() != PB {
            return Err(FsError::Auth);
        }
        let stored = get32_at(blk, 40);
        let body = copy_range(blk, BLOCK_HEADER, PB);
        if crc32(body.as_slice()) != stored {
            proof {
                assert forall|pt: Seq<u8>| !#[trigger] is_sealed_block(self@, lba, blk@, pt) by {
                    if is_sealed_block(self@, lba, blk@, pt) {
                        let (ct, tag) = xchacha20poly1305_seal(
                            self@,
                            blk@.subrange(0, 24),
                            le64(lba),
                            pt,
                        )->Some_0;
                        lemma_sealed_block_parts(blk@.subrange(0, 24), tag, ct);
                    }
                }
            }
            return Err(FsError::Auth);
        }
        let nonce = copy_range(blk, 0, 24);
        let tag = copy_range(blk, 24, 40);
        let aad = u64_to_le_bytes(lba);
        proof {
            lemma_le_roundtrip();
            assert forall|pt: Seq<u8>| #[trigger] is_sealed_block(self@, lba, blk@, pt) implies xchacha20poly1305_seal(
                self@,
                nonce@,
                aad@,
                pt,
            ) == Some((body@, tag@)) by {
                let (ct, t) = xchacha20poly1305_seal(self@, blk@.subrange(0, 24), le64(lba), pt)->Some_0;
                lemma_sealed_block_parts(blk@.subrange(0, 24), t, ct);
            }
        }
        match xchacha_open(self.key.as_bytes(), nonce.as_slice(), aad.as_slice(), body.as_slice(), tag.as_slice()) {
            Some(p) => Ok(p),
            None => Err(FsError::Auth),
        }
    }
}

/// `b` is a bootstrap that seals `plaintext` under the key the passphrase
/// and the salt at its front give: salt, nonce, tag, then the ciphertext.
pub open spec fn is_bootstrap_for(passphrase: Seq<u8>, b: Seq<u8>, plaintext: Seq<u8>) -> bool {
    &&& b.len() == BOOTSTRAP_LEN
    &&& match master_key(passphrase, b.subrange(0, 16)) {
        Some(m) => xchacha20poly1305_seal(boot_key(m), b.subrange(16, 40), boot_aad(), plaintext)
            == Some((b.subrange(56, BOOTSTRAP_LEN as int), b.subrange(40, 56))),
        None => false,
    }
}

/// Seals an encoded superblock, padded to a full block, under a key derived
/// from the passphrase and a fresh salt, and gives the bootstrap bytes with
/// the store keys of the same master key.
pub fn create_bootstrap(passphrase: &str, encoded_superblock: &[u8]) -> (res: Result<
    (Vec<u8>, StoreKeys),
    FsError,
>)
    ensures
        encoded_superblock@.len() > UB ==> res matches Err(FsError::Manifest(_)),
        encoded_superblock@.len() <= UB ==> res is Ok || res matches Err(FsError::Auth),
        res matches Ok((b, keys)) ==> is_bootstrap_for(
            passphrase.spec_bytes(),
            b@,
            padded(encoded_superblock@),
        ) && store_keys_match(keys, master_key(passphrase.spec_bytes(), b@.subrange(0, 16))->Some_0),
{
    if encoded_superblock.len() > UB {
        return Err(FsError::Manifest("encrypted superblock does not fit the anchor bootstrap".to_string()));
    }
    let salt = match os_random_bytes(16) {
        Some(s) => s,
        None => return Err(FsError::Auth),
    };
    let (block, order, boot) = derive_keys(passphrase, salt.as_slice())?;
    let nonce = match os_random_bytes(24) {
        Some(n) => n,
        None => return Err(FsError::Auth),
    };
    let mut plaintext: Vec<u8> = Vec::new();
    push_bytes(&mut plaintext, encoded_superblock);
    let pad = zero_bytes(UB - encoded_superblock.len());
    push_bytes(&mut plaintext, pad.as_slice());
    assert(plaintext@ =~= padded(encoded_superblock@));
    let aad = boot_aad_bytes();
    let (ct, tag) = match xchacha_seal(boot.as_bytes(), nonce.as_slice(), aad.as_slice(), plaintext.as_slice()) {
        Some(sealed) => sealed,
        None => return Err(FsError::Auth),
    };
    let mut b: Vec<u8> = Vec::new();
    push_bytes(&mut b, salt.as_slice());
    push_bytes(&mut b, nonce.as_slice());
    push_bytes(&mut b, tag.as_slice());
    push_bytes(&mut b, ct.as_slice());
    assert(b@.subrange(0, 16) =~= salt@);
    assert(b@.subrange(16, 40) =~= nonce@);
    assert(b@.subrange(40, 56) =~= tag@);
    assert(b@.subrange(56, BOOTSTRAP_LEN as int) =~= ct@);
    Ok((b, StoreKeys { cipher: BlockCipher::new(block), order }))
}

/// Opens a bootstrap with a passphrase: the sealed block and the store keys.
pub fn open_bootstrap(passphrase: &str, bootstrap: &[u8]) -> (res: Result<(Vec<u8>, StoreKeys), FsError>)
    ensures
        bootstrap@.len() != BOOTSTRAP_LEN ==> res matches Err(FsError::Auth),
        res is Err ==> res matches Err(FsError::Auth),
        res matches Ok((p, keys)) ==> ({
            let m = master_key(passphrase.spec_bytes(), bootstrap@.subrange(0, 16));
            &&& bootstrap@.len() == BOOTSTRAP_LEN
            &&& m is Some
            &&& xchacha20poly1305_open(
                boot_key(m->Some_0),
                bootstrap@.subrange(16, 40),
                boot_aad(),
                bootstrap@.subrange(56, BOOTSTRAP_LEN as int),
                bootstrap@.subrange(40, 56),
            ) == Some(p@)
            &&& store_keys_match(keys, m->Some_0)
        }),
        forall|pt: Seq<u8>|
            #[trigger] is_bootstrap_for(passphrase.spec_bytes(), bootstrap@, pt) ==> res is Ok
                && res.unwrap().0@ == pt,
        bootstrap@.len() == BOOTSTRAP_LEN && master_key(passphrase.spec_bytes(), bootstrap@.subrange(0, 16))
            is Some && xchacha20poly1305_open(
            boot_key(master_key(passphrase.spec_bytes(), bootstrap@.subrange(0, 16))->Some_0),
            bootstrap@.subrange(16, 40),
            boot_aad(),
            bootstrap@.subrange(56, BOOTSTRAP_LEN as int),
            bootstrap@.subrange(40, 56),
        ) is Some ==> res is Ok,
{
    if bootstrap.len() != BOOTSTRAP_LEN {
        return Err(FsError::Auth);
    }
    let salt = copy_range(bootstrap, 0, 16);
    let (block, order, boot) = derive_keys(passphrase, salt.as_slice())?;
    let nonce = copy_range(bootstrap, 16, 40);
    let tag = copy_range(bootstrap, 40, 56);
    let body = copy_range(bootstrap, 56, BOOTSTRAP_LEN);
    let aad = boot_aad_bytes();
    match xchacha_open(boot.as_bytes(), nonce.as_slice(), aad.as_slice(), body.as_slice(), tag.as_slice()) {
        Some(p) => Ok((p, StoreKeys { cipher: BlockCipher::new(block), order })),
        None => Err(FsError::Auth),
    }
}

} // verus!
