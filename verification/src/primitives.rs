//! The calls this library makes into outside crates and into parts of std
//! that vstd does not specify. Each item here is trusted: its contract is
//! believed, not proved. The names without a body stand for results that
//! depend on the arguments alone and would take pages to write out.

use std::time::{SystemTime, UNIX_EPOCH};

use argon2::{Algorithm, Argon2, Params, Version};
use chacha20poly1305::aead::AeadInPlace;
use chacha20poly1305::{KeyInit, Tag, XChaCha20Poly1305, XNonce};
use rand::rngs::OsRng;
use rand::seq::SliceRandom;
use rand::{RngCore, SeedableRng};
use rand_chacha::ChaCha20Rng;
use vstd::prelude::*;
use vstd::utf8::*;

verus! {

/// The CRC-32 (IEEE) checksum of a byte sequence, as `crc32fast` computes it.
pub uninterp spec fn crc32_of(data: Seq<u8>) -> u32;

/// The CRC-16/IBM-SDLC checksum of a byte sequence, as the `crc` crate
/// computes it with its `CRC_16_IBM_SDLC` catalogue entry.
pub uninterp spec fn crc16_ibm_sdlc_of(data: Seq<u8>) -> u16;

/// The 32-byte key that BLAKE3 derives in key-derivation mode from a context
/// string and key material.
pub uninterp spec fn blake3_derived_key(context: Seq<char>, material: Seq<u8>) -> Seq<u8>;

/// What Argon2id (version 0x13) writes for a password and salt under the
/// given memory, time and lane parameters and output length; `None` where
/// the crate rejects the inputs.
pub uninterp spec fn argon2id_output(
    password: Seq<u8>,
    salt: Seq<u8>,
    mem_kib: u32,
    iterations: u32,
    lanes: u32,
    out_len: usize,
) -> Option<Seq<u8>>;

/// XChaCha20-Poly1305 encryption: the ciphertext and the detached tag for a
/// key, a 24-byte nonce, associated data and a plaintext; `None` where the
/// crate rejects the inputs (a key that is not 32 bytes, an overlong
/// message).
pub uninterp spec fn xchacha20poly1305_seal(
    key: Seq<u8>,
    nonce: Seq<u8>,
    aad: Seq<u8>,
    plaintext: Seq<u8>,
) -> Option<(Seq<u8>, Seq<u8>)>;

/// XChaCha20-Poly1305 decryption of a ciphertext with a detached tag; `None`
/// where authentication fails or the crate rejects the inputs.
pub uninterp spec fn xchacha20poly1305_open(
    key: Seq<u8>,
    nonce: Seq<u8>,
    aad: Seq<u8>,
    ciphertext: Seq<u8>,
    tag: Seq<u8>,
) -> Option<Seq<u8>>;

/// The order in which `SliceRandom::shuffle` leaves a sequence when driven by
/// a `ChaCha20Rng` seeded with a 32-byte seed.
pub uninterp spec fn chacha20_shuffled(items: Seq<usize>, seed: Seq<u8>) -> Seq<usize>;

/// Calls `crc32fast::hash`. Claims that the result is the CRC-32 of the
/// bytes, named by `crc32_of`.
#[verifier::external_body]
pub(crate) fn crc32(data: &[u8]) -> (res: u32)
    ensures
        res == crc32_of(data@),
{
    crc32fast::hash(data)
}

/// Calls `crc::Crc::<u16>::checksum` for the `CRC_16_IBM_SDLC` algorithm.
/// Claims that the result is the checksum named by `crc16_ibm_sdlc_of`.
#[verifier::external_body]
pub(crate) fn crc16_ibm_sdlc(data: &[u8]) -> (res: u16)
    ensures
        res == crc16_ibm_sdlc_of(data@),
{
    crc::Crc::<u16>::new(&crc::CRC_16_IBM_SDLC).checksum(data)
}

/// Calls `blake3::derive_key`. Claims that the result is the 32-byte key
/// named by `blake3_derived_key`.
#[verifier::external_body]
pub(crate) fn blake3_derive_key(context: &str, material: &[u8]) -> (res: Vec<u8>)
    ensures
        res@ == blake3_derived_key(context@, material@),
        res@.len() == 32,
{
    blake3::derive_key(context, material).to_vec()
}

/// Calls `argon2::Params::new`, `argon2::Argon2::new` with Argon2id and
/// version 0x13, and `Argon2::hash_password_into` into an `out_len`-byte
/// buffer. Claims that the output is the one named by `argon2id_output` and
/// has `out_len` bytes; an error of the crate gives `None`. The lane count
/// stays within the crate's limit, below which its parameter check cannot
/// overflow.
#[verifier::external_body]
pub(crate) fn argon2id_hash(
    password: &[u8],
    salt: &[u8],
    mem_kib: u32,
    iterations: u32,
    lanes: u32,
    out_len: usize,
) -> (res: Option<Vec<u8>>)
    requires
        lanes <= 0xFF_FFFF,
    ensures
        match res {
            Some(out) => argon2id_output(password@, salt@, mem_kib, iterations, lanes, out_len)
                == Some(out@) && out@.len() == out_len,
            None => argon2id_output(password@, salt@, mem_kib, iterations, lanes, out_len) is None,
        },
{
    let params = Params::new(mem_kib, iterations, lanes, Some(out_len)).ok()?;
    let hasher = Argon2::new(Algorithm::Argon2id, Version::V0x13, params);
    let mut out = vec![0u8; out_len];
    hasher.hash_password_into(password, salt, &mut out).ok()?;
    Some(out)
}

/// Calls `XChaCha20Poly1305::new_from_slice` and `encrypt_in_place_detached`
/// on a copy of the plaintext. Claims that the ciphertext and tag are those
/// named by `xchacha20poly1305_seal`, that the ciphertext is as long as the
/// plaintext and that the tag has 16 bytes.
#[verifier::external_body]
pub(crate) fn xchacha_seal(
    key: &[u8],
    nonce: &[u8],
    aad: &[u8],
    plaintext: &[u8],
) -> (res: Option<(Vec<u8>, Vec<u8>)>)
    requires
        nonce@.len() == 24,
    ensures
        match res {
            Some((ct, tag)) => xchacha20poly1305_seal(key@, nonce@, aad@, plaintext@) == Some(
                (ct@, tag@),
            ) && ct@.len() == plaintext@.len() && tag@.len() == 16,
            None => xchacha20poly1305_seal(key@, nonce@, aad@, plaintext@) is None,
        },
{
    let cipher = XChaCha20Poly1305::new_from_slice(key).ok()?;
    let mut buffer = plaintext.to_vec();
    let tag = cipher.encrypt_in_place_detached(XNonce::from_slice(nonce), aad, &mut buffer).ok()?;
    Some((buffer, tag.to_vec()))
}

/// Calls `XChaCha20Poly1305::new_from_slice` and `decrypt_in_place_detached`
/// on a copy of the ciphertext. Claims that the result is the one named by
/// `xchacha20poly1305_open`, that a plaintext has the ciphertext's length,
/// and that a ciphertext and tag which sealing produced from a plaintext
/// under the same key, nonce and associated data open to that plaintext.
#[verifier::external_body]
pub(crate) fn xchacha_open(
    key: &[u8],
    nonce: &[u8],
    aad: &[u8],
    ciphertext: &[u8],
    tag: &[u8],
) -> (res: Option<Vec<u8>>)
    requires
        nonce@.len() == 24,
        tag@.len() == 16,
    ensures
        match res {
            Some(pt) => xchacha20poly1305_open(key@, nonce@, aad@, ciphertext@, tag@) == Some(pt@)
                && pt@.len() == ciphertext@.len(),
            None => xchacha20poly1305_open(key@, nonce@, aad@, ciphertext@, tag@) is None,
        },
        forall|pt: Seq<u8>|
            #[trigger] xchacha20poly1305_seal(key@, nonce@, aad@, pt) == Some((ciphertext@, tag@))
                ==> res is Some && res.unwrap()@ == pt,
{
    let cipher = XChaCha20Poly1305::new_from_slice(key).ok()?;
    let mut buffer = ciphertext.to_vec();
    cipher.decrypt_in_place_detached(XNonce::from_slice(nonce), aad, &mut buffer, Tag::from_slice(tag)).ok()?;
    Some(buffer)
}

/// Calls `OsRng::try_fill_bytes` on an `n`-byte buffer. The bytes come from
/// the operating system; the contract claims only their number. A failure of
/// the system source gives `None`.
#[verifier::external_body]
pub(crate) fn os_random_bytes(n: usize) -> (res: Option<Vec<u8>>)
    ensures
        res matches Some(bytes) ==> bytes@.len() == n,
{
    let mut bytes = vec![0u8; n];
    OsRng.try_fill_bytes(&mut bytes).ok()?;
    Some(bytes)
}

/// Seeds `ChaCha20Rng::from_seed` with the 32 seed bytes and calls
/// `SliceRandom::shuffle` on the items with it. Claims that the result is
/// the order named by `chacha20_shuffled` and, as a shuffle, holds the same
/// items as many times each.
#[verifier::external_body]
pub(crate) fn chacha20_shuffle(items: Vec<usize>, seed: &[u8]) -> (res: Vec<usize>)
    requires
        seed@.len() == 32,
    ensures
        res@ == chacha20_shuffled(items@, seed@),
        res@.to_multiset() == items@.to_multiset(),
{
    let seed: [u8; 32] = seed.try_into().unwrap();
    let mut rng = ChaCha20Rng::from_seed(seed);
    let mut items = items;
    items.shuffle(&mut rng);
    items
}

/// Calls `std::str::from_utf8`. Claims that it succeeds exactly on valid
/// UTF-8, and then gives the string those bytes encode.
#[verifier::external_body]
pub(crate) fn str_from_utf8(bytes: &[u8]) -> (res: Option<&str>)
    ensures
        res is Some <==> valid_utf8(bytes@),
        res matches Some(s) ==> s@ == decode_utf8(bytes@),
{
    std::str::from_utf8(bytes).ok()
}

#[verifier::external_type_specification]
#[verifier::external_body]
pub struct ExSystemTime(SystemTime);

/// Calls `SystemTime::now`. Nothing is claimed of the clock's reading.
#[verifier::external_body]
pub(crate) fn system_now() -> SystemTime {
    SystemTime::now()
}

/// Calls `SystemTime::duration_since(UNIX_EPOCH)` and takes the whole
/// seconds; a time before the epoch gives 0. Nothing is claimed of the value.
#[verifier::external_body]
pub(crate) fn unix_seconds(time: &SystemTime) -> u64 {
    match time.duration_since(UNIX_EPOCH) {
        Ok(duration) => duration.as_secs(),
        Err(_) => 0,
    }
}

/// The current time in whole seconds since the Unix epoch.
pub(crate) fn now() -> u64 {
    let time = system_now();
    unix_seconds(&time)
}

} // verus!
