use albumfs::fs::block::Carrier;
use albumfs::fs::crypto::{create_bootstrap, open_bootstrap, BOOTSTRAP_LEN};
use albumfs::fs::format::{format_with_anchor_options, open_with_anchor};
use albumfs::fs::{build_physical_block, read_physical_block, AlbumFs, FsError, PB, UB};
use albumfs::stego::png::{PngCodec, PngImage};
use albumfs::stego::{CarrierImage, ChunkRead, ChunkWrite, Codec, CodecError, CHUNK_MAGIC};

const PASSPHRASE: &str = "correct horse battery staple";

fn make_pool(count: usize) -> Vec<Carrier> {
    let mut pool = Vec::new();
    for image_index in 0..count {
        let mut rgba = Vec::with_capacity(512 * 512 * 4);
        for pixel_index in 0..512u32 * 512 {
            let value = pixel_index.wrapping_mul(2_654_435_761).wrapping_add(image_index as u32 * 97);
            rgba.extend_from_slice(&[value as u8, (value >> 8) as u8, (value >> 16) as u8, 255]);
        }
        let image = PngImage { width: 512, height: 512, rgba };
        pool.push(Carrier::new(format!("carrier-{image_index:03}.png"), CarrierImage::Png(image)));
    }
    pool
}

fn index_of(carriers: &[Carrier], name: &str) -> usize {
    carriers.iter().position(|carrier| carrier.name == name).unwrap()
}

#[test]
fn encrypted_format_guard_and_default_anchor() {
    let result = format_with_anchor_options(make_pool(3), Some(PASSPHRASE), None, false).unwrap();
    assert_eq!(result.anchor.as_deref(), Some("carrier-000.png"));
    assert!(result.superblock.manifest.iter().all(|carrier| carrier.name != "carrier-000.png"));

    let anchor = index_of(&result.carriers, result.anchor.as_deref().unwrap());
    let error =
        format_with_anchor_options(result.carriers, Some(PASSPHRASE), Some(anchor), false).err().unwrap();
    assert!(matches!(error, FsError::AlreadyFormatted));
}

#[test]
fn no_plaintext_magic() {
    let result = format_with_anchor_options(make_pool(3), Some(PASSPHRASE), Some(0), false).unwrap();
    let magic = CHUNK_MAGIC.to_le_bytes();

    for carrier in &result.carriers {
        let codec = Codec::for_path(&carrier.name).unwrap();
        let prefix = codec.read_prefix(&carrier.image, 16).unwrap();
        assert_ne!(&prefix[..4], &magic);
        assert!(matches!(
            codec.read_chunk(&carrier.image, ChunkRead::Framed, &[]),
            Err(CodecError::NotACarrier) | Err(CodecError::HeaderCrc)
        ));
    }
    assert!(result.superblock.manifest.iter().all(|carrier| carrier.name != "carrier-000.png"));
}

#[test]
fn order_is_keyed() {
    let mut rgba = Vec::with_capacity(256 * 256 * 4);
    for index in 0..256u32 * 256 {
        let value = index.wrapping_mul(1_664_525);
        rgba.extend_from_slice(&[value as u8, (value >> 8) as u8, (value >> 16) as u8, 255]);
    }
    let base = PngImage { width: 256, height: 256, rgba };
    let mut first = base.clone();
    let mut second = base.clone();
    let payload = vec![0xa5; 2048];
    let first_key = [0x11; 32];
    let second_key = [0x22; 32];
    let codec = PngCodec;
    codec.write_chunk(&mut first, ChunkWrite::Markerless { chunk_index: 4 }, &payload, &first_key).unwrap();
    codec.write_chunk(&mut second, ChunkWrite::Markerless { chunk_index: 4 }, &payload, &second_key).unwrap();
    assert_ne!(first.rgba, second.rgba);
    let read = ChunkRead::Markerless { chunk_index: 4, payload_len: payload.len() };
    let (_, first_payload) = codec.read_chunk(&first, read, &first_key).unwrap();
    let (_, second_payload) = codec.read_chunk(&second, read, &second_key).unwrap();
    assert_eq!(first_payload, payload);
    assert_eq!(second_payload, payload);
}

#[test]
fn wrong_passphrase_fails() {
    let result = format_with_anchor_options(make_pool(3), Some(PASSPHRASE), Some(0), false).unwrap();
    let wrong_passphrase =
        AlbumFs::open_with_anchor(result.carriers, 0, "wrong passphrase").err().unwrap();
    assert!(matches!(wrong_passphrase, FsError::Auth));
}

#[test]
fn wrong_anchor_fails() {
    let result = format_with_anchor_options(make_pool(3), Some(PASSPHRASE), Some(0), false).unwrap();
    let wrong_anchor = AlbumFs::open_with_anchor(result.carriers, 1, PASSPHRASE).err().unwrap();
    assert!(matches!(wrong_anchor, FsError::Auth));
}

fn png_rgba(carrier: &Carrier) -> Vec<u8> {
    match &carrier.image {
        CarrierImage::Png(image) => image.rgba.clone(),
        _ => panic!("not a PNG carrier"),
    }
}

#[test]
fn nonce_unique_per_write() {
    let result = format_with_anchor_options(make_pool(3), Some(PASSPHRASE), Some(0), false).unwrap();
    let data_name = result.superblock.manifest[0].name.clone();
    let before = png_rgba(&result.carriers[index_of(&result.carriers, &data_name)]);
    let (_, mut store) = open_with_anchor(result.carriers, 0, PASSPHRASE).unwrap();
    let slot = (0..store.carrier_count()).find(|&i| store.carrier(i).name == data_name).unwrap();
    let lba = result.superblock.data_start;
    store.write_block(lba, &[0x5a; UB]).unwrap();
    store.flush().unwrap();
    let first = png_rgba(store.carrier(slot));
    store.write_block(lba, &[0x5a; UB]).unwrap();
    store.flush().unwrap();
    let second = png_rgba(store.carrier(slot));
    assert_ne!(before, first);
    assert_ne!(first, second);
}

#[test]
fn tamper_detected() {
    let mut result = format_with_anchor_options(make_pool(3), Some(PASSPHRASE), Some(0), false).unwrap();
    let data_name = result.superblock.manifest[0].name.clone();
    let index = index_of(&result.carriers, &data_name);
    match &mut result.carriers[index].image {
        CarrierImage::Png(image) => image.rgba[0] ^= 1,
        _ => panic!("not a PNG carrier"),
    }
    let (_, mut store) = open_with_anchor(result.carriers, 0, PASSPHRASE).unwrap();
    let mut saw_auth = false;
    for lba in 0..result.superblock.total_blocks {
        if matches!(store.read_block(lba), Err(FsError::Auth)) {
            saw_auth = true;
            break;
        }
    }
    assert!(saw_auth, "tampered carrier did not fail authentication");
}

#[test]
fn sealed_blocks_take_fresh_nonces_and_detect_tampering() {
    let (_, keys) = create_bootstrap(PASSPHRASE, &[7u8; 100]).unwrap();
    let payload: Vec<u8> = (0..300).map(|index| (index % 256) as u8).collect();
    let first = keys.cipher.encode(9, &payload).unwrap();
    let second = keys.cipher.encode(9, &payload).unwrap();
    assert_eq!(first.len(), PB);
    assert_ne!(first, second);
    let opened = keys.cipher.decode(9, &first).unwrap();
    assert_eq!(&opened[..payload.len()], payload.as_slice());
    assert!(opened[payload.len()..].iter().all(|byte| *byte == 0));
    assert_eq!(keys.cipher.decode(9, &second).unwrap(), opened);
    assert!(matches!(keys.cipher.decode(10, &first), Err(FsError::Auth)));
    let mut tampered = first.clone();
    tampered[PB - 1] ^= 1;
    assert!(matches!(keys.cipher.decode(9, &tampered), Err(FsError::Auth)));
    assert!(matches!(keys.cipher.encode(9, &vec![0u8; UB + 1]), Err(FsError::Manifest(_))));
}

#[test]
fn bootstrap_opens_only_with_its_passphrase() {
    let superblock = vec![0x42u8; 120];
    let (bootstrap, _) = create_bootstrap(PASSPHRASE, &superblock).unwrap();
    assert_eq!(bootstrap.len(), BOOTSTRAP_LEN);
    assert!(matches!(open_bootstrap("wrong passphrase", &bootstrap), Err(FsError::Auth)));
    assert!(matches!(open_bootstrap(PASSPHRASE, &bootstrap[..BOOTSTRAP_LEN - 1]), Err(FsError::Auth)));
}

#[test]
fn bootstrap_roundtrips_the_superblock() {
    let superblock = vec![0x42u8; 120];
    let (bootstrap, _) = create_bootstrap(PASSPHRASE, &superblock).unwrap();
    let (opened, _) = open_bootstrap(PASSPHRASE, &bootstrap).unwrap();
    assert_eq!(&opened[..superblock.len()], superblock.as_slice());
    assert!(opened[superblock.len()..].iter().all(|byte| *byte == 0));
}

#[test]
fn plaintext_mode_unchanged() {
    let payload: Vec<u8> = (0..UB).map(|index| (index % 251) as u8).collect();
    let block = build_physical_block(&payload);
    assert_eq!(&block[0..40], &[0; 40]);
    assert_eq!(read_physical_block(9, &block).unwrap(), payload.as_slice());
}

#[test]
fn anchor_without_passphrase_is_refused() {
    let error = format_with_anchor_options(make_pool(1), None, Some(0), false).err().unwrap();
    assert!(matches!(error, FsError::Manifest(_)));
    let error = AlbumFs::open_with_passphrase(make_pool(1), Some(PASSPHRASE)).err().unwrap();
    assert!(matches!(error, FsError::AnchorRequired));
}
