use albumfs::fs::block::Carrier;
use albumfs::fs::format::{format_with_options, load_bitmap, open};
use albumfs::fs::superblock::{CarrierRange, Superblock};
use albumfs::fs::{FsError, FS_VERSION, PB, SB_MAGIC, UB};
use albumfs::stego::png::PngImage;
use albumfs::stego::CarrierImage;
use rand::Rng;

fn make_pool(count: usize, size: u32) -> Vec<Carrier> {
    let mut pool = Vec::new();
    let mut rng = rand::thread_rng();
    for index in 0..count {
        let mut rgba = Vec::with_capacity((size * size * 4) as usize);
        for _ in 0..size * size {
            rgba.extend_from_slice(&[rng.gen(), rng.gen(), rng.gen(), rng.gen()]);
        }
        let image = PngImage { width: size, height: size, rgba };
        pool.push(Carrier::new(format!("carrier-{index:03}.png"), CarrierImage::Png(image)));
    }
    pool
}

fn png_of(carrier: &Carrier) -> &PngImage {
    match &carrier.image {
        CarrierImage::Png(image) => image,
        CarrierImage::Jpeg(_) => panic!("expected a PNG carrier"),
    }
}

#[test]
fn format_then_open_roundtrips_geometry() {
    let result = albumfs::fs::format::format(make_pool(3, 512)).unwrap();
    let formatted = result.superblock;
    let (opened, _) = open(result.carriers).unwrap();

    assert_eq!(opened, formatted);
    assert_eq!(&opened.encode()[..8], &SB_MAGIC);
    assert_eq!(opened.version, FS_VERSION);
    assert_eq!(opened.block_size, PB as u32);
    assert_eq!(opened.usable_size, UB as u32);
    assert_eq!(opened.manifest.len(), 3);
    let mut next = 0;
    for carrier in &opened.manifest {
        assert_eq!(carrier.block_start, next);
        next += carrier.block_count;
    }
    assert_eq!(next, opened.total_blocks);
}

#[test]
fn free_count_after_format() {
    let result = albumfs::fs::format::format(make_pool(2, 512)).unwrap();
    let (sb, mut store) = open(result.carriers).unwrap();
    let bitmap = load_bitmap(&mut store, &sb).unwrap();
    assert_eq!(bitmap.count_free(), sb.total_blocks - sb.data_start - 1);
}

#[test]
fn carriers_still_open_as_images() {
    let originals = make_pool(3, 512);
    let result = albumfs::fs::format::format(originals.clone()).unwrap();

    for (before, after) in originals.iter().zip(&result.carriers) {
        assert!(after.modified);
        let (before, after) = (png_of(before), png_of(after));
        assert_eq!((before.width, before.height), (after.width, after.height));
        for (old, new) in before.rgba.chunks(4).zip(after.rgba.chunks(4)) {
            for channel in 0..3 {
                assert_eq!(old[channel] >> 1, new[channel] >> 1);
            }
            assert_eq!(old[3], new[3]);
        }
    }
}

#[test]
fn version_one_superblock_still_decodes() {
    let mut legacy = Superblock::standard(
        12,
        64,
        1,
        2,
        6,
        vec![CarrierRange { name: String::new(), chunk_index: 0, block_start: 0, block_count: 12 }],
        false,
    );
    legacy.version = 1;
    legacy.argon2_mem_kib = 0;
    legacy.argon2_iters = 0;
    legacy.argon2_parallel = 0;
    let decoded = Superblock::decode(&legacy.encode()).unwrap();
    assert_eq!(decoded, legacy);
    assert!(!decoded.encrypted());
}

#[test]
fn format_guard() {
    let result = albumfs::fs::format::format(make_pool(2, 512)).unwrap();

    let error = albumfs::fs::format::format(result.carriers.clone()).unwrap_err();
    assert!(matches!(error, FsError::AlreadyFormatted));
    let forced = format_with_options(result.carriers, None, true).unwrap();
    open(forced.carriers).unwrap();
}

#[test]
fn empty_pool_is_refused() {
    assert!(matches!(albumfs::fs::format::format(Vec::new()), Err(FsError::EmptyPool)));
    assert!(matches!(open(Vec::new()), Err(_)));
}

#[test]
fn superblock_crc_detects_corruption() {
    let sb = Superblock::standard(
        12,
        64,
        1,
        2,
        6,
        vec![CarrierRange { name: String::new(), chunk_index: 0, block_start: 0, block_count: 12 }],
        false,
    );
    let mut bytes = sb.encode();
    assert_eq!(Superblock::decode(&bytes).unwrap(), sb);
    bytes[20] ^= 0x40;
    assert!(matches!(Superblock::decode(&bytes), Err(FsError::SuperblockCrc)));
    bytes[0] ^= 0xff;
    assert!(matches!(Superblock::decode(&bytes), Err(FsError::BadMagic)));
}
