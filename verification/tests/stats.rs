use albumfs::fs::block::Carrier;
use albumfs::fs::format::{load_bitmap, open};
use albumfs::fs::stats::{collect, CarrierFill, FsStats};
use albumfs::fs::{AlbumFs, FsError, UB};
use albumfs::stego::png::PngImage;
use albumfs::stego::CarrierImage;

fn make_pool(count: usize) -> Vec<Carrier> {
    let mut pool = Vec::new();
    for image_index in 0..count {
        let mut rgba = Vec::with_capacity(512 * 512 * 4);
        for pixel_index in 0..512u32 * 512 {
            let value = pixel_index.wrapping_mul(1597).wrapping_add(image_index as u32 * 61);
            rgba.extend_from_slice(&[value as u8, (value >> 7) as u8, (value >> 15) as u8, 255]);
        }
        let image = PngImage { width: 512, height: 512, rgba };
        pool.push(Carrier::new(format!("carrier-{image_index:03}.png"), CarrierImage::Png(image)));
    }
    pool
}

#[test]
fn stats_reports_fields() {
    let result = albumfs::fs::format::format(make_pool(2)).unwrap();
    let formatted = result.superblock;
    let (opened, mut store) = open(result.carriers.clone()).unwrap();
    let bitmap = load_bitmap(&mut store, &opened).unwrap();
    let expected_free = bitmap.count_free();

    let stats = collect(result.carriers, None).unwrap();
    assert_eq!(stats.block_size, formatted.block_size);
    assert_eq!(stats.total_blocks, formatted.total_blocks);
    assert_eq!(stats.free_blocks, expected_free);
    assert_eq!(stats.used_inodes, 1);
    assert_eq!(stats.total_inodes, formatted.inode_count);
    assert!(!stats.encrypted);
    assert_eq!(stats.carriers.len(), formatted.manifest.len());
    assert_eq!(
        stats.carriers.iter().map(|carrier| carrier.capacity_blocks).sum::<u64>(),
        formatted.total_blocks
    );
    assert_eq!(
        stats.carriers.iter().map(|carrier| carrier.used_blocks).sum::<u64>(),
        formatted.total_blocks - expected_free
    );
}

#[test]
fn stats_warns_below_ten_percent_free() {
    let stats = FsStats {
        block_size: 4096,
        total_blocks: 100,
        free_blocks: 9,
        used_inodes: 4,
        total_inodes: 64,
        encrypted: true,
        carriers: vec![CarrierFill { chunk_index: 0, used_blocks: 91, capacity_blocks: 100 }],
    };
    assert!(stats.low_space());
}

#[test]
fn low_space_threshold_is_exactly_ten_percent() {
    let mut stats = FsStats {
        block_size: 4096,
        total_blocks: 100,
        free_blocks: 10,
        used_inodes: 1,
        total_inodes: 64,
        encrypted: false,
        carriers: Vec::new(),
    };
    assert!(!stats.low_space());
    stats.total_blocks = 0;
    stats.free_blocks = 0;
    assert!(!stats.low_space());
}

#[test]
fn stats_follow_file_growth() {
    let result = albumfs::fs::format::format(make_pool(2)).unwrap();
    let mut fs = AlbumFs::open(result.carriers).unwrap();
    let before = fs.free_blocks();
    let ino = fs.create(1, "grow.bin", 0o644).unwrap();
    fs.write(ino, 0, &vec![7u8; 2 * UB]).unwrap();
    let carriers = fs.into_carriers();
    let stats = collect(carriers, None).unwrap();
    assert_eq!(stats.free_blocks, before - 2);
    assert_eq!(stats.used_inodes, 2);
}

#[test]
fn stats_of_an_encrypted_pool_need_the_anchor() {
    assert!(matches!(collect(make_pool(1), Some("secret")), Err(FsError::AnchorRequired)));
}
