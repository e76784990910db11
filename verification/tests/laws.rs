use albumfs::fs::block::Carrier;
use albumfs::fs::format::{format_with_anchor_options, load_bitmap, open};
use albumfs::fs::{AlbumFs, FsError};
use albumfs::stego::png::PngImage;
use albumfs::stego::CarrierImage;

fn make_pool(count: usize, side: u32) -> Vec<Carrier> {
    let mut pool = Vec::new();
    for image_index in 0..count {
        let mut rgba = Vec::with_capacity((side * side * 4) as usize);
        for pixel_index in 0..side * side {
            let value = pixel_index.wrapping_mul(2_654_435_761).wrapping_add(image_index as u32 * 97);
            rgba.extend_from_slice(&[value as u8, (value >> 8) as u8, (value >> 16) as u8, 255]);
        }
        let image = PngImage { width: side, height: side, rgba };
        pool.push(Carrier::new(format!("carrier-{image_index:03}.png"), CarrierImage::Png(image)));
    }
    pool
}

#[test]
fn format_then_open_gives_the_superblock_and_bitmap_back() {
    let result = format_with_anchor_options(make_pool(2, 256), None, None, false).unwrap();
    // 256 * 256 * 3 / 8 - 16 bytes of chunk capacity hold 5 blocks per carrier.
    assert_eq!(result.superblock.manifest.len(), 2);
    assert!(result.superblock.manifest.iter().all(|range| range.block_count == 5));
    let (sb, mut store) = open(result.carriers).unwrap();
    assert_eq!(sb.total_blocks, result.superblock.total_blocks);
    assert_eq!(sb.manifest, result.superblock.manifest);
    assert_eq!(sb.data_start, result.superblock.data_start);
    let bitmap = load_bitmap(&mut store, &sb).unwrap();
    // The metadata blocks below the data area and the root directory's block.
    assert_eq!(bitmap.count_free(), sb.total_blocks - sb.data_start - 1);
}

#[test]
fn second_format_without_force_is_refused() {
    let result = format_with_anchor_options(make_pool(2, 256), None, None, false).unwrap();
    let error = format_with_anchor_options(result.carriers, None, None, false).err().unwrap();
    assert!(matches!(error, FsError::AlreadyFormatted));
}

#[test]
fn open_without_a_primary_carrier_is_refused() {
    assert!(matches!(open(make_pool(2, 64)).err().unwrap(), FsError::NoPrimary));
    assert!(matches!(AlbumFs::open(make_pool(1, 64)).err().unwrap(), FsError::NoPrimary));
}
