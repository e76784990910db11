use std::collections::BTreeSet;

use albumfs::fs::block::Carrier;
use albumfs::fs::{AlbumFs, UB};
use albumfs::stego::jpeg::JpegImage;
use albumfs::stego::png::PngImage;
use albumfs::stego::CarrierImage;

/// Quantized coefficients shaped like those of a textured 512x512 photo with
/// 4:2:0 chroma.
fn textured_jpeg(seed: u32) -> JpegImage {
    let component_blocks = vec![4096usize, 1024, 1024];
    let total: usize = component_blocks.iter().sum();
    let mut state = seed;
    let mut coefficients = Vec::with_capacity(total * 64);
    for _ in 0..total {
        for k in 0..64 {
            state = state.wrapping_mul(1_103_515_245).wrapping_add(12_345);
            let noise = (state >> 24) as i16;
            let value = if k == 0 {
                noise * 4 - 512
            } else if noise % 3 == 0 {
                0
            } else {
                noise % 25 - 12
            };
            coefficients.push(value);
        }
    }
    JpegImage { component_blocks, coefficients }
}

fn textured_png(width: u32, height: u32, seed: u32) -> PngImage {
    let mut state = seed;
    let mut rgba = Vec::with_capacity((width * height * 4) as usize);
    for index in 0..width * height {
        state = state.wrapping_mul(1_103_515_245).wrapping_add(12_345);
        let x = index % width;
        let y = index / width;
        let noise = (state >> 24) as u8;
        rgba.extend_from_slice(&[
            (x as u8).wrapping_add(noise / 2),
            (y as u8).wrapping_add(noise / 3),
            ((x * 3 + y * 5) as u8).wrapping_add(noise / 4),
            255,
        ]);
    }
    PngImage { width, height, rgba }
}

fn make_jpeg_pool(count: usize) -> Vec<Carrier> {
    (0..count)
        .map(|index| {
            Carrier::new(
                format!("carrier-{index:03}.jpg"),
                CarrierImage::Jpeg(textured_jpeg(index as u32 + 10)),
            )
        })
        .collect()
}

fn names(fs: &mut AlbumFs, ino: u64) -> BTreeSet<String> {
    fs.readdir(ino).unwrap().into_iter().map(|(_, name, _)| name).collect()
}

fn set_of(names: &[&str]) -> BTreeSet<String> {
    names.iter().map(|name| name.to_string()).collect()
}

#[test]
fn fs_over_jpeg_reload() {
    let result = albumfs::fs::format::format(make_jpeg_pool(8)).unwrap();
    let mut fs = AlbumFs::open(result.carriers).unwrap();
    let folder = fs.mkdir(1, "records", 0o755).unwrap();
    let file = fs.create(folder, "ledger.bin", 0o644).unwrap();
    let payload: Vec<u8> = (0..(2 * UB + 37)).map(|index| (index * 19 % 251) as u8).collect();
    fs.write(file, 0, &payload).unwrap();
    fs.sync().unwrap();
    let carriers = fs.into_carriers();

    let mut reopened = AlbumFs::open(carriers).unwrap();
    let folder = reopened.lookup(1, "records").unwrap().unwrap();
    let file = reopened.lookup(folder, "ledger.bin").unwrap().unwrap();
    assert_eq!(reopened.read(file, 0, payload.len()).unwrap(), payload);
    assert_eq!(names(&mut reopened, 1), set_of(&[".", "..", "records"]));
    assert_eq!(names(&mut reopened, folder), set_of(&[".", "..", "ledger.bin"]));
}

#[test]
fn mixed_pool_reload() {
    let mut pool = make_jpeg_pool(4);
    for index in 0..2 {
        pool.push(Carrier::new(
            format!("carrier-png-{index:03}.png"),
            CarrierImage::Png(textured_png(512, 512, index as u32 + 100)),
        ));
    }
    let result = albumfs::fs::format::format(pool).unwrap();
    assert_eq!(result.superblock.manifest.len(), 6);
    let mut fs = AlbumFs::open(result.carriers).unwrap();
    let file = fs.create(1, "mixed.dat", 0o644).unwrap();
    let payload: Vec<u8> = (0..(UB + 91)).map(|index| (index * 23 % 253) as u8).collect();
    fs.write(file, 0, &payload).unwrap();
    fs.sync().unwrap();
    let carriers = fs.into_carriers();

    let mut reopened = AlbumFs::open(carriers).unwrap();
    let file = reopened.lookup(1, "mixed.dat").unwrap().unwrap();
    assert_eq!(reopened.read(file, 0, payload.len()).unwrap(), payload);
}

#[test]
fn carrier_kind_must_match_its_name() {
    let pool = vec![Carrier::new("carrier-000.png".to_string(), CarrierImage::Jpeg(textured_jpeg(1)))];
    assert!(albumfs::fs::format::format(pool).is_err());
    let pool = vec![Carrier::new("carrier-000.gif".to_string(), CarrierImage::Jpeg(textured_jpeg(1)))];
    assert!(albumfs::fs::format::format(pool).is_err());
}
