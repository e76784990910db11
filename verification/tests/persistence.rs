use std::collections::BTreeSet;

use albumfs::fs::block::Carrier;
use albumfs::fs::{AlbumFs, UB};
use albumfs::stego::png::PngImage;
use albumfs::stego::CarrierImage;

fn make_pool(count: usize, size: u32) -> Vec<Carrier> {
    let mut pool = Vec::new();
    for image_index in 0..count {
        let mut rgba = Vec::with_capacity((size * size * 4) as usize);
        for pixel_index in 0..size * size {
            let value = pixel_index.wrapping_mul(71).wrapping_add(image_index as u32 * 101);
            rgba.extend_from_slice(&[
                value as u8,
                (value >> 5) as u8,
                (value >> 13) as u8,
                200 + image_index as u8,
            ]);
        }
        let image = PngImage { width: size, height: size, rgba };
        pool.push(Carrier::new(format!("carrier-{image_index:03}.png"), CarrierImage::Png(image)));
    }
    pool
}

fn build_tree(fs: &mut AlbumFs) -> (Vec<u8>, Vec<u8>, Vec<u8>) {
    let notes: Vec<u8> = (0..40).map(|index| b'A' + index % 26).collect();
    let list: Vec<u8> = (0..(3 * UB + 17)).map(|index| (index.wrapping_mul(43) % 251) as u8).collect();
    let key: Vec<u8> = (0usize..512).map(|index| (index.wrapping_mul(11) % 256) as u8).collect();

    let notes_ino = fs.create(1, "notes.txt", 0o644).unwrap();
    fs.write(notes_ino, 0, &notes).unwrap();
    let photos = fs.mkdir(1, "photos", 0o755).unwrap();
    let list_ino = fs.create(photos, "list.csv", 0o644).unwrap();
    fs.write(list_ino, 0, &list).unwrap();
    let keys = fs.mkdir(1, "keys", 0o755).unwrap();
    let key_ino = fs.create(keys, "id_ed25519", 0o600).unwrap();
    fs.write(key_ino, 0, &key).unwrap();
    (notes, list, key)
}

fn names(fs: &mut AlbumFs, ino: u64) -> BTreeSet<String> {
    fs.readdir(ino).unwrap().into_iter().map(|(_, name, _)| name).collect()
}

fn set_of(names: &[&str]) -> BTreeSet<String> {
    names.iter().map(|name| name.to_string()).collect()
}

fn png_of(carrier: &Carrier) -> &PngImage {
    match &carrier.image {
        CarrierImage::Png(image) => image,
        CarrierImage::Jpeg(_) => panic!("expected a PNG carrier"),
    }
}

#[test]
fn tree_survives_full_reload() {
    let result = albumfs::fs::format::format(make_pool(3, 768)).unwrap();
    let mut fs = AlbumFs::open(result.carriers).unwrap();
    let (notes, list, key) = build_tree(&mut fs);
    fs.sync().unwrap();
    let carriers = fs.into_carriers();

    let mut fs = AlbumFs::open(carriers).unwrap();
    let notes_ino = fs.lookup(1, "notes.txt").unwrap().unwrap();
    let photos = fs.lookup(1, "photos").unwrap().unwrap();
    let list_ino = fs.lookup(photos, "list.csv").unwrap().unwrap();
    let keys = fs.lookup(1, "keys").unwrap().unwrap();
    let key_ino = fs.lookup(keys, "id_ed25519").unwrap().unwrap();
    assert_eq!(fs.read(notes_ino, 0, notes.len()).unwrap(), notes);
    assert_eq!(fs.read(list_ino, 0, list.len()).unwrap(), list);
    assert_eq!(fs.read(key_ino, 0, key.len()).unwrap(), key);
    assert_eq!(names(&mut fs, 1), set_of(&[".", "..", "keys", "notes.txt", "photos"]));
    assert_eq!(names(&mut fs, photos), set_of(&[".", "..", "list.csv"]));
    assert_eq!(names(&mut fs, keys), set_of(&[".", "..", "id_ed25519"]));
}

#[test]
fn carriers_still_images_after_tree() {
    let originals = make_pool(3, 768);
    let result = albumfs::fs::format::format(originals.clone()).unwrap();
    let mut fs = AlbumFs::open(result.carriers).unwrap();
    build_tree(&mut fs);
    fs.sync().unwrap();
    let carriers = fs.into_carriers();

    for (before, after) in originals.iter().zip(&carriers) {
        let (before, after) = (png_of(before), png_of(after));
        assert_eq!((before.width, before.height), (after.width, after.height));
        for (old, new) in before.rgba.chunks(4).zip(after.rgba.chunks(4)) {
            for channel in 0..3 {
                assert_eq!(old[channel] >> 1, new[channel] >> 1);
            }
            assert_eq!(old[3], new[3]);
        }
    }
}

#[test]
fn each_operation_reaches_the_images() {
    let result = albumfs::fs::format::format(make_pool(2, 512)).unwrap();
    let mut fs = AlbumFs::open(result.carriers).unwrap();
    let ino = fs.create(1, "draft.txt", 0o644).unwrap();
    fs.write(ino, 0, b"draft").unwrap();
    let carriers = fs.into_carriers();
    let mut reopened = AlbumFs::open(carriers).unwrap();
    assert_eq!(reopened.lookup(1, "draft.txt").unwrap(), Some(ino));
    assert_eq!(reopened.read(ino, 0, 10).unwrap(), b"draft");
}
