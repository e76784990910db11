use albumfs::fs::block::Carrier;
use albumfs::fs::{AlbumFs, FsError};
use albumfs::stego::png::PngImage;
use albumfs::stego::CarrierImage;

fn make_pool(count: usize, size: u32) -> Vec<Carrier> {
    let mut pool = Vec::new();
    for image_index in 0..count {
        let mut rgba = Vec::with_capacity((size * size * 4) as usize);
        for pixel_index in 0..size * size {
            let value = pixel_index.wrapping_mul(41).wrapping_add(image_index as u32 * 71);
            rgba.extend_from_slice(&[value as u8, (value >> 6) as u8, (value >> 13) as u8, 255]);
        }
        let image = PngImage { width: size, height: size, rgba };
        pool.push(Carrier::new(format!("photo-{image_index:03}.png"), CarrierImage::Png(image)));
    }
    pool
}

fn formatted_fs() -> AlbumFs {
    let result = albumfs::fs::format::format(make_pool(2, 512)).unwrap();
    AlbumFs::open(result.carriers).unwrap()
}

#[test]
fn truncate_of_a_free_inode_is_not_found() {
    let mut fs = formatted_fs();
    assert!(matches!(fs.truncate(5, 0), Err(FsError::NotFound)));
    assert!(matches!(fs.truncate(0, 0), Err(FsError::NotFound)));
}

#[test]
fn truncate_of_a_directory_is_refused() {
    let mut fs = formatted_fs();
    let dir = fs.mkdir(1, "albums", 0o755).unwrap();
    assert!(matches!(fs.truncate(dir, 0), Err(FsError::IsDir)));
    assert!(matches!(fs.truncate(1, 0), Err(FsError::IsDir)));
}

#[test]
fn growing_a_file_by_truncate_succeeds_and_reads_zeros() {
    let mut fs = formatted_fs();
    let ino = fs.create(1, "grow.bin", 0o644).unwrap();
    fs.write(ino, 0, b"abc").unwrap();
    fs.truncate(ino, 10).unwrap();
    assert_eq!(fs.getattr(ino).unwrap().size, 10);
    assert_eq!(fs.read(ino, 0, 20).unwrap(), b"abc\0\0\0\0\0\0\0".to_vec());
}

#[test]
fn write_to_a_free_inode_is_not_found_and_empty_write_never_lacks_space() {
    let mut fs = formatted_fs();
    assert!(matches!(fs.write(7, 0, b"data"), Err(FsError::NotFound)));
    let ino = fs.create(1, "empty.bin", 0o644).unwrap();
    assert_eq!(fs.write(ino, 0, b"").unwrap(), 0);
}

#[test]
fn rmdir_and_unlink_tell_files_from_directories() {
    let mut fs = formatted_fs();
    let dir = fs.mkdir(1, "trip", 0o755).unwrap();
    fs.create(dir, "day1.txt", 0o644).unwrap();
    fs.create(1, "notes.txt", 0o644).unwrap();
    assert!(matches!(fs.rmdir(1, "trip"), Err(FsError::NotEmpty)));
    assert!(matches!(fs.rmdir(1, "notes.txt"), Err(FsError::NotDir)));
    assert!(matches!(fs.unlink(1, "trip"), Err(FsError::IsDir)));
    fs.unlink(dir, "day1.txt").unwrap();
    fs.rmdir(1, "trip").unwrap();
    assert_eq!(fs.lookup(1, "trip").unwrap(), None);
}

#[test]
fn sync_of_an_opened_filesystem_succeeds() {
    let mut fs = formatted_fs();
    fs.sync().unwrap();
    let ino = fs.create(1, "kept.txt", 0o644).unwrap();
    fs.write(ino, 0, b"kept").unwrap();
    fs.sync().unwrap();
    let carriers = fs.into_carriers();
    let mut reopened = AlbumFs::open(carriers).unwrap();
    let found = reopened.lookup(1, "kept.txt").unwrap().unwrap();
    assert_eq!(reopened.read(found, 0, 10).unwrap(), b"kept".to_vec());
}

#[test]
fn rename_refuses_to_mix_files_and_directories() {
    let mut fs = formatted_fs();
    fs.mkdir(1, "dir", 0o755).unwrap();
    fs.create(1, "file.txt", 0o644).unwrap();
    assert!(matches!(fs.rename(1, "dir", 1, "file.txt"), Err(FsError::NotDir)));
    assert!(matches!(fs.rename(1, "file.txt", 1, "dir"), Err(FsError::IsDir)));
    fs.rename(1, "file.txt", 1, "file.txt").unwrap();
    assert!(fs.lookup(1, "file.txt").unwrap().is_some());
}
