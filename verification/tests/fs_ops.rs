use albumfs::fs::block::Carrier;
use albumfs::fs::{AlbumFs, FsError, UB};
use albumfs::stego::png::PngImage;
use albumfs::stego::CarrierImage;

fn make_pool(count: usize, size: u32) -> Vec<Carrier> {
    let mut pool = Vec::new();
    for image_index in 0..count {
        let mut rgba = Vec::with_capacity((size * size * 4) as usize);
        for pixel_index in 0..size * size {
            let value = pixel_index.wrapping_mul(37).wrapping_add(image_index as u32 * 53);
            rgba.extend_from_slice(&[value as u8, (value >> 7) as u8, (value >> 15) as u8, 255]);
        }
        let image = PngImage { width: size, height: size, rgba };
        pool.push(Carrier::new(format!("carrier-{image_index:03}.png"), CarrierImage::Png(image)));
    }
    pool
}

fn formatted_fs(count: usize, size: u32) -> AlbumFs {
    let result = albumfs::fs::format::format(make_pool(count, size)).unwrap();
    AlbumFs::open(result.carriers).unwrap()
}

#[test]
fn create_read_write_small() {
    let mut fs = formatted_fs(2, 512);
    let ino = fs.create(1, "hello.txt", 0o644).unwrap();
    assert_eq!(fs.write(ino, 0, b"hello albumfs").unwrap(), 13);
    assert_eq!(fs.read(ino, 0, 100).unwrap(), b"hello albumfs");
    assert_eq!(fs.getattr(ino).unwrap().size, 13);
}

#[test]
fn write_spanning_many_blocks() {
    let mut fs = formatted_fs(4, 1024);
    let ino = fs.create(1, "many.bin", 0o644).unwrap();
    let payload: Vec<u8> =
        (0..(15 * UB + 137)).map(|index| (index.wrapping_mul(29) % 251) as u8).collect();
    fs.write(ino, 0, &payload).unwrap();
    assert_eq!(fs.read(ino, 0, payload.len() + 10).unwrap(), payload);
    assert_eq!(fs.getattr(ino).unwrap().block_count, 16);
}

#[test]
fn double_indirect_reach() {
    let mut fs = formatted_fs(3, 1600);
    let ino = fs.create(1, "large.bin", 0o644).unwrap();
    let block_count = 12 + UB / 8 + 1;
    let payload: Vec<u8> =
        (0..(block_count * UB)).map(|index| (index.wrapping_mul(17) % 253) as u8).collect();
    fs.write(ino, 0, &payload).unwrap();
    let inode = fs.getattr(ino).unwrap();
    assert_ne!(inode.double_indirect, 0);
    assert_eq!(inode.block_count as usize, block_count);
    assert_eq!(fs.read(ino, 0, payload.len()).unwrap(), payload);
}

#[test]
fn mkdir_and_readdir() {
    let mut fs = formatted_fs(2, 512);
    let photos = fs.mkdir(1, "photos", 0o755).unwrap();
    let keys = fs.mkdir(1, "keys", 0o755).unwrap();
    let notes = fs.create(1, "notes.txt", 0o644).unwrap();
    let entries = fs.readdir(1).unwrap();
    assert!(entries.contains(&(photos, "photos".into(), 2)));
    assert!(entries.contains(&(keys, "keys".into(), 2)));
    assert!(entries.contains(&(notes, "notes.txt".into(), 1)));
    assert!(entries.contains(&(1, ".".into(), 2)));
    assert!(entries.contains(&(1, "..".into(), 2)));
}

#[test]
fn unlink_frees_space() {
    let mut fs = formatted_fs(2, 768);
    let baseline = fs.free_blocks();
    let ino = fs.create(1, "temporary.bin", 0o644).unwrap();
    fs.write(ino, 0, &vec![0x93; 4 * UB + 7]).unwrap();
    assert_eq!(fs.free_blocks(), baseline - 5);
    fs.unlink(1, "temporary.bin").unwrap();
    assert_eq!(fs.free_blocks(), baseline);
    assert_eq!(fs.lookup(1, "temporary.bin").unwrap(), None);
}

#[test]
fn rmdir_rejects_nonempty() {
    let mut fs = formatted_fs(2, 512);
    let dir = fs.mkdir(1, "work", 0o755).unwrap();
    fs.create(dir, "item", 0o644).unwrap();
    assert!(matches!(fs.rmdir(1, "work"), Err(FsError::NotEmpty)));
    fs.unlink(dir, "item").unwrap();
    fs.rmdir(1, "work").unwrap();
    assert_eq!(fs.lookup(1, "work").unwrap(), None);
}

#[test]
fn rename_moves_and_replaces_entries() {
    let mut fs = formatted_fs(2, 512);
    let left = fs.mkdir(1, "left", 0o755).unwrap();
    let right = fs.mkdir(1, "right", 0o755).unwrap();
    let source = fs.create(left, "source.txt", 0o644).unwrap();
    fs.write(source, 0, b"rename payload").unwrap();
    let target = fs.create(right, "target.txt", 0o644).unwrap();
    fs.write(target, 0, b"old target").unwrap();

    fs.rename(left, "source.txt", right, "target.txt").unwrap();
    assert_eq!(fs.lookup(left, "source.txt").unwrap(), None);
    assert_eq!(fs.lookup(right, "target.txt").unwrap(), Some(source));
    assert_eq!(fs.read(source, 0, 100).unwrap(), b"rename payload");
    assert!(matches!(fs.getattr(target), Err(FsError::NotFound)));
}

#[test]
fn duplicate_names_and_missing_entries_are_refused() {
    let mut fs = formatted_fs(2, 512);
    let ino = fs.create(1, "once.txt", 0o644).unwrap();
    assert!(matches!(fs.create(1, "once.txt", 0o644), Err(FsError::Exists)));
    assert!(matches!(fs.mkdir(1, "once.txt", 0o755), Err(FsError::Exists)));
    assert!(matches!(fs.unlink(1, "missing.txt"), Err(FsError::NotFound)));
    assert!(matches!(fs.create(ino, "child", 0o644), Err(FsError::NotDir)));
    let dir = fs.mkdir(1, "folder", 0o755).unwrap();
    assert!(matches!(fs.unlink(1, "folder"), Err(FsError::IsDir)));
    assert!(matches!(fs.rmdir(1, "once.txt"), Err(FsError::NotDir)));
    assert!(matches!(fs.read(dir, 0, 10), Err(FsError::IsDir)));
}

#[test]
fn write_then_read_at_offsets_and_truncate() {
    let mut fs = formatted_fs(2, 512);
    let ino = fs.create(1, "sparse.bin", 0o644).unwrap();
    assert_eq!(fs.write(ino, 5000, b"tail").unwrap(), 4);
    assert_eq!(fs.getattr(ino).unwrap().size, 5004);
    let read = fs.read(ino, 0, 6000).unwrap();
    assert_eq!(read.len(), 5004);
    assert!(read[..5000].iter().all(|byte| *byte == 0));
    assert_eq!(&read[5000..], b"tail");
    assert_eq!(fs.read(ino, 5002, 10).unwrap(), b"il");
    assert!(fs.read(ino, 9000, 10).unwrap().is_empty());

    fs.truncate(ino, 3).unwrap();
    assert_eq!(fs.getattr(ino).unwrap().size, 3);
    assert_eq!(fs.read(ino, 0, 100).unwrap(), vec![0, 0, 0]);
}

#[test]
fn operations_on_missing_inodes_fail() {
    let mut fs = formatted_fs(2, 512);
    let count = fs.inode_count();
    assert!(matches!(fs.getattr(0), Err(FsError::NotFound)));
    assert!(matches!(fs.getattr(count + 1), Err(FsError::NotFound)));
    assert!(matches!(fs.getattr(2), Err(FsError::NotFound)));
    assert_eq!(fs.used_inodes().unwrap(), 1);
}

#[test]
fn directory_grows_past_one_block() {
    let mut fs = formatted_fs(2, 512);
    let mut made = Vec::new();
    for index in 0..20 {
        let name = format!("entry-{index:02}-{}", "x".repeat(190));
        let ino = fs.create(1, &name, 0o644).unwrap();
        made.push((name, ino));
    }
    assert_eq!(fs.getattr(1).unwrap().size, 2 * UB as u64);
    for (name, ino) in &made {
        assert_eq!(fs.lookup(1, name).unwrap(), Some(*ino));
    }
    let listed = fs.readdir(1).unwrap();
    assert_eq!(listed.len(), 22);
    assert_eq!(listed[0].1, ".");
    assert_eq!(listed[1].1, "..");
    for (index, (name, ino)) in made.iter().enumerate() {
        assert_eq!(&listed[index + 2].1, name);
        assert_eq!(listed[index + 2].0, *ino);
    }
}

#[test]
fn freed_record_is_reused() {
    let mut fs = formatted_fs(2, 512);
    let first = fs.create(1, "first.txt", 0o644).unwrap();
    let second = fs.create(1, "second.txt", 0o644).unwrap();
    fs.unlink(1, "first.txt").unwrap();
    assert_eq!(fs.lookup(1, "first.txt").unwrap(), None);
    let third = fs.create(1, "third.txt", 0o644).unwrap();
    assert_eq!(fs.lookup(1, "second.txt").unwrap(), Some(second));
    assert_eq!(fs.lookup(1, "third.txt").unwrap(), Some(third));
    assert_eq!(fs.getattr(1).unwrap().size, UB as u64);
    assert!(first >= 1);
}
