use albumfs::fs::block::Carrier;
use albumfs::fs::fuse::{apply_attr_changes, readdir_page, AttrChanges};
use albumfs::fs::inode::{S_IFDIR, S_IFREG};
use albumfs::fs::{AlbumFs, Inode};
use albumfs::stego::png::PngImage;
use albumfs::stego::CarrierImage;

fn no_changes() -> AttrChanges {
    AttrChanges { mode: None, uid: None, gid: None, atime: None, mtime: None, ctime: None }
}

#[test]
fn readdir_offset_paging() {
    let mut visited = Vec::new();
    let mut offset = 0;
    loop {
        let page = readdir_page(11, offset, 3);
        if page.is_empty() {
            break;
        }
        visited.extend(page.iter().map(|(index, _)| *index));
        offset = page.last().unwrap().1;
    }
    assert_eq!(visited, (0..11).collect::<Vec<_>>());
    assert_eq!(readdir_page(4, -1, 2), vec![(0, 1), (1, 2)]);
    assert!(readdir_page(4, 4, 2).is_empty());
}

#[test]
fn attr_changes_keep_the_file_type() {
    let directory = Inode { mode: S_IFDIR | 0o751, uid: 1000, gid: 1001, nlink: 3, ..Inode::default() };
    let changed = apply_attr_changes(
        directory,
        AttrChanges { mode: Some(S_IFREG | 0o600), uid: Some(7), ..no_changes() },
    );
    assert_eq!(changed.mode, S_IFDIR | 0o600);
    assert_eq!(changed.uid, 7);
    assert_eq!(changed.gid, 1001);
    assert_eq!(changed.nlink, 3);
    assert_eq!(apply_attr_changes(directory, no_changes()), directory);
}

#[test]
fn setattr_truncates_and_changes_times() {
    let mut rgba = Vec::with_capacity(512 * 512 * 4);
    for index in 0..512u32 * 512 {
        rgba.extend_from_slice(&[index as u8, (index >> 8) as u8, (index >> 3) as u8, 255]);
    }
    let pool = vec![Carrier::new("carrier-000.png".into(), CarrierImage::Png(PngImage { width: 512, height: 512, rgba }))];
    let result = albumfs::fs::format::format(pool).unwrap();
    let mut fs = AlbumFs::open(result.carriers).unwrap();
    let ino = fs.create(1, "attrs.txt", 0o644).unwrap();
    fs.write(ino, 0, b"0123456789").unwrap();
    let inode = fs
        .setattr(ino, Some(4), AttrChanges { mtime: Some(1234), mode: Some(0o600), ..no_changes() })
        .unwrap();
    assert_eq!(inode.size, 4);
    assert_eq!(inode.mtime, 1234);
    assert_eq!(inode.mode, S_IFREG | 0o600);
    assert_eq!(fs.read(ino, 0, 100).unwrap(), b"0123");
    assert_eq!(fs.getattr(ino).unwrap(), inode);
}
