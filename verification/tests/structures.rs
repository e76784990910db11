use albumfs::fs::bitmap::Bitmap;
use albumfs::fs::dirent::{initial_directory_block, DirEntry};
use albumfs::fs::format::ceil_div;
use albumfs::fs::inode::{Inode, INODE_SIZE, S_IFDIR, S_IFREG};
use albumfs::fs::superblock::validate_name;
use albumfs::fs::{build_physical_block, read_physical_block, FsError, PB, UB};
use albumfs::stego::{decode_header, encode_header, kind_for, ChunkMeta, Codec, CodecError, ImageKind, CHUNK_HEADER_LEN};

#[test]
fn inode_encoding_roundtrips() {
    let mut direct = [0u64; 12];
    for (index, slot) in direct.iter_mut().enumerate() {
        *slot = 1000 + index as u64;
    }
    let inode = Inode {
        mode: S_IFREG | 0o640,
        uid: 1,
        gid: 2,
        nlink: 1,
        size: 123_456,
        atime: 10,
        mtime: 20,
        ctime: 30,
        block_count: 31,
        direct,
        single_indirect: 77,
        double_indirect: 88,
    };
    let bytes = inode.encode();
    assert_eq!(bytes.len(), INODE_SIZE);
    assert_eq!(Inode::decode(&bytes).unwrap(), inode);
    assert!(inode.is_file());
    assert!(!inode.is_dir());
    assert!(matches!(Inode::decode(&bytes[..INODE_SIZE - 1]), Err(FsError::Manifest(_))));
    let dir = Inode { mode: S_IFDIR | 0o755, ..Inode::default() };
    assert!(dir.is_dir());
}

#[test]
fn directory_entries_roundtrip_and_reject_bad_sizes() {
    assert_eq!(DirEntry::required_len(1), 16);
    assert_eq!(DirEntry::required_len(4), 16);
    assert_eq!(DirEntry::required_len(5), 20);
    let entry = DirEntry::new(42, "report.pdf", 1, 24).unwrap();
    let mut block = vec![0xffu8; 64];
    entry.encode_into(&mut block, 8).unwrap();
    assert_eq!(DirEntry::decode(&block, 8).unwrap(), entry);
    assert_eq!(&block[0..8], &[0xff; 8]);
    assert_eq!(&block[32..], &[0xff; 32]);
    assert!(matches!(DirEntry::new(1, "x", 1, 8), Err(FsError::Manifest(_))));
    assert!(matches!(DirEntry::new(1, &"n".repeat(256), 1, 400), Err(FsError::Manifest(_))));
    assert!(matches!(entry.encode_into(&mut block, 50), Err(FsError::Manifest(_))));
}

#[test]
fn a_new_directory_holds_dot_and_dotdot() {
    let block = initial_directory_block(9, 4).unwrap();
    assert_eq!(block.len(), UB);
    let dot = DirEntry::decode(&block, 0).unwrap();
    assert_eq!((dot.inode, dot.name.as_str(), dot.rec_len), (9, ".", 16));
    let dotdot = DirEntry::decode(&block, 16).unwrap();
    assert_eq!((dotdot.inode, dotdot.name.as_str(), dotdot.rec_len as usize), (4, "..", UB - 16));
}

#[test]
fn chunk_header_roundtrips_and_detects_damage() {
    let meta = ChunkMeta { chunk_index: 5, flags: 0x0102 };
    let mut header = encode_header(meta, 777);
    assert_eq!(header.len(), CHUNK_HEADER_LEN);
    assert_eq!(&header[..4], &0x414C_424Du32.to_le_bytes());
    assert_eq!(decode_header(&header).unwrap(), (meta, 777));
    header[6] ^= 0x10;
    assert!(matches!(decode_header(&header), Err(CodecError::HeaderCrc)));
    header[0] ^= 0x01;
    assert!(matches!(decode_header(&header), Err(CodecError::NotACarrier)));
}

#[test]
fn physical_blocks_carry_a_checksum() {
    let payload = vec![0x33u8; 100];
    let mut block = build_physical_block(&payload);
    assert_eq!(block.len(), PB);
    let body = read_physical_block(3, &block).unwrap();
    assert_eq!(body.len(), UB);
    assert_eq!(&body[..100], payload.as_slice());
    assert!(body[100..].iter().all(|byte| *byte == 0));
    block[PB - 1] ^= 0x80;
    assert!(matches!(read_physical_block(3, &block), Err(FsError::BlockCrc(3))));
    assert!(matches!(read_physical_block(3, &block[..PB - 1]), Err(FsError::Manifest(_))));
}

#[test]
fn image_kind_follows_the_extension() {
    assert_eq!(kind_for("photos/cat.PNG"), Some(ImageKind::Png));
    assert_eq!(kind_for("dog.jpg"), Some(ImageKind::Jpeg));
    assert_eq!(kind_for("dog.JpEg"), Some(ImageKind::Jpeg));
    assert_eq!(kind_for("notes.txt"), None);
    assert_eq!(kind_for(".png"), None);
    assert_eq!(kind_for("archive.png/"), Some(ImageKind::Png));
    assert!(Codec::for_path("a.gif").is_none());
    assert!(matches!(Codec::for_path("a.jpeg"), Some(Codec::Jpeg(_))));
}

#[test]
fn manifest_names_are_plain_file_names() {
    assert!(validate_name("carrier-000.png").is_ok());
    assert!(validate_name("").is_err());
    assert!(validate_name(".").is_err());
    assert!(validate_name("..").is_err());
    assert!(validate_name("a/b.png").is_err());
    assert!(validate_name("a\\b.png").is_err());
}

#[test]
fn bitmap_tracks_bits_and_refuses_when_full() {
    let mut bitmap = Bitmap::new(10);
    assert_eq!(bitmap.count_free(), 10);
    bitmap.set(3);
    assert!(bitmap.is_set(3));
    assert!(!bitmap.is_set(4));
    assert!(!bitmap.is_set(100));
    assert_eq!(bitmap.as_bytes(), &[0b0000_1000, 0]);
    assert_eq!(bitmap.alloc_from(3).unwrap(), 4);
    assert_eq!(bitmap.alloc_from(0).unwrap(), 0);
    for _ in 0..7 {
        bitmap.alloc_from(0).unwrap();
    }
    assert_eq!(bitmap.count_free(), 0);
    assert!(matches!(bitmap.alloc_from(0), Err(FsError::NoSpace)));
    let copy = Bitmap::from_bytes(bitmap.as_bytes(), 10);
    assert_eq!(copy.count_free(), 0);
    let short = Bitmap::from_bytes(&[0xff], 10);
    assert_eq!(short.count_free(), 2);
}

#[test]
fn ceil_div_rounds_up() {
    assert_eq!(ceil_div(0, 8), 0);
    assert_eq!(ceil_div(1, 8), 1);
    assert_eq!(ceil_div(16, 8), 2);
    assert_eq!(ceil_div(17, 8), 3);
}
