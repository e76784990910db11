use albumfs::fs::block::Carrier;
use albumfs::fs::carrier_file::{carrier_file_bytes, load_carrier};
use albumfs::fs::FsError;
use albumfs::stego::png::PngImage;
use albumfs::stego::{kind_for, CarrierImage, CodecError, ImageKind};

fn small_png() -> PngImage {
    let mut rgba = Vec::new();
    for index in 0..(7u32 * 5) {
        rgba.extend_from_slice(&[(index * 3) as u8, (index * 5) as u8, (index * 7) as u8, 255]);
    }
    PngImage { width: 7, height: 5, rgba }
}

#[test]
fn kind_for_skips_trailing_dot_components() {
    assert_eq!(kind_for("x/a.png/."), Some(ImageKind::Png));
    assert_eq!(kind_for("x/a.png/./"), Some(ImageKind::Png));
    assert_eq!(kind_for("x/b.Jpeg/"), Some(ImageKind::Jpeg));
    assert_eq!(kind_for("a.PNG"), Some(ImageKind::Png));
    assert_eq!(kind_for("c.gif"), None);
    assert_eq!(kind_for("noext"), None);
    assert_eq!(kind_for(".png"), None);
    assert_eq!(kind_for("/."), None);
}

#[test]
fn png_file_bytes_roundtrip() {
    let carrier = Carrier::new("carrier-000.png".to_string(), CarrierImage::Png(small_png()));
    let bytes = carrier_file_bytes(&carrier).unwrap();
    assert_eq!(&bytes[..8], &[0x89, b'P', b'N', b'G', 0x0d, 0x0a, 0x1a, 0x0a]);
    let loaded = load_carrier("carrier-000.png".to_string(), &bytes).unwrap();
    assert_eq!(loaded.name, "carrier-000.png");
    assert!(!loaded.modified);
    match loaded.image {
        CarrierImage::Png(png) => {
            let expected = small_png();
            assert_eq!((png.width, png.height), (7, 5));
            assert_eq!(png.rgba, expected.rgba);
        }
        CarrierImage::Jpeg(_) => panic!("a PNG file loaded as JPEG"),
    }
}

#[test]
fn carrier_files_that_cannot_load() {
    assert!(matches!(
        load_carrier("broken.png".to_string(), &[1, 2, 3, 4]),
        Err(FsError::Codec(CodecError::Image(_)))
    ));
    assert!(matches!(
        load_carrier("photo.jpg".to_string(), &[0xff, 0xd8]),
        Err(FsError::Codec(CodecError::Jpeg(_)))
    ));
    assert!(matches!(
        load_carrier("photo.gif".to_string(), &[0; 16]),
        Err(FsError::Codec(CodecError::Image(_)))
    ));
    let skewed = PngImage { width: 7, height: 5, rgba: vec![0; 12] };
    let carrier = Carrier::new("skewed.png".to_string(), CarrierImage::Png(skewed));
    assert!(matches!(carrier_file_bytes(&carrier), Err(FsError::Codec(CodecError::Image(_)))));
}
