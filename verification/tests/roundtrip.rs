use albumfs::stego::png::{PngCodec, PngImage};
use albumfs::stego::{ChunkMeta, ChunkRead, ChunkWrite, CodecError};
use rand::Rng;

fn make_carrier(w: u32, h: u32) -> PngImage {
    let mut rng = rand::thread_rng();
    let mut rgba = Vec::with_capacity((w * h * 4) as usize);
    for _ in 0..w * h {
        rgba.extend_from_slice(&[rng.gen(), rng.gen(), rng.gen(), 255]);
    }
    PngImage { width: w, height: h, rgba }
}

#[test]
fn roundtrip_various_sizes() {
    let codec = PngCodec;
    let cap = codec.capacity_bytes(&make_carrier(200, 200)).unwrap();

    for n in [0usize, 1, 64, (cap / 2) as usize, cap as usize] {
        let mut p = make_carrier(200, 200);
        let mut payload = vec![0u8; n];
        rand::thread_rng().fill(&mut payload[..]);
        let meta = ChunkMeta { chunk_index: 7, flags: 1 };
        codec.write_chunk(&mut p, ChunkWrite::Framed(meta), &payload, &[]).unwrap();
        let (rm, rp) = codec.read_chunk(&p, ChunkRead::Framed, &[]).unwrap();
        assert_eq!(rm, meta, "meta mismatch at size {n}");
        assert_eq!(rp, payload, "payload mismatch at size {n}");
    }
}

#[test]
fn payload_too_large_errors() {
    let mut p = make_carrier(64, 64);
    let codec = PngCodec;
    let cap = codec.capacity_bytes(&p).unwrap();
    let payload = vec![0u8; cap as usize + 1];
    let err = codec
        .write_chunk(
            &mut p,
            ChunkWrite::Framed(ChunkMeta { chunk_index: 0, flags: 0 }),
            &payload,
            &[],
        )
        .unwrap_err();
    assert!(matches!(err, CodecError::PayloadTooLarge { .. }));
}

#[test]
fn plain_image_is_not_a_carrier() {
    let p = make_carrier(64, 64);
    let codec = PngCodec;
    let err = codec.read_chunk(&p, ChunkRead::Framed, &[]).unwrap_err();
    assert!(matches!(err, CodecError::NotACarrier));
}

#[test]
fn capacity_counts_three_low_bits_per_pixel() {
    let codec = PngCodec;
    let image = make_carrier(64, 64);
    assert_eq!(codec.raw_capacity_bytes(&image).unwrap(), 64 * 64 * 3 / 8);
    assert_eq!(codec.capacity_bytes(&image).unwrap(), 64 * 64 * 3 / 8 - 16);
}

#[test]
fn payload_at_exact_capacity_fits() {
    let mut image = make_carrier(16, 16);
    let codec = PngCodec;
    let cap = codec.capacity_bytes(&image).unwrap();
    let payload = vec![0x3c; cap as usize];
    let meta = ChunkMeta { chunk_index: 2, flags: 0 };
    codec.write_chunk(&mut image, ChunkWrite::Framed(meta), &payload, &[]).unwrap();
    assert_eq!(codec.read_chunk(&image, ChunkRead::Framed, &[]).unwrap(), (meta, payload));
}

#[test]
fn malformed_image_is_rejected() {
    let mut image = PngImage { width: 4, height: 4, rgba: vec![0; 10] };
    let codec = PngCodec;
    assert!(matches!(codec.capacity_bytes(&image), Err(CodecError::Image(_))));
    let meta = ChunkMeta { chunk_index: 0, flags: 0 };
    assert!(matches!(
        codec.write_chunk(&mut image, ChunkWrite::Framed(meta), &[], &[]),
        Err(CodecError::Image(_))
    ));
}
