use albumfs::stego::jpeg::{JpegCodec, JpegImage};
use albumfs::stego::{ChunkMeta, ChunkRead, ChunkWrite, CodecError};

/// Quantized coefficients shaped like those of a 512x512 photo with 4:2:0
/// chroma: a DC term and mostly small AC terms, about a third of them zero.
fn make_jpeg(seed: u32) -> JpegImage {
    let component_blocks = vec![4096usize, 1024, 1024];
    let total: usize = component_blocks.iter().sum();
    let mut state = seed;
    let mut coefficients = Vec::with_capacity(total * 64);
    for _ in 0..total {
        for k in 0..64 {
            state = state.wrapping_mul(1_664_525).wrapping_add(1_013_904_223);
            let noise = (state >> 24) as i16;
            let value = if k == 0 {
                noise * 4 - 512
            } else if noise % 3 == 0 {
                0
            } else {
                noise % 25 - 12
            };
            coefficients.push(value);
        }
    }
    JpegImage { component_blocks, coefficients }
}

#[test]
fn jpeg_coefficient_roundtrip() {
    let mut image = make_jpeg(1);
    let codec = JpegCodec;
    let capacity = codec.capacity_bytes(&image).unwrap();
    assert!(capacity > 2048, "JPEG capacity was only {capacity} bytes");
    let payload: Vec<u8> = (0..2048).map(|index| (index * 31 % 251) as u8).collect();
    let meta = ChunkMeta { chunk_index: 9, flags: 3 };
    codec.write_chunk(&mut image, ChunkWrite::Framed(meta), &payload, &[]).unwrap();
    let (read_meta, read_payload) = codec.read_chunk(&image, ChunkRead::Framed, &[]).unwrap();
    assert_eq!(read_meta, meta);
    assert_eq!(read_payload, payload);
}

#[test]
fn jpeg_capacity_stable() {
    let mut image = make_jpeg(2);
    let codec = JpegCodec;
    let before = codec.capacity_bytes(&image).unwrap();
    codec
        .write_chunk(&mut image, ChunkWrite::Framed(ChunkMeta { chunk_index: 1, flags: 0 }), &[0x5a; 1024], &[])
        .unwrap();
    let after = codec.capacity_bytes(&image).unwrap();
    assert_eq!(before, after);
}

#[test]
fn jpeg_not_a_carrier() {
    let plain = make_jpeg(3);
    let codec = JpegCodec;
    assert!(matches!(
        codec.read_chunk(&plain, ChunkRead::Framed, &[]),
        Err(CodecError::NotACarrier) | Err(CodecError::HeaderCrc)
    ));
}

#[test]
fn jpeg_write_only_moves_magnitudes_by_one() {
    let before = make_jpeg(4);
    let mut after = before.clone();
    let codec = JpegCodec;
    codec
        .write_chunk(&mut after, ChunkWrite::Framed(ChunkMeta { chunk_index: 0, flags: 1 }), &[0xa6; 1024], &[])
        .unwrap();
    assert_eq!(before.component_blocks, after.component_blocks);
    assert_eq!(before.coefficients.len(), after.coefficients.len());
    let mut changed = 0;
    for (index, (old, new)) in before.coefficients.iter().zip(&after.coefficients).enumerate() {
        if index % 64 == 0 || old.abs() < 2 {
            assert_eq!(old, new);
        } else {
            assert_eq!(old.signum(), new.signum());
            assert!((old.abs() - new.abs()).abs() <= 1);
            assert!(new.abs() >= 2);
        }
        if old != new {
            changed += 1;
        }
    }
    assert!(changed > 0);
}

#[test]
fn jpeg_markerless_roundtrip_and_too_large() {
    let mut image = make_jpeg(5);
    let codec = JpegCodec;
    let raw = codec.raw_capacity_bytes(&image).unwrap();
    let key = [0x42; 32];
    let payload: Vec<u8> = (0..4000).map(|index| (index * 7 % 256) as u8).collect();
    codec.write_chunk(&mut image, ChunkWrite::Markerless { chunk_index: 3 }, &payload, &key).unwrap();
    let read = ChunkRead::Markerless { chunk_index: 3, payload_len: payload.len() };
    assert_eq!(codec.read_chunk(&image, read, &key).unwrap().1, payload);
    let too_large = vec![0u8; raw as usize + 1];
    assert!(matches!(
        codec.write_chunk(&mut image, ChunkWrite::Markerless { chunk_index: 3 }, &too_large, &key),
        Err(CodecError::PayloadTooLarge { .. })
    ));
    assert!(matches!(
        codec.write_chunk(&mut image, ChunkWrite::Markerless { chunk_index: 3 }, &payload, &[1, 2, 3]),
        Err(CodecError::InvalidMode(_))
    ));
}

#[test]
fn jpeg_capacity_counts_usable_ac_coefficients() {
    let mut coefficients = vec![0i16; 128];
    coefficients[0] = 100;
    coefficients[1] = 2;
    coefficients[2] = -3;
    coefficients[3] = 1;
    coefficients[64] = 50;
    for index in 65..72 {
        coefficients[index] = -2;
    }
    let image = JpegImage { component_blocks: vec![2], coefficients };
    assert_eq!(JpegCodec.raw_capacity_bytes(&image).unwrap(), 1);
    assert_eq!(JpegCodec.capacity_bytes(&image).unwrap(), 0);
}
