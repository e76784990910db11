use albumfs::fs::bitmap::Bitmap;
use albumfs::fs::block::Carrier;
use albumfs::fs::format::open;
use albumfs::fs::{FsError, BLOCK_HEADER, PB, UB};
use albumfs::stego::png::{PngCodec, PngImage};
use albumfs::stego::{CarrierImage, ChunkMeta, ChunkRead, ChunkWrite};
use rand::Rng;

fn make_pool(count: usize, size: u32) -> Vec<Carrier> {
    let mut pool = Vec::new();
    let mut rng = rand::thread_rng();
    for index in 0..count {
        let mut rgba = Vec::with_capacity((size * size * 4) as usize);
        for _ in 0..size * size {
            rgba.extend_from_slice(&[rng.gen(), rng.gen(), rng.gen(), 255]);
        }
        let image = PngImage { width: size, height: size, rgba };
        pool.push(Carrier::new(format!("carrier-{index:03}.png"), CarrierImage::Png(image)));
    }
    pool
}

fn png_of(carrier: &mut Carrier) -> &mut PngImage {
    match &mut carrier.image {
        CarrierImage::Png(image) => image,
        CarrierImage::Jpeg(_) => panic!("expected a PNG carrier"),
    }
}

#[test]
fn block_roundtrip_survives_reload() {
    let formatted = albumfs::fs::format::format(make_pool(3, 512)).unwrap();
    let sb = formatted.superblock;
    let (_, mut store) = open(formatted.carriers).unwrap();
    let blocks = [sb.data_start, sb.data_start + 2, sb.total_blocks - 1];
    let payloads = [vec![0x11; UB], vec![0x5a; 777], vec![0xe3; UB]];
    for (block, payload) in blocks.into_iter().zip(&payloads) {
        store.write_block(block, payload).unwrap();
    }
    store.flush().unwrap();
    let carriers = store.into_carriers();

    let (_, mut reopened) = open(carriers).unwrap();
    for (block, payload) in blocks.into_iter().zip(&payloads) {
        let read = reopened.read_block(block).unwrap();
        assert_eq!(&read[..payload.len()], payload.as_slice());
        assert!(read[payload.len()..].iter().all(|byte| *byte == 0));
    }
}

#[test]
fn crc_detects_corruption() {
    let formatted = albumfs::fs::format::format(make_pool(2, 512)).unwrap();
    let sb = formatted.superblock;
    let lba = sb.data_start;
    let (_, mut store) = open(formatted.carriers).unwrap();
    store.write_block(lba, &[0x42; UB]).unwrap();
    store.flush().unwrap();
    let mut carriers = store.into_carriers();

    let range = sb
        .manifest
        .iter()
        .find(|range| lba >= range.block_start && lba < range.block_start + range.block_count)
        .unwrap();
    let codec = PngCodec;
    let image = png_of(&mut carriers[range.chunk_index as usize]);
    let (meta, mut chunk) = codec.read_chunk(image, ChunkRead::Framed, &[]).unwrap();
    let offset = (lba - range.block_start) as usize * PB + BLOCK_HEADER;
    chunk[offset] ^= 0x01;
    codec
        .write_chunk(
            image,
            ChunkWrite::Framed(ChunkMeta { chunk_index: meta.chunk_index, flags: meta.flags }),
            &chunk,
            &[],
        )
        .unwrap();

    let (_, mut reopened) = open(carriers).unwrap();
    let error = reopened.read_block(lba).unwrap_err();
    assert!(matches!(error, FsError::BlockCrc(block) if block == lba));
}

#[test]
fn bitmap_alloc_free() {
    let formatted = albumfs::fs::format::format(make_pool(2, 512)).unwrap();
    let sb = formatted.superblock;
    let mut bitmap = Bitmap::new(sb.total_blocks);
    let baseline = bitmap.count_free();
    let allocated: Vec<_> = (0..10).map(|_| bitmap.alloc_from(sb.data_start).unwrap()).collect();
    assert_eq!(bitmap.count_free(), baseline - 10);
    for block in allocated.into_iter().take(4) {
        bitmap.clear(block);
    }
    assert_eq!(bitmap.count_free(), baseline - 6);
}
