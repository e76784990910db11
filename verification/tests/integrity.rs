use albumfs::stego::png::{PngCodec, PngImage};
use albumfs::stego::{ChunkMeta, ChunkWrite};
use rand::Rng;

#[test]
fn only_lsbs_change() {
    let mut rng = rand::thread_rng();
    let mut rgba = Vec::with_capacity(128 * 128 * 4);
    for _ in 0..128 * 128 {
        rgba.extend_from_slice(&[rng.gen(), rng.gen(), rng.gen(), 255]);
    }
    let mut img = PngImage { width: 128, height: 128, rgba };
    let before = img.clone();

    let codec = PngCodec;
    let payload: Vec<u8> = (0..500).map(|_| rng.gen()).collect();
    codec
        .write_chunk(&mut img, ChunkWrite::Framed(ChunkMeta { chunk_index: 0, flags: 1 }), &payload, &[])
        .unwrap();
    let after = img;

    assert_eq!((before.width, before.height), (after.width, after.height));
    for (b, a) in before.rgba.chunks(4).zip(after.rgba.chunks(4)) {
        for ch in 0..3 {
            assert_eq!(b[ch] >> 1, a[ch] >> 1, "high 7 bits changed");
        }
        assert_eq!(b[3], a[3], "alpha changed");
    }
}
