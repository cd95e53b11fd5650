use piet_gpu::dump::{dump_scene, dump_state, STATE_BYTES};
use piet_gpu::encoder::SceneEncoder;
use piet_gpu::scene::{Matrix, Point};
use piet_gpu::single::Single;

#[test]
fn scene_dump_reads_little_endian_words() {
    assert_eq!(dump_scene(&[1, 0, 0, 0, 0x78, 0x56, 0x34, 0x12]), vec![1, 0x1234_5678]);
    assert_eq!(dump_scene(&[1, 2, 3, 4, 5, 6, 7]), vec![0x0403_0201]);
    assert!(dump_scene(&[1, 2, 3]).is_empty());
    assert!(dump_scene(&[]).is_empty());
}

#[test]
fn scene_dump_of_an_encoded_scene_shows_tags_and_payload() {
    let mut ctx = SceneEncoder::new();
    ctx.fill_glyph(0xdead_beef);
    ctx.encode_transform(
        Matrix::identity(),
        Point::new(Single::from_bits(7), Single::from_bits(8)),
    );
    let words = dump_scene(&ctx.get_scene_buf());
    assert_eq!(words.len(), 18);
    assert_eq!(&words[0..2], &[4, 0xdead_beef]);
    assert_eq!(&words[9..16], &[6, 0x3f80_0000, 0, 0, 0x3f80_0000, 7, 8]);
}

#[test]
fn state_dump_reads_eleven_words_and_the_flags() {
    let mut buf: Vec<u8> = Vec::new();
    for rec in 0..2u32 {
        for k in 0..11u32 {
            buf.extend_from_slice(&(rec * 100 + k).to_le_bytes());
        }
        buf.extend_from_slice(&[0x80 + rec as u8, 0xee, 0xee, 0xee]);
    }
    assert_eq!(buf.len(), 2 * STATE_BYTES);
    buf.extend_from_slice(&[9; 47]);
    let states = dump_state(&buf);
    assert_eq!(states.len(), 2);
    let t = &states[1];
    let got = [
        t.mat.a, t.mat.b, t.mat.c, t.mat.d, t.translate.x, t.translate.y, t.bbox.x0, t.bbox.y0,
        t.bbox.x1, t.bbox.y1, t.linewidth,
    ];
    let bits: Vec<u32> = got.iter().map(|s| s.to_bits()).collect();
    assert_eq!(bits, (100..111).collect::<Vec<u32>>());
    assert_eq!(t.flags, 0x81);
    assert_eq!(states[0].flags, 0x80);
    assert_eq!(states[0].mat.a.to_bits(), 0);
    assert!(dump_state(&[0; 47]).is_empty());
}
