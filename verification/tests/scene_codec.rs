use piet_gpu::error::DecodeError;
use piet_gpu::scene::{
    decode_scene, encode_scene, push_word, push_words, read_word, Element, Matrix,
    Point, RECORD_BYTES, RECORD_WORDS,
};
use piet_gpu::single::Single;

fn s(x: f32) -> Single {
    Single::from_bits(x.to_bits())
}

fn p(x: f32, y: f32) -> Point {
    Point::new(s(x), s(y))
}

fn one_of_each() -> Vec<Element> {
    vec![
        Element::Line { p0: p(1.0, 2.0), p1: p(3.5, -4.25) },
        Element::Quad { p0: p(0.0, 0.0), p1: p(1.0, 1.0), p2: p(2.0, 0.0) },
        Element::Cubic { p0: p(0.0, 0.0), p1: p(1.0, 3.0), p2: p(2.0, 3.0), p3: p(3.0, 0.0) },
        Element::FillColor { rgba_color: 0xff00_80c0 },
        Element::Transform {
            mat: Matrix { a: s(1.0), b: s(0.0), c: s(0.0), d: s(-1.0) },
            translate: p(10.0, 20.0),
        },
    ]
}

#[test]
fn every_variant_round_trips() {
    for e in one_of_each() {
        let bytes = e.encode();
        assert_eq!(bytes.len(), RECORD_BYTES);
        assert_eq!(Element::decode(&bytes), Ok(e));
    }
}

#[test]
fn nan_and_negative_zero_coordinates_round_trip_by_pattern() {
    let e = Element::Line {
        p0: Point::new(Single::from_bits(0x7fc0_1234), Single::from_bits(0x8000_0000)),
        p1: Point::new(Single::from_bits(0xffff_ffff), Single::from_bits(1)),
    };
    assert_eq!(Element::decode(&e.encode()), Ok(e));
}

#[test]
fn line_record_layout() {
    let e = Element::Line { p0: p(1.0, 2.0), p1: p(3.0, 4.0) };
    let bytes = e.encode();
    let mut want: Vec<u8> = Vec::new();
    for w in [1u32, 0x3f80_0000, 0x4000_0000, 0x4040_0000, 0x4080_0000, 0, 0, 0, 0] {
        want.extend_from_slice(&w.to_le_bytes());
    }
    assert_eq!(bytes, want);
}

#[test]
fn fill_and_transform_record_layout() {
    let fill = Element::FillColor { rgba_color: 0x1122_3344 }.encode();
    assert_eq!(&fill[0..8], &[4, 0, 0, 0, 0x44, 0x33, 0x22, 0x11]);
    assert!(fill[8..].iter().all(|b| *b == 0));
    let t = Element::Transform { mat: Matrix::identity(), translate: p(5.0, -8.0) }.encode();
    assert_eq!(read_word(&t, 0), 6);
    assert_eq!(read_word(&t, 4), 1.0f32.to_bits());
    assert_eq!(read_word(&t, 8), 0);
    assert_eq!(read_word(&t, 12), 0);
    assert_eq!(read_word(&t, 16), 1.0f32.to_bits());
    assert_eq!(read_word(&t, 20), 5.0f32.to_bits());
    assert_eq!(read_word(&t, 24), (-8.0f32).to_bits());
}

#[test]
fn decode_rejects_wrong_length() {
    let bytes = Element::FillColor { rgba_color: 7 }.encode();
    assert_eq!(Element::decode(&bytes[..35]), Err(DecodeError::Truncated));
    let mut long = bytes.clone();
    long.push(0);
    assert_eq!(Element::decode(&long), Err(DecodeError::Truncated));
    assert_eq!(Element::decode(&[]), Err(DecodeError::Truncated));
}

#[test]
fn decode_rejects_unknown_tags() {
    for tag in [0u32, 5, 7, 0xffff_ffff] {
        let mut bytes = vec![0u8; RECORD_BYTES];
        bytes[..4].copy_from_slice(&tag.to_le_bytes());
        assert_eq!(Element::decode(&bytes), Err(DecodeError::UnknownTag { tag }));
    }
}

#[test]
fn scene_round_trips() {
    let scene = one_of_each();
    let bytes = encode_scene(&scene);
    assert_eq!(bytes.len(), scene.len() * RECORD_BYTES);
    assert_eq!(decode_scene(&bytes), Ok(scene));
}

#[test]
fn empty_scene_round_trips() {
    let bytes = encode_scene(&Vec::new());
    assert!(bytes.is_empty());
    assert_eq!(decode_scene(&bytes), Ok(Vec::new()));
}

#[test]
fn scene_with_partial_record_is_truncated() {
    let mut bytes = encode_scene(&one_of_each());
    bytes.truncate(bytes.len() - 1);
    assert_eq!(decode_scene(&bytes), Err(DecodeError::Truncated));
}

#[test]
fn scene_reports_the_first_bad_record() {
    let mut bytes = encode_scene(&one_of_each());
    bytes[RECORD_BYTES] = 9;
    bytes[3 * RECORD_BYTES] = 8;
    bytes.push(0);
    assert_eq!(decode_scene(&bytes), Err(DecodeError::UnknownTag { tag: 9 }));
}

#[test]
fn words_are_little_endian() {
    let mut buf: Vec<u8> = vec![0xaa];
    push_word(&mut buf, 0x0102_0304);
    assert_eq!(buf, vec![0xaa, 4, 3, 2, 1]);
    assert_eq!(read_word(&buf, 1), 0x0102_0304);
    push_words(&mut buf, &vec![0xffff_ffff, 1]);
    assert_eq!(&buf[5..], &[0xff, 0xff, 0xff, 0xff, 1, 0, 0, 0]);
    assert_eq!(RECORD_WORDS * 4, RECORD_BYTES);
}

#[test]
fn matrix_constants() {
    let id = Matrix::identity();
    assert_eq!(
        [id.a.to_bits(), id.b.to_bits(), id.c.to_bits(), id.d.to_bits()],
        [1.0f32.to_bits(), 0, 0, 1.0f32.to_bits()]
    );
    let flip = Matrix::flip_y();
    assert_eq!(
        [flip.a.to_bits(), flip.b.to_bits(), flip.c.to_bits(), flip.d.to_bits()],
        [1.0f32.to_bits(), 0, 0, (-1.0f32).to_bits()]
    );
}

#[test]
fn points_compare_as_values() {
    assert!(p(0.0, 1.0).equals(p(-0.0, 1.0)));
    assert!(!p(0.0, 1.0).equals(p(0.0, 2.0)));
    assert!(!p(f32::NAN, 1.0).equals(p(f32::NAN, 1.0)));
    assert_eq!(Point::origin(), p(0.0, 0.0));
}
