use piet_gpu::anno::{analyze_anno, fill_box, stroke_box, tile_box, BoundingBox, ANNO_WORDS};
use piet_gpu::single::Single;

fn s(x: f32) -> Single {
    Single::from_bits(x.to_bits())
}

fn values(b: BoundingBox) -> (f32, f32, f32, f32) {
    (
        f32::from_bits(b.x0.to_bits()),
        f32::from_bits(b.y0.to_bits()),
        f32::from_bits(b.x1.to_bits()),
        f32::from_bits(b.y1.to_bits()),
    )
}

fn record(tag: u32, payload: &[f32]) -> Vec<u32> {
    let mut r = vec![0u32; ANNO_WORDS];
    r[0] = tag;
    for (i, x) in payload.iter().enumerate() {
        r[1 + i] = x.to_bits();
    }
    r
}

#[test]
fn stroke_box_is_ordered_then_extended() {
    let b = stroke_box(s(5.0), s(5.0), s(1.0), s(9.0), s(2.0), s(2.0));
    assert_eq!(values(b), (-1.0, 3.0, 7.0, 11.0));
    assert_eq!(values(tile_box(b)), (-1.0, 0.0, 1.0, 1.0));
}

#[test]
fn stroke_record_gives_its_tile_box() {
    let buf = record(1, &[5.0, 5.0, 1.0, 9.0, 2.0, 2.0]);
    let boxes = analyze_anno(&buf);
    assert_eq!(boxes.len(), 1);
    assert_eq!(values(boxes[0].unwrap()), (-1.0, 0.0, 1.0, 1.0));
}

#[test]
fn stroke_extension_may_differ_by_axis_and_be_negative() {
    let b = stroke_box(s(0.0), s(0.0), s(10.0), s(10.0), s(1.0), s(-3.0));
    assert_eq!(values(b), (-1.0, 3.0, 11.0, 7.0));
}

#[test]
fn fill_record_holds_its_box_after_the_colour() {
    let buf = record(4, &[f32::from_bits(0xff00_00ff), 40.0, 33.0, 17.0, 16.0]);
    let boxes = analyze_anno(&buf);
    assert_eq!(values(boxes[0].unwrap()), (1.0, 1.0, 3.0, 3.0));
    assert_eq!(values(fill_box(s(40.0), s(33.0), s(17.0), s(16.0))), (17.0, 16.0, 40.0, 33.0));
}

#[test]
fn other_tags_carry_no_box() {
    for tag in [0u32, 2, 3, 5, 0xffff_ffff] {
        assert_eq!(analyze_anno(&record(tag, &[1.0, 2.0, 3.0, 4.0, 5.0, 6.0])), vec![None]);
    }
}

#[test]
fn records_are_eleven_words_and_a_partial_one_is_left_out() {
    let mut buf = record(1, &[0.0, 0.0, 16.0, 16.0, 0.0, 0.0]);
    buf.extend(record(7, &[]));
    buf.extend(record(4, &[0.0, -0.5, -0.5, 31.9, 32.0]));
    buf.extend([1, 2, 3]);
    let boxes = analyze_anno(&buf);
    assert_eq!(boxes.len(), 3);
    assert_eq!(values(boxes[0].unwrap()), (0.0, 0.0, 1.0, 1.0));
    assert_eq!(boxes[1], None);
    assert_eq!(values(boxes[2].unwrap()), (-1.0, -1.0, 2.0, 2.0));
    assert!(analyze_anno(&[1, 2, 3]).is_empty());
}

#[test]
fn tile_box_matches_hardware_arithmetic() {
    let mut state: u64 = 12345;
    let mut next = || {
        state = state.wrapping_mul(6364136223846793005).wrapping_add(1442695040888963407);
        ((state >> 40) as i32 % 100000) as f32 / 37.0 - 1000.0
    };
    for _ in 0..20000 {
        let (x0, y0, x1, y1, wx, wy) = (next(), next(), next(), next(), next().abs(), next().abs());
        let got = values(tile_box(stroke_box(s(x0), s(y0), s(x1), s(y1), s(wx), s(wy))));
        let want = (
            ((x0.min(x1) - wx) / 16.0).floor(),
            ((y0.min(y1) - wy) / 16.0).floor(),
            ((x0.max(x1) + wx) / 16.0).ceil(),
            ((y0.max(y1) + wy) / 16.0).ceil(),
        );
        assert_eq!(got, want);
    }
}
