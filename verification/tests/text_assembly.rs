use piet_gpu::error::EncodeError;
use piet_gpu::encoder::SceneEncoder;
use piet_gpu::scene::{Element, Matrix, Point};
use piet_gpu::single::Single;
use piet_gpu::text::{
    draw_text, rect_path, ColorLayer, ColorOutline, Decoration, GlyphOutlines,
    GlyphRun, Line, Outline, PositionedGlyph, RunMetrics, TextLayout, TransformTracker, Verb,
};

fn s(x: f32) -> Single {
    Single::from_bits(x.to_bits())
}

fn p(x: f32, y: f32) -> Point {
    Point::new(s(x), s(y))
}

fn metrics() -> RunMetrics {
    RunMetrics {
        underline_offset: s(-2.0),
        underline_size: s(1.0),
        strikethrough_offset: s(6.0),
        strikethrough_size: s(0.5),
    }
}

fn no_outline() -> GlyphOutlines {
    GlyphOutlines { color: None, plain: None }
}

fn stroke_glyph() -> GlyphOutlines {
    GlyphOutlines {
        color: None,
        plain: Some(Outline {
            verbs: vec![Verb::MoveTo, Verb::LineTo],
            points: vec![p(0.0, 0.0), p(1.0, 2.0)],
        }),
    }
}

fn glyph(x: f32, y: f32, outlines: GlyphOutlines) -> PositionedGlyph {
    PositionedGlyph { x: s(x), y: s(y), outlines }
}

fn run(glyphs: Vec<PositionedGlyph>) -> GlyphRun {
    GlyphRun {
        color: 0x0000_00ff,
        underline: None,
        strikethrough: None,
        metrics: metrics(),
        advance: s(30.0),
        glyphs,
    }
}

fn translate(x: f32, y: f32) -> Element {
    Element::Transform { mat: Matrix::identity(), translate: p(x, y) }
}

fn flip(x: f32, y: f32) -> Element {
    Element::Transform { mat: Matrix::flip_y(), translate: p(x, y) }
}

fn translations(elements: &[Element]) -> Vec<(f32, f32)> {
    elements
        .iter()
        .filter_map(|e| match e {
            Element::Transform { translate, .. } => Some((
                f32::from_bits(translate.x.to_bits()),
                f32::from_bits(translate.y.to_bits()),
            )),
            _ => None,
        })
        .collect()
}

#[test]
fn glyph_transforms_are_steps_with_the_vertical_part_negated() {
    let layout = TextLayout {
        lines: vec![Line {
            runs: vec![run(vec![
                glyph(10.0, 20.0, no_outline()),
                glyph(15.0, 28.0, no_outline()),
                glyph(9.0, 40.0, no_outline()),
            ])],
        }],
    };
    let mut ctx = SceneEncoder::new();
    assert_eq!(draw_text(&mut ctx, &layout, p(0.0, 0.0)), Ok(()));
    let t = translations(ctx.elements());
    assert_eq!(t.len(), 5);
    assert_eq!(t[1], (10.0, -20.0));
    assert_eq!(t[2], (5.0, -8.0));
    assert_eq!(t[3], (-6.0, -12.0));
}

#[test]
fn tracker_gives_the_step_from_the_last_place() {
    let mut tracker = TransformTracker::new();
    assert_eq!(tracker.step_to(s(10.0), s(20.0)), p(10.0, 20.0));
    assert_eq!(tracker.step_to(s(15.0), s(28.0)), p(5.0, 8.0));
    assert_eq!(tracker.step_to(s(9.0), s(40.0)), p(-6.0, 12.0));
    assert_eq!(tracker.last, p(9.0, 40.0));
}

#[test]
fn a_line_is_framed_by_a_flip_and_its_undoing() {
    let layout = TextLayout {
        lines: vec![Line {
            runs: vec![
                run(vec![glyph(1.0, 0.0, stroke_glyph())]),
                run(vec![glyph(7.0, 2.0, stroke_glyph())]),
            ],
        }],
    };
    let mut ctx = SceneEncoder::new();
    assert_eq!(draw_text(&mut ctx, &layout, p(100.0, 50.0)), Ok(()));
    let seg = Element::Line { p0: p(0.0, 0.0), p1: p(1.0, 2.0) };
    let fill = Element::FillColor { rgba_color: 0xff };
    assert_eq!(
        ctx.elements(),
        &[
            flip(100.0, 50.0),
            translate(1.0, -0.0),
            seg,
            fill,
            translate(6.0, -2.0),
            seg,
            fill,
            flip(-107.0, 52.0),
        ]
    );
    assert_eq!(ctx.trans_count(), 4);
    assert_eq!(ctx.pathseg_count(), 2);
    assert_eq!(ctx.path_count(), 2);
}

#[test]
fn each_line_starts_from_the_origin_again() {
    let line = || Line { runs: vec![run(vec![glyph(3.0, 4.0, no_outline())])] };
    let layout = TextLayout { lines: vec![line(), line()] };
    let mut ctx = SceneEncoder::new();
    assert_eq!(draw_text(&mut ctx, &layout, p(1.0, 2.0)), Ok(()));
    assert_eq!(
        translations(ctx.elements()),
        vec![(1.0, 2.0), (3.0, -4.0), (-4.0, 6.0), (1.0, 2.0), (3.0, -4.0), (-4.0, 6.0)]
    );
}

#[test]
fn an_empty_line_still_has_its_frame() {
    let layout = TextLayout { lines: vec![Line { runs: vec![] }] };
    let mut ctx = SceneEncoder::new();
    assert_eq!(draw_text(&mut ctx, &layout, p(5.0, 6.0)), Ok(()));
    assert_eq!(ctx.elements(), &[flip(5.0, 6.0), flip(-5.0, 6.0)]);
}

#[test]
fn empty_text_adds_nothing() {
    let mut ctx = SceneEncoder::new();
    ctx.fill_glyph(1);
    assert_eq!(draw_text(&mut ctx, &TextLayout { lines: vec![] }, p(5.0, 6.0)), Ok(()));
    assert_eq!(ctx.elements(), &[Element::FillColor { rgba_color: 1 }]);
}

#[test]
fn underline_comes_before_the_first_glyph_only() {
    let mut r = run(vec![glyph(2.0, 3.0, no_outline()), glyph(4.0, 3.0, no_outline())]);
    r.underline = Some(Decoration { offset: None, size: Some(s(2.0)), color: 0x11 });
    let layout = TextLayout { lines: vec![Line { runs: vec![r] }] };
    let mut ctx = SceneEncoder::new();
    assert_eq!(draw_text(&mut ctx, &layout, p(0.0, 0.0)), Ok(()));
    let w = 30.0;
    assert_eq!(
        ctx.elements(),
        &[
            flip(0.0, 0.0),
            // offset is the metric's -2: rise = 3 - (-2) = 5
            translate(2.0, -5.0),
            Element::Line { p0: p(0.0, 0.0), p1: p(w, 0.0) },
            Element::Line { p0: p(w, 0.0), p1: p(w, -2.0) },
            Element::Line { p0: p(w, -2.0), p1: p(0.0, -2.0) },
            Element::Line { p0: p(0.0, -2.0), p1: p(0.0, 0.0) },
            Element::FillColor { rgba_color: 0x11 },
            translate(-2.0, 5.0),
            translate(2.0, -3.0),
            Element::FillColor { rgba_color: 0xff },
            translate(2.0, -0.0),
            Element::FillColor { rgba_color: 0xff },
            flip(-4.0, 3.0),
        ]
    );
    assert_eq!(ctx.pathseg_count(), 4);
    assert_eq!(ctx.path_count(), 3);
    assert_eq!(ctx.trans_count(), 6);
}

#[test]
fn strikethrough_follows_the_underline_and_uses_its_own_metrics() {
    let mut r = run(vec![glyph(0.0, 0.0, no_outline())]);
    r.underline = Some(Decoration { offset: Some(s(-1.0)), size: None, color: 0x22 });
    r.strikethrough = Some(Decoration { offset: None, size: None, color: 0x33 });
    let layout = TextLayout { lines: vec![Line { runs: vec![r] }] };
    let mut ctx = SceneEncoder::new();
    assert_eq!(draw_text(&mut ctx, &layout, p(0.0, 0.0)), Ok(()));
    let e = ctx.elements();
    assert_eq!(e.len(), 1 + 7 + 7 + 2 + 1);
    assert_eq!(e[1], translate(0.0, -1.0));
    assert_eq!(e[3], Element::Line { p0: p(30.0, 0.0), p1: p(30.0, -1.0) });
    assert_eq!(e[6], Element::FillColor { rgba_color: 0x22 });
    assert_eq!(e[7], translate(-0.0, 1.0));
    assert_eq!(e[8], translate(0.0, 6.0));
    assert_eq!(e[10], Element::Line { p0: p(30.0, 0.0), p1: p(30.0, -0.5) });
    assert_eq!(e[13], Element::FillColor { rgba_color: 0x33 });
    assert_eq!(e[14], translate(-0.0, -6.0));
    assert_eq!(e[15], translate(0.0, -0.0));
}

#[test]
fn a_colour_glyph_gets_no_fill_of_the_run() {
    let colour = GlyphOutlines {
        color: Some(ColorOutline {
            palette: vec![[1, 2, 3, 4]],
            layers: vec![
                ColorLayer {
                    color_index: Some(0),
                    verbs: vec![Verb::MoveTo, Verb::LineTo],
                    points: vec![p(0.0, 0.0), p(1.0, 0.0)],
                },
                ColorLayer {
                    color_index: Some(0),
                    verbs: vec![Verb::MoveTo, Verb::LineTo],
                    points: vec![p(0.0, 0.0), p(0.0, 1.0)],
                },
            ],
        }),
        plain: None,
    };
    let layout = TextLayout { lines: vec![Line { runs: vec![run(vec![glyph(0.0, 0.0, colour)])] }] };
    let mut ctx = SceneEncoder::new();
    assert_eq!(draw_text(&mut ctx, &layout, p(0.0, 0.0)), Ok(()));
    let fills: Vec<&Element> =
        ctx.elements().iter().filter(|e| matches!(e, Element::FillColor { .. })).collect();
    assert_eq!(fills, vec![&Element::FillColor { rgba_color: 0x0102_0304 }; 2]);
    assert_eq!(ctx.path_count(), 2);
    assert_eq!(ctx.pathseg_count(), 2);
}

#[test]
fn a_short_outline_anywhere_refuses_the_text_and_keeps_the_scene() {
    let bad = GlyphOutlines {
        color: None,
        plain: Some(Outline { verbs: vec![Verb::MoveTo, Verb::QuadTo], points: vec![p(0.0, 0.0)] }),
    };
    let layout = TextLayout {
        lines: vec![
            Line { runs: vec![run(vec![glyph(1.0, 1.0, stroke_glyph())])] },
            Line { runs: vec![run(vec![]), run(vec![glyph(1.0, 1.0, stroke_glyph()), glyph(2.0, 1.0, bad)])] },
        ],
    };
    let mut ctx = SceneEncoder::new();
    ctx.encode_transform(Matrix::identity(), p(1.0, 1.0));
    assert_eq!(draw_text(&mut ctx, &layout, p(0.0, 0.0)), Err(EncodeError::MissingPoints));
    assert_eq!(ctx.elements(), &[translate(1.0, 1.0)]);
    assert_eq!(ctx.trans_count(), 1);
    assert_eq!(ctx.path_count(), 0);
}

#[test]
fn rect_path_is_four_lines_around_the_decoration() {
    let path = rect_path(s(8.0), s(2.0));
    assert_eq!(
        path.elements(),
        &[
            Element::Line { p0: p(0.0, 0.0), p1: p(8.0, 0.0) },
            Element::Line { p0: p(8.0, 0.0), p1: p(8.0, -2.0) },
            Element::Line { p0: p(8.0, -2.0), p1: p(0.0, -2.0) },
            Element::Line { p0: p(0.0, -2.0), p1: p(0.0, 0.0) },
        ]
    );
    assert_eq!(path.n_segs(), 4);
    assert_eq!(path.n_colr_layers(), 0);
}

#[test]
fn encoder_counts_follow_the_elements() {
    let mut ctx = SceneEncoder::new();
    assert!(ctx.elements().is_empty());
    ctx.encode_transform(Matrix::identity(), p(0.0, 0.0));
    ctx.append_path_encoder(&rect_path(s(1.0), s(1.0)));
    ctx.fill_glyph(0xff);
    let mut other = SceneEncoder::new();
    other.fill_glyph(1);
    other.encode_transform(Matrix::flip_y(), p(0.0, 0.0));
    ctx.append_scene(&other);
    assert_eq!(ctx.elements().len(), 8);
    assert_eq!((ctx.path_count(), ctx.pathseg_count(), ctx.trans_count()), (2, 4, 2));
    assert_eq!(ctx.get_scene_buf().len(), 8 * 36);
    assert_eq!(piet_gpu::scene::decode_scene(&ctx.get_scene_buf()).unwrap(), ctx.elements());
}

#[test]
fn empty_scene_has_an_empty_buffer() {
    assert!(SceneEncoder::new().get_scene_buf().is_empty());
}
