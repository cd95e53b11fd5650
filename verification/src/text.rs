//! Glyph outlines as scene elements.
//!
//! An outline is a run of verbs and the points they consume. The font engine
//! that scales glyphs lives outside this library; what it yields arrives here
//! as plain values.

use vstd::prelude::*;
use crate::scene::{
    fill_count,
    lemma_counts_concat,
    lemma_counts_of_segments,
    lemma_counts_total,
    segment_count,
    transform_count,
    Element,
    Matrix,
    Point,
};
use crate::encoder::SceneEncoder;
use crate::error::EncodeError;
use crate::single::Single;

verus! {

/// One step of an outline. `MoveTo` and `LineTo` consume one point, `QuadTo`
/// two, `CurveTo` three and `Close` none.
#[derive(Clone, Copy, Debug, PartialEq, Eq, Structural)]
pub enum Verb {
    MoveTo,
    LineTo,
    QuadTo,
    CurveTo,
    Close,
}

/// A scaled outline: verbs and the points that they consume, in order.
#[derive(Clone, Debug)]
pub struct Outline {
    pub verbs: Vec<Verb>,
    pub points: Vec<Point>,
}

/// One layer of a colour glyph. A layer without a colour index is not part of
/// the painted glyph.
#[derive(Clone, Debug)]
pub struct ColorLayer {
    pub color_index: Option<u16>,
    pub verbs: Vec<Verb>,
    pub points: Vec<Point>,
}

/// The layers of a colour glyph, bottom first, and the palette that their
/// colour indices refer to. Each palette entry is red, green, blue, alpha.
#[derive(Clone, Debug)]
pub struct ColorOutline {
    pub palette: Vec<[u8; 4]>,
    pub layers: Vec<ColorLayer>,
}

/// What a font engine has for one glyph: a colour outline, a plain one, both
/// or neither.
#[derive(Clone, Debug)]
pub struct GlyphOutlines {
    pub color: Option<ColorOutline>,
    pub plain: Option<Outline>,
}

/// Where the pen is while an outline is walked: the start of the current
/// contour, the end of the last segment, and how many points were consumed.
pub struct Pen {
    pub start: Point,
    pub last: Point,
    pub used: nat,
}

/// The points that a verb consumes.
pub open spec fn points_used(verb: Verb) -> nat {
    match verb {
        Verb::MoveTo => 1,
        Verb::LineTo => 1,
        Verb::QuadTo => 2,
        Verb::CurveTo => 3,
        Verb::Close => 0,
    }
}

/// The pen after one verb. `Close` leaves it where it is.
pub open spec fn pen_step(pen: Pen, verb: Verb, points: Seq<Point>) -> Pen {
    let at = pen.used as int;
    match verb {
        Verb::MoveTo => Pen { start: points[at], last: points[at], used: pen.used + 1 },
        Verb::LineTo => Pen { start: pen.start, last: points[at], used: pen.used + 1 },
        Verb::QuadTo => Pen { start: pen.start, last: points[at + 1], used: pen.used + 2 },
        Verb::CurveTo => Pen { start: pen.start, last: points[at + 2], used: pen.used + 3 },
        Verb::Close => pen,
    }
}

/// What one verb adds to the scene: nothing for `MoveTo`, one segment from
/// the pen's place for a drawing verb, and for `Close` a line back to the
/// start of the contour unless the pen is there already.
pub open spec fn verb_elements(pen: Pen, verb: Verb, points: Seq<Point>) -> Seq<Element> {
    let at = pen.used as int;
    match verb {
        Verb::MoveTo => Seq::empty(),
        Verb::LineTo => seq![Element::Line { p0: pen.last, p1: points[at] }],
        Verb::QuadTo => seq![Element::Quad { p0: pen.last, p1: points[at], p2: points[at + 1] }],
        Verb::CurveTo => seq![
            Element::Cubic { p0: pen.last, p1: points[at], p2: points[at + 1], p3: points[at + 2] },
        ],
        Verb::Close => if pen.last.same_place(pen.start) {
            Seq::empty()
        } else {
            seq![Element::Line { p0: pen.last, p1: pen.start }]
        },
    }
}

/// The pen after a run of verbs, from the origin.
pub open spec fn pen_after(verbs: Seq<Verb>, points: Seq<Point>) -> Pen
    decreases verbs.len(),
{
    if verbs.len() == 0 {
        Pen { start: Point::origin_spec(), last: Point::origin_spec(), used: 0 }
    } else {
        pen_step(pen_after(verbs.drop_last(), points), verbs.last(), points)
    }
}

/// The elements of an outline.
pub open spec fn outline_elements(verbs: Seq<Verb>, points: Seq<Point>) -> Seq<Element>
    decreases verbs.len(),
{
    if verbs.len() == 0 {
        Seq::empty()
    } else {
        outline_elements(verbs.drop_last(), points) + verb_elements(
            pen_after(verbs.drop_last(), points),
            verbs.last(),
            points,
        )
    }
}

/// True when the outline has every point that its verbs consume.
pub open spec fn outline_complete(verbs: Seq<Verb>, points: Seq<Point>) -> bool {
    pen_after(verbs, points).used <= points.len()
}

/// An outline yields segments only.
pub proof fn lemma_outline_is_segments(verbs: Seq<Verb>, points: Seq<Point>)
    ensures
        forall|k: int|
            0 <= k < outline_elements(verbs, points).len() ==> (#[trigger] outline_elements(
                verbs,
                points,
            )[k]).is_segment(),
    decreases verbs.len(),
{
    if verbs.len() > 0 {
        lemma_outline_is_segments(verbs.drop_last(), points);
        let front = outline_elements(verbs.drop_last(), points);
        let step = verb_elements(pen_after(verbs.drop_last(), points), verbs.last(), points);
        let all = outline_elements(verbs, points);
        assert forall|k: int| 0 <= k < all.len() implies (#[trigger] all[k]).is_segment() by {
            if k >= front.len() {
                assert(all[k] == step[k - front.len()]);
            }
        }
    }
}

/// The pen never gives points back: after a part of the verbs it has used no
/// more than after all of them.
pub proof fn lemma_pen_used_monotone(verbs: Seq<Verb>, points: Seq<Point>, n: int)
    requires
        0 <= n <= verbs.len(),
    ensures
        pen_after(verbs.take(n), points).used <= pen_after(verbs, points).used,
    decreases verbs.len(),
{
    if n == verbs.len() {
        assert(verbs.take(n) =~= verbs);
    } else {
        lemma_pen_used_monotone(verbs.drop_last(), points, n);
        assert(verbs.drop_last().take(n) =~= verbs.take(n));
    }
}

/// Closing a contour adds exactly one line, from the pen back to the start of
/// the contour, when the pen is not at the start, and nothing when it is.
pub proof fn lemma_close(verbs: Seq<Verb>, points: Seq<Point>)
    ensures
        ({
            let pen = pen_after(verbs, points);
            let closed = outline_elements(verbs.push(Verb::Close), points);
            let open = outline_elements(verbs, points);
            if pen.last.same_place(pen.start) {
                closed == open
            } else {
                closed == open.push(Element::Line { p0: pen.last, p1: pen.start })
            }
        }),
        pen_after(verbs.push(Verb::Close), points) == pen_after(verbs, points),
{
    let pen = pen_after(verbs, points);
    let all = verbs.push(Verb::Close);
    assert(all.drop_last() =~= verbs);
    assert(all.last() == Verb::Close);
    let open = outline_elements(verbs, points);
    if pen.last.same_place(pen.start) {
        assert(open + Seq::<Element>::empty() =~= open);
    } else {
        let line = Element::Line { p0: pen.last, p1: pen.start };
        assert(open + seq![line] =~= open.push(line));
    }
}

/// The colour word of a palette entry: red in the most significant byte,
/// then green, blue and alpha.
pub open spec fn rgba_word(color: Seq<u8>) -> u32
    recommends
        color.len() == 4,
{
    (16777216 * color[0] + 65536 * color[1] + 256 * color[2] + color[3]) as u32
}

/// Entry `index` of a palette; transparent black when the palette has no
/// such entry.
pub open spec fn palette_entry(palette: Seq<[u8; 4]>, index: u16) -> Seq<u8> {
    if index < palette.len() {
        palette[index as int]@
    } else {
        seq![0u8, 0u8, 0u8, 0u8]
    }
}

/// The colour word of entry `index` of a palette.
pub open spec fn palette_rgba(palette: Seq<[u8; 4]>, index: u16) -> u32 {
    rgba_word(palette_entry(palette, index))
}

/// Segments and fills in the order in which a path was drawn, with their
/// running counts.
#[derive(Clone, Debug)]
pub struct PathEncoder {
    elements: Vec<Element>,
    n_segs: usize,
    // If this is zero, the path is a plain glyph and is to be followed by a fill.
    n_colr_layers: usize,
}

impl View for PathEncoder {
    type V = Seq<Element>;

    closed spec fn view(&self) -> Seq<Element> {
        self.elements@
    }
}

impl PathEncoder {
    /// The counts agree with the elements: the segment count is the number
    /// of segments, the layer count the number of fills, and there are no
    /// transforms.
    pub closed spec fn wf(&self) -> bool {
        &&& self.n_segs == segment_count(self.elements@)
        &&& self.n_colr_layers == fill_count(self.elements@)
        &&& transform_count(self.elements@) == 0
    }

    /// A path holds segments and fills only.
    pub proof fn lemma_no_transforms(&self)
        requires
            self.wf(),
        ensures
            transform_count(self@) == 0,
    {
    }

    /// An encoder without elements.
    pub fn new() -> (r: PathEncoder)
        ensures
            r.wf(),
            r@ == Seq::<Element>::empty(),
    {
        PathEncoder { elements: Vec::new(), n_segs: 0, n_colr_layers: 0 }
    }

    /// The elements, in the order in which they were appended.
    pub fn elements(&self) -> (r: &[Element])
        ensures
            r@ == self@,
    {
        self.elements.as_slice()
    }

    /// The number of segments among the elements.
    pub fn n_segs(&self) -> (r: usize)
        requires
            self.wf(),
        ensures
            r == segment_count(self@),
    {
        self.n_segs
    }

    /// The number of fills among the elements, one for each colour layer.
    pub fn n_colr_layers(&self) -> (r: usize)
        requires
            self.wf(),
        ensures
            r == fill_count(self@),
    {
        self.n_colr_layers
    }

    /// Appends the segments of an outline. An outline whose verbs consume
    /// more points than it has is refused, and the encoder is left as it was.
    pub fn append_outline(&mut self, verbs: &[Verb], points: &[Point]) -> (r: Result<
        (),
        EncodeError,
    >)
        requires
            old(self).wf(),
        ensures
            final(self).wf(),
            outline_complete(verbs@, points@) ==> r is Ok && final(self)@ == old(self)@
                + outline_elements(verbs@, points@),
            !outline_complete(verbs@, points@) ==> r == Err::<(), EncodeError>(
                EncodeError::MissingPoints,
            ) && final(self)@ == old(self)@,
    {
        let mut out: Vec<Element> = Vec::new();
        let mut i: usize = 0;
        let mut start_pt = Point::origin();
        let mut last_pt = start_pt;
        let mut j: usize = 0;
        while j < verbs.len()
            invariant
                j <= verbs.len(),
                i <= points.len(),
                pen_after(verbs@.take(j as int), points@) == (Pen {
                    start: start_pt,
                    last: last_pt,
                    used: i as nat,
                }),
                out@ == outline_elements(verbs@.take(j as int), points@),
                self.wf(),
                self@ == old(self)@,
            decreases verbs.len() - j,
        {
            let verb = verbs[j];
            proof {
                let next = verbs@.take(j + 1);
                assert(next.drop_last() =~= verbs@.take(j as int));
                assert(next.last() == verb);
            }
            let needed: usize = match verb {
                Verb::MoveTo => 1,
                Verb::LineTo => 1,
                Verb::QuadTo => 2,
                Verb::CurveTo => 3,
                Verb::Close => 0,
            };
            if needed > points.len() - i {
                proof {
                    lemma_pen_used_monotone(verbs@, points@, j + 1);
                }
                return Err(EncodeError::MissingPoints);
            }
            match verb {
                Verb::MoveTo => {
                    start_pt = points[i];
                    last_pt = start_pt;
                },
                Verb::LineTo => {
                    let p1 = points[i];
                    out.push(Element::Line { p0: last_pt, p1 });
                    last_pt = p1;
                },
                Verb::QuadTo => {
                    let p1 = points[i];
                    let p2 = points[i + 1];
                    out.push(Element::Quad { p0: last_pt, p1, p2 });
                    last_pt = p2;
                },
                Verb::CurveTo => {
                    let p1 = points[i];
                    let p2 = points[i + 1];
                    let p3 = points[i + 2];
                    out.push(Element::Cubic { p0: last_pt, p1, p2, p3 });
                    last_pt = p3;
                },
                Verb::Close => {
                    if !start_pt.equals(last_pt) {
                        out.push(Element::Line { p0: last_pt, p1: start_pt });
                    }
                },
            }
            i = i + needed;
            j = j + 1;
        }
        proof {
            assert(verbs@.take(verbs@.len() as int) =~= verbs@);
            lemma_outline_is_segments(verbs@, points@);
            lemma_counts_of_segments(out@);
            lemma_counts_concat(self.elements@, out@);
            lemma_counts_total(self.elements@);
        }
        let added: usize = out.len();
        self.elements.append(&mut out);
        let total: usize = self.elements.len();
        assert(total == old(self)@.len() + added);
        self.n_segs = self.n_segs + added;
        Ok(())
    }

    /// Appends one fill, which closes a colour layer.
    pub fn append_solid_fill(&mut self, color: [u8; 4])
        requires
            old(self).wf(),
        ensures
            final(self).wf(),
            final(self)@ == old(self)@.push(Element::FillColor { rgba_color: rgba_word(color@) }),
    {
        let rgba_color: u32 = 16777216 * (color[0] as u32) + 65536 * (color[1] as u32) + 256 * (
        color[2] as u32) + (color[3] as u32);
        proof {
            let fill = Element::FillColor { rgba_color };
            assert(self.elements@.push(fill).drop_last() =~= self.elements@);
            lemma_counts_total(self.elements@);
        }
        self.elements.push(Element::FillColor { rgba_color });
        let total: usize = self.elements.len();
        assert(total == old(self)@.len() + 1);
        self.n_colr_layers = self.n_colr_layers + 1;
    }
}

impl Default for PathEncoder {
    fn default() -> (r: PathEncoder)
        ensures
            r.wf(),
            r@ == Seq::<Element>::empty(),
    {
        PathEncoder::new()
    }
}

/// What one colour layer adds: its segments and then one fill in its
/// palette colour. A layer without a colour index adds nothing.
pub open spec fn layer_elements(layer: ColorLayer, palette: Seq<[u8; 4]>) -> Seq<Element> {
    match layer.color_index {
        Some(index) => outline_elements(layer.verbs@, layer.points@).push(
            Element::FillColor { rgba_color: palette_rgba(palette, index) },
        ),
        None => Seq::empty(),
    }
}

/// True when the layer adds nothing or has every point that its verbs
/// consume.
pub open spec fn layer_complete(layer: ColorLayer) -> bool {
    layer.color_index is Some ==> outline_complete(layer.verbs@, layer.points@)
}

/// What a run of colour layers adds, the first layer first.
pub open spec fn layers_elements(layers: Seq<ColorLayer>, palette: Seq<[u8; 4]>) -> Seq<Element>
    decreases layers.len(),
{
    if layers.len() == 0 {
        Seq::empty()
    } else {
        layers_elements(layers.drop_last(), palette) + layer_elements(layers.last(), palette)
    }
}

pub open spec fn layers_complete(layers: Seq<ColorLayer>) -> bool {
    forall|k: int| 0 <= k < layers.len() ==> layer_complete(#[trigger] layers[k])
}

/// The elements of a glyph: those of its colour layers where it has a colour
/// outline, else those of its plain outline, else none.
pub open spec fn glyph_elements(glyph: GlyphOutlines) -> Seq<Element> {
    match glyph.color {
        Some(outline) => layers_elements(outline.layers@, outline.palette@),
        None => match glyph.plain {
            Some(outline) => outline_elements(outline.verbs@, outline.points@),
            None => Seq::empty(),
        },
    }
}

/// True when the outline that the glyph is drawn from has every point that
/// its verbs consume.
pub open spec fn glyph_complete(glyph: GlyphOutlines) -> bool {
    match glyph.color {
        Some(outline) => layers_complete(outline.layers@),
        None => match glyph.plain {
            Some(outline) => outline_complete(outline.verbs@, outline.points@),
            None => true,
        },
    }
}

/// Entry `index` of a palette; transparent black when there is no such
/// entry.
pub fn palette_color(palette: &[[u8; 4]], index: u16) -> (r: [u8; 4])
    ensures
        r@ == palette_entry(palette@, index),
{
    if (index as usize) < palette.len() {
        palette[index as usize]
    } else {
        let none: [u8; 4] = [0, 0, 0, 0];
        assert(none@ =~= seq![0u8, 0u8, 0u8, 0u8]);
        none
    }
}

/// Encodes one glyph. A colour outline goes layer by layer, bottom first,
/// each painted layer closed by a fill in its palette colour; a plain
/// outline is left without a fill.
pub fn make_path(glyph: &GlyphOutlines) -> (r: Result<PathEncoder, EncodeError>)
    ensures
        match r {
            Ok(path) => glyph_complete(*glyph) && path.wf() && path@ == glyph_elements(*glyph),
            Err(e) => !glyph_complete(*glyph) && e == EncodeError::MissingPoints,
        },
{
    let mut encoder = PathEncoder::new();
    match &glyph.color {
        Some(outline) => {
            let mut i: usize = 0;
            while i < outline.layers.len()
                invariant
                    i <= outline.layers.len(),
                    glyph.color == Some(*outline),
                    encoder.wf(),
                    encoder@ == layers_elements(outline.layers@.take(i as int), outline.palette@),
                    forall|k: int| 0 <= k < i ==> layer_complete(#[trigger] outline.layers@[k]),
                decreases outline.layers.len() - i,
            {
                let layer = &outline.layers[i];
                proof {
                    let next = outline.layers@.take(i + 1);
                    assert(next.drop_last() =~= outline.layers@.take(i as int));
                    assert(next.last() == *layer);
                }
                if let Some(color_ix) = layer.color_index {
                    let color = palette_color(outline.palette.as_slice(), color_ix);
                    match encoder.append_outline(layer.verbs.as_slice(), layer.points.as_slice()) {
                        Ok(()) => {},
                        Err(e) => {
                            assert(!layer_complete(outline.layers@[i as int]));
                            return Err(e);
                        },
                    }
                    encoder.append_solid_fill(color);
                } else {
                    assert(encoder@ + Seq::<Element>::empty() =~= encoder@);
                }
                i = i + 1;
            }
            assert(outline.layers@.take(outline.layers@.len() as int) =~= outline.layers@);
            Ok(encoder)
        },
        None => match &glyph.plain {
            Some(outline) => {
                match encoder.append_outline(outline.verbs.as_slice(), outline.points.as_slice()) {
                    Ok(()) => {
                        assert(Seq::<Element>::empty() + outline_elements(
                            outline.verbs@,
                            outline.points@,
                        ) =~= outline_elements(outline.verbs@, outline.points@));
                        Ok(encoder)
                    },
                    Err(e) => Err(e),
                }
            },
            None => Ok(encoder),
        },
    }
}

/// An underline or a strikethrough. Where it names no offset or no size of
/// its own, the metrics of the run's font give them.
#[derive(Clone, Copy, Debug, PartialEq, Eq, Structural)]
pub struct Decoration {
    pub offset: Option<Single>,
    pub size: Option<Single>,
    pub color: u32,
}

/// The decoration metrics of a run's font.
#[derive(Clone, Copy, Debug, PartialEq, Eq, Structural)]
pub struct RunMetrics {
    pub underline_offset: Single,
    pub underline_size: Single,
    pub strikethrough_offset: Single,
    pub strikethrough_size: Single,
}

/// A glyph at its place in the line, with the outlines that the font has for
/// it.
#[derive(Clone, Debug)]
pub struct PositionedGlyph {
    pub x: Single,
    pub y: Single,
    pub outlines: GlyphOutlines,
}

/// A run of glyphs of one style.
#[derive(Clone, Debug)]
pub struct GlyphRun {
    pub color: u32,
    pub underline: Option<Decoration>,
    pub strikethrough: Option<Decoration>,
    pub metrics: RunMetrics,
    pub advance: Single,
    pub glyphs: Vec<PositionedGlyph>,
}

/// A line of laid-out text.
#[derive(Clone, Debug)]
pub struct Line {
    pub runs: Vec<GlyphRun>,
}

/// Laid-out text.
#[derive(Clone, Debug)]
pub struct TextLayout {
    pub lines: Vec<Line>,
}

/// Remembers where the last transform left the frame, so that the next one
/// can be encoded as the step from there.
#[derive(Clone, Copy, Debug, PartialEq, Eq, Structural)]
pub struct TransformTracker {
    pub last: Point,
}

impl TransformTracker {
    /// A tracker at the origin.
    pub fn new() -> (r: TransformTracker)
        ensures
            r.last == Point::origin_spec(),
    {
        TransformTracker { last: Point::origin() }
    }

    /// Moves to a place and returns the step that leads there from the last
    /// one: the place minus the last place, coordinate by coordinate.
    pub fn step_to(&mut self, x: Single, y: Single) -> (delta: Point)
        ensures
            delta.x == x.difference(old(self).last.x),
            delta.y == y.difference(old(self).last.y),
            final(self).last == (Point { x, y }),
    {
        let delta = Point { x: x.sub(self.last.x), y: y.sub(self.last.y) };
        self.last = Point { x, y };
        delta
    }
}

/// A closed rectangle from the origin, `width` to the right and `size`
/// upwards, as four lines.
pub open spec fn rect_elements(width: Single, size: Single) -> Seq<Element> {
    let zero = Single { bits: 0 };
    let top = size.negated();
    seq![
        Element::Line { p0: Point { x: zero, y: zero }, p1: Point { x: width, y: zero } },
        Element::Line { p0: Point { x: width, y: zero }, p1: Point { x: width, y: top } },
        Element::Line { p0: Point { x: width, y: top }, p1: Point { x: zero, y: top } },
        Element::Line { p0: Point { x: zero, y: top }, p1: Point { x: zero, y: zero } },
    ]
}

/// A value, or what stands in for it.
pub open spec fn value_or(value: Option<Single>, fallback: Single) -> Single {
    match value {
        Some(v) => v,
        None => fallback,
    }
}

/// A decoration before a glyph that lies `(dx, dy)` from the last place: a
/// transform to the decoration's height, the filled rectangle, and the
/// transform that undoes the first.
pub open spec fn decoration_elements(
    offset: Single,
    size: Single,
    color: u32,
    width: Single,
    delta: Point,
) -> Seq<Element> {
    let rise = delta.y.difference(offset);
    seq![
        Element::Transform {
            mat: Matrix::identity_spec(),
            translate: Point { x: delta.x, y: rise.negated() },
        },
    ] + rect_elements(width, size) + seq![
        Element::FillColor { rgba_color: color },
        Element::Transform {
            mat: Matrix::identity_spec(),
            translate: Point { x: delta.x.negated(), y: rise },
        },
    ]
}

/// The decorations of a run, the underline first.
pub open spec fn run_decorations(run: GlyphRun, delta: Point) -> Seq<Element> {
    let under = match run.underline {
        Some(d) => decoration_elements(
            value_or(d.offset, run.metrics.underline_offset),
            value_or(d.size, run.metrics.underline_size),
            d.color,
            run.advance,
            delta,
        ),
        None => Seq::empty(),
    };
    let strike = match run.strikethrough {
        Some(d) => decoration_elements(
            value_or(d.offset, run.metrics.strikethrough_offset),
            value_or(d.size, run.metrics.strikethrough_size),
            d.color,
            run.advance,
            delta,
        ),
        None => Seq::empty(),
    };
    under + strike
}

/// The place of the pen before glyph `g` of a run that starts at `start`.
pub open spec fn pen_before(run: GlyphRun, g: int, start: Point) -> Point {
    if g <= 0 {
        start
    } else {
        Point { x: run.glyphs@[g - 1].x, y: run.glyphs@[g - 1].y }
    }
}

/// What glyph `g` of a run adds when the pen is at `last`: before the first
/// glyph the run's decorations; then a transform by the step from `last` to
/// the glyph, its vertical part negated; then the glyph's elements; and a fill
/// in the run's colour unless the glyph brought fills of its own.
pub open spec fn glyph_step(run: GlyphRun, g: int, last: Point) -> Seq<Element> {
    let glyph = run.glyphs@[g];
    let delta = Point { x: glyph.x.difference(last.x), y: glyph.y.difference(last.y) };
    let decorations = if g == 0 {
        run_decorations(run, delta)
    } else {
        Seq::empty()
    };
    let shape = glyph_elements(glyph.outlines);
    let fill = if fill_count(shape) == 0 {
        seq![Element::FillColor { rgba_color: run.color }]
    } else {
        Seq::empty()
    };
    decorations + seq![
        Element::Transform {
            mat: Matrix::identity_spec(),
            translate: Point { x: delta.x, y: delta.y.negated() },
        },
    ] + shape + fill
}

/// What the first `n` glyphs of a run add.
pub open spec fn run_elements(run: GlyphRun, n: nat, start: Point) -> Seq<Element>
    decreases n,
{
    if n == 0 {
        Seq::empty()
    } else {
        run_elements(run, (n - 1) as nat, start) + glyph_step(
            run,
            n - 1,
            pen_before(run, n - 1, start),
        )
    }
}

/// The place of the pen after the first `n` runs of a line.
pub open spec fn runs_end(runs: Seq<GlyphRun>, n: nat) -> Point
    decreases n,
{
    if n == 0 {
        Point::origin_spec()
    } else {
        pen_before(runs[n - 1], runs[n - 1].glyphs@.len() as int, runs_end(runs, (n - 1) as nat))
    }
}

/// What the first `n` runs of a line add.
pub open spec fn runs_elements(runs: Seq<GlyphRun>, n: nat) -> Seq<Element>
    decreases n,
{
    if n == 0 {
        Seq::empty()
    } else {
        runs_elements(runs, (n - 1) as nat) + run_elements(
            runs[n - 1],
            runs[n - 1].glyphs@.len(),
            runs_end(runs, (n - 1) as nat),
        )
    }
}

/// What a line adds: a transform that flips the vertical axis and moves to
/// the text's place, the runs, and a transform that flips back and undoes
/// both the move and the way down the line.
pub open spec fn line_elements(line: Line, pos: Point) -> Seq<Element> {
    let end = runs_end(line.runs@, line.runs@.len());
    seq![Element::Transform { mat: Matrix::flip_y_spec(), translate: pos }] + runs_elements(
        line.runs@,
        line.runs@.len(),
    ) + seq![
        Element::Transform {
            mat: Matrix::flip_y_spec(),
            translate: Point { x: pos.x.sum(end.x).negated(), y: pos.y.sum(end.y) },
        },
    ]
}

/// What the first `n` lines of a text add.
pub open spec fn lines_elements(lines: Seq<Line>, n: nat, pos: Point) -> Seq<Element>
    decreases n,
{
    if n == 0 {
        Seq::empty()
    } else {
        lines_elements(lines, (n - 1) as nat, pos) + line_elements(lines[n - 1], pos)
    }
}

/// The elements of a text drawn at a place.
pub open spec fn text_elements(layout: TextLayout, pos: Point) -> Seq<Element> {
    lines_elements(layout.lines@, layout.lines@.len(), pos)
}

/// True when the first `n` glyphs of the run have every point that their
/// verbs consume.
pub open spec fn run_complete(run: GlyphRun, n: nat) -> bool {
    forall|g: int| 0 <= g < n ==> glyph_complete(#[trigger] run.glyphs@[g].outlines)
}

/// True when the first `n` runs are complete.
pub open spec fn runs_complete(runs: Seq<GlyphRun>, n: nat) -> bool {
    forall|k: int| 0 <= k < n ==> run_complete(#[trigger] runs[k], runs[k].glyphs@.len())
}

/// True when the first `n` lines are complete.
pub open spec fn lines_complete(lines: Seq<Line>, n: nat) -> bool {
    forall|k: int| 0 <= k < n ==> runs_complete((#[trigger] lines[k]).runs@, lines[k].runs@.len())
}

/// True when every glyph of the text has every point that its verbs consume.
pub open spec fn layout_complete(layout: TextLayout) -> bool {
    lines_complete(layout.lines@, layout.lines@.len())
}

impl PathEncoder {
    fn push_line(&mut self, p0: Point, p1: Point)
        requires
            old(self).wf(),
        ensures
            final(self).wf(),
            final(self)@ == old(self)@.push(Element::Line { p0, p1 }),
    {
        proof {
            let line = Element::Line { p0, p1 };
            assert(self.elements@.push(line).drop_last() =~= self.elements@);
            lemma_counts_total(self.elements@);
        }
        self.elements.push(Element::Line { p0, p1 });
        let total: usize = self.elements.len();
        assert(total == old(self)@.len() + 1);
        self.n_segs = self.n_segs + 1;
    }
}

/// The path of a decoration: a closed rectangle of the run's advance by the
/// decoration's size.
pub fn rect_path(width: Single, size: Single) -> (path: PathEncoder)
    ensures
        path.wf(),
        path@ == rect_elements(width, size),
{
    let zero = Single::zero();
    let top = size.neg();
    let mut path = PathEncoder::new();
    path.push_line(Point { x: zero, y: zero }, Point { x: width, y: zero });
    path.push_line(Point { x: width, y: zero }, Point { x: width, y: top });
    path.push_line(Point { x: width, y: top }, Point { x: zero, y: top });
    path.push_line(Point { x: zero, y: top }, Point { x: zero, y: zero });
    assert(path@ =~= rect_elements(width, size));
    path
}

fn resolve(value: Option<Single>, fallback: Single) -> (r: Single)
    ensures
        r == value_or(value, fallback),
{
    match value {
        Some(v) => v,
        None => fallback,
    }
}

fn encode_decoration(
    ctx: &mut SceneEncoder,
    offset: Single,
    size: Single,
    color: u32,
    width: Single,
    delta: Point,
)
    requires
        old(ctx).wf(),
    ensures
        final(ctx).wf(),
        final(ctx)@ == old(ctx)@ + decoration_elements(offset, size, color, width, delta),
{
    let rise = delta.y.sub(offset);
    ctx.encode_transform(Matrix::identity(), Point { x: delta.x, y: rise.neg() });
    let path = rect_path(width, size);
    ctx.append_path_encoder(&path);
    ctx.fill_glyph(color);
    ctx.encode_transform(Matrix::identity(), Point { x: delta.x.neg(), y: rise });
    assert(ctx@ =~= old(ctx)@ + decoration_elements(offset, size, color, width, delta));
}

fn encode_run_decorations(ctx: &mut SceneEncoder, run: &GlyphRun, delta: Point)
    requires
        old(ctx).wf(),
    ensures
        final(ctx).wf(),
        final(ctx)@ == old(ctx)@ + run_decorations(*run, delta),
{
    if let Some(deco) = run.underline {
        let offset = resolve(deco.offset, run.metrics.underline_offset);
        let size = resolve(deco.size, run.metrics.underline_size);
        encode_decoration(ctx, offset, size, deco.color, run.advance, delta);
    }
    if let Some(deco) = run.strikethrough {
        let offset = resolve(deco.offset, run.metrics.strikethrough_offset);
        let size = resolve(deco.size, run.metrics.strikethrough_size);
        encode_decoration(ctx, offset, size, deco.color, run.advance, delta);
    }
    assert(ctx@ =~= old(ctx)@ + run_decorations(*run, delta));
}

fn encode_glyph(
    ctx: &mut SceneEncoder,
    tracker: &mut TransformTracker,
    run: &GlyphRun,
    g: usize,
) -> (r: Result<(), EncodeError>)
    requires
        old(ctx).wf(),
        g < run.glyphs@.len(),
    ensures
        match r {
            Ok(()) => {
                &&& glyph_complete(run.glyphs@[g as int].outlines)
                &&& final(ctx).wf()
                &&& final(ctx)@ == old(ctx)@ + glyph_step(*run, g as int, old(tracker).last)
                &&& final(tracker).last == pen_before(*run, g + 1, old(tracker).last)
            },
            Err(e) => {
                &&& !glyph_complete(run.glyphs@[g as int].outlines)
                &&& e == EncodeError::MissingPoints
            },
        },
{
    let glyph = &run.glyphs[g];
    let delta = tracker.step_to(glyph.x, glyph.y);
    if g == 0 {
        encode_run_decorations(ctx, run, delta);
    }
    ctx.encode_transform(Matrix::identity(), Point { x: delta.x, y: delta.y.neg() });
    let path = match make_path(&glyph.outlines) {
        Ok(path) => path,
        Err(e) => {
            return Err(e);
        },
    };
    ctx.append_path_encoder(&path);
    if path.n_colr_layers() == 0 {
        ctx.fill_glyph(run.color);
    }
    assert(ctx@ =~= old(ctx)@ + glyph_step(*run, g as int, old(tracker).last));
    Ok(())
}

fn encode_run(ctx: &mut SceneEncoder, tracker: &mut TransformTracker, run: &GlyphRun) -> (r: Result<
    (),
    EncodeError,
>)
    requires
        old(ctx).wf(),
    ensures
        match r {
            Ok(()) => {
                &&& run_complete(*run, run.glyphs@.len())
                &&& final(ctx).wf()
                &&& final(ctx)@ == old(ctx)@ + run_elements(
                    *run,
                    run.glyphs@.len(),
                    old(tracker).last,
                )
                &&& final(tracker).last == pen_before(
                    *run,
                    run.glyphs@.len() as int,
                    old(tracker).last,
                )
            },
            Err(e) => !run_complete(*run, run.glyphs@.len()) && e == EncodeError::MissingPoints,
        },
{
    let ghost start = tracker.last;
    let mut g: usize = 0;
    assert(ctx@ + run_elements(*run, 0, start) =~= ctx@);
    while g < run.glyphs.len()
        invariant
            g <= run.glyphs@.len(),
            ctx.wf(),
            tracker.last == pen_before(*run, g as int, start),
            run_complete(*run, g as nat),
            ctx@ == old(ctx)@ + run_elements(*run, g as nat, start),
        decreases run.glyphs@.len() - g,
    {
        match encode_glyph(ctx, tracker, run, g) {
            Ok(()) => {},
            Err(e) => {
                proof {
                    assert(!glyph_complete(run.glyphs@[g as int].outlines));
                }
                return Err(e);
            },
        }
        assert(ctx@ =~= old(ctx)@ + run_elements(*run, (g + 1) as nat, start));
        g = g + 1;
    }
    Ok(())
}

fn encode_line(ctx: &mut SceneEncoder, line: &Line, pos: Point) -> (r: Result<(), EncodeError>)
    requires
        old(ctx).wf(),
    ensures
        match r {
            Ok(()) => runs_complete(line.runs@, line.runs@.len()) && final(ctx).wf() && final(ctx)@
                == old(ctx)@ + line_elements(*line, pos),
            Err(e) => !runs_complete(line.runs@, line.runs@.len()) && e
                == EncodeError::MissingPoints,
        },
{
    let mut tracker = TransformTracker::new();
    ctx.encode_transform(Matrix::flip_y(), pos);
    let ghost opened = ctx@;
    let mut k: usize = 0;
    assert(ctx@ + runs_elements(line.runs@, 0) =~= ctx@);
    while k < line.runs.len()
        invariant
            k <= line.runs@.len(),
            ctx.wf(),
            tracker.last == runs_end(line.runs@, k as nat),
            runs_complete(line.runs@, k as nat),
            ctx@ == opened + runs_elements(line.runs@, k as nat),
        decreases line.runs@.len() - k,
    {
        match encode_run(ctx, &mut tracker, &line.runs[k]) {
            Ok(()) => {},
            Err(e) => {
                proof {
                    assert(!run_complete(line.runs@[k as int], line.runs@[k as int].glyphs@.len()));
                }
                return Err(e);
            },
        }
        assert(ctx@ =~= opened + runs_elements(line.runs@, (k + 1) as nat));
        k = k + 1;
    }
    let end = tracker.last;
    ctx.encode_transform(
        Matrix::flip_y(),
        Point { x: pos.x.add(end.x).neg(), y: pos.y.add(end.y) },
    );
    assert(ctx@ =~= old(ctx)@ + line_elements(*line, pos));
    Ok(())
}

/// Encodes laid-out text at a place.
///
/// Each line is framed by two transforms: one that flips the vertical axis
/// and moves to `pos`, and one that restores the frame. Within a line each
/// glyph is reached by a transform that holds only the step from the glyph
/// before it. A text with a glyph whose outline lacks points is refused, and
/// the encoder is left as it was.
pub fn draw_text(ctx: &mut SceneEncoder, layout: &TextLayout, pos: Point) -> (r: Result<
    (),
    EncodeError,
>)
    requires
        old(ctx).wf(),
    ensures
        final(ctx).wf(),
        layout_complete(*layout) ==> r is Ok && final(ctx)@ == old(ctx)@ + text_elements(
            *layout,
            pos,
        ),
        !layout_complete(*layout) ==> r == Err::<(), EncodeError>(EncodeError::MissingPoints)
            && final(ctx)@ == old(ctx)@,
{
    let mut text = SceneEncoder::new();
    let mut k: usize = 0;
    while k < layout.lines.len()
        invariant
            k <= layout.lines@.len(),
            text.wf(),
            ctx.wf(),
            ctx@ == old(ctx)@,
            lines_complete(layout.lines@, k as nat),
            text@ == lines_elements(layout.lines@, k as nat, pos),
        decreases layout.lines@.len() - k,
    {
        match encode_line(&mut text, &layout.lines[k], pos) {
            Ok(()) => {},
            Err(e) => {
                proof {
                    assert(!runs_complete(
                        layout.lines@[k as int].runs@,
                        layout.lines@[k as int].runs@.len(),
                    ));
                }
                return Err(e);
            },
        }
        k = k + 1;
    }
    ctx.append_scene(&text);
    Ok(())
}

/// A decoration leaves the frame as it found it: it is a transform, the four
/// lines of the rectangle, the fill, and a transform whose translation is
/// the first one negated.
pub proof fn lemma_decoration_restores(
    offset: Single,
    size: Single,
    color: u32,
    width: Single,
    delta: Point,
)
    ensures
        ({
            let e = decoration_elements(offset, size, color, width, delta);
            &&& e.len() == 7
            &&& e[0] is Transform
            &&& e[6] is Transform
            &&& e[0]->mat == Matrix::identity_spec()
            &&& e[6]->mat == Matrix::identity_spec()
            &&& e[6]->translate.x == e[0]->translate.x.negated()
            &&& e[6]->translate.y == e[0]->translate.y.negated()
            &&& e.subrange(1, 5) == rect_elements(width, size)
            &&& e[5] == (Element::FillColor { rgba_color: color })
        }),
{
    let e = decoration_elements(offset, size, color, width, delta);
    assert(e.subrange(1, 5) =~= rect_elements(width, size));
}

} // verus!
