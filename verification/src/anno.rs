//! Annotation records and the bounding boxes they give.
//!
//! The element stage leaves one record of eleven words for each primitive.
//! A record of a stroked primitive holds two corners of its box and the half
//! widths by which the stroke extends it; a record of a filled primitive
//! holds its colour and two corners of its box. The box in tiles is what the
//! binning stage assigns the primitive by.

use vstd::prelude::*;
use crate::single::Single;

verus! {

/// Words in one annotation record.
pub const ANNO_WORDS: usize = 11;

/// Tag of a stroked primitive.
pub const ANNO_STROKE: u32 = 1;

/// Tag of a filled primitive.
pub const ANNO_FILL: u32 = 4;

/// A box by its least and its greatest corner.
#[derive(Clone, Copy, Debug, PartialEq, Eq, Structural)]
pub struct BoundingBox {
    pub x0: Single,
    pub y0: Single,
    pub x1: Single,
    pub y1: Single,
}

/// The box of two corners in any order, extended by `wx` to the left and to
/// the right and by `wy` upwards and downwards.
pub open spec fn extended_box(
    x0: Single,
    y0: Single,
    x1: Single,
    y1: Single,
    wx: Single,
    wy: Single,
) -> BoundingBox {
    BoundingBox {
        x0: x0.minimum(x1).difference(wx),
        y0: y0.minimum(y1).difference(wy),
        x1: x0.maximum(x1).sum(wx),
        y1: y0.maximum(y1).sum(wy),
    }
}

/// The box of two corners in any order.
pub open spec fn ordered_box(x0: Single, y0: Single, x1: Single, y1: Single) -> BoundingBox {
    BoundingBox { x0: x0.minimum(x1), y0: y0.minimum(y1), x1: x0.maximum(x1), y1: y0.maximum(y1) }
}

/// The box that a record gives: for a stroke the box of the corners in words
/// 1 to 4, extended by the half widths in words 5 and 6; for a fill the box
/// of the corners in words 2 to 5; for any other tag none.
pub open spec fn record_box(record: Seq<u32>) -> Option<BoundingBox>
    recommends
        record.len() == ANNO_WORDS,
{
    let w = |i: int| Single { bits: record[i] };
    if record[0] == ANNO_STROKE {
        Some(extended_box(w(1), w(2), w(3), w(4), w(5), w(6)))
    } else if record[0] == ANNO_FILL {
        Some(ordered_box(w(2), w(3), w(4), w(5)))
    } else {
        None
    }
}

/// The tiles that a box touches: its least corner divided by the tile size
/// of sixteen and rounded down, its greatest corner divided and rounded up.
pub open spec fn tiles_of(b: BoundingBox) -> BoundingBox {
    BoundingBox {
        x0: b.x0.sixteenth_spec().floor_spec(),
        y0: b.y0.sixteenth_spec().floor_spec(),
        x1: b.x1.sixteenth_spec().ceil_spec(),
        y1: b.y1.sixteenth_spec().ceil_spec(),
    }
}

/// The box in tiles that a record gives.
pub open spec fn record_tiles(record: Seq<u32>) -> Option<BoundingBox> {
    match record_box(record) {
        Some(b) => Some(tiles_of(b)),
        None => None,
    }
}

/// Record `i` of an annotation buffer.
pub open spec fn anno_record(buf: Seq<u32>, i: int) -> Seq<u32> {
    buf.subrange(ANNO_WORDS * i, ANNO_WORDS * i + ANNO_WORDS)
}

/// The box of a stroked primitive.
pub fn stroke_box(x0: Single, y0: Single, x1: Single, y1: Single, wx: Single, wy: Single) -> (r:
    BoundingBox)
    ensures
        r == extended_box(x0, y0, x1, y1, wx, wy),
{
    BoundingBox {
        x0: x0.min(x1).sub(wx),
        y0: y0.min(y1).sub(wy),
        x1: x0.max(x1).add(wx),
        y1: y0.max(y1).add(wy),
    }
}

/// The box of a filled primitive.
pub fn fill_box(x0: Single, y0: Single, x1: Single, y1: Single) -> (r: BoundingBox)
    ensures
        r == ordered_box(x0, y0, x1, y1),
{
    BoundingBox { x0: x0.min(x1), y0: y0.min(y1), x1: x0.max(x1), y1: y0.max(y1) }
}

/// The tiles that a box touches.
pub fn tile_box(b: BoundingBox) -> (r: BoundingBox)
    ensures
        r == tiles_of(b),
{
    BoundingBox {
        x0: b.x0.sixteenth().floor(),
        y0: b.y0.sixteenth().floor(),
        x1: b.x1.sixteenth().ceil(),
        y1: b.y1.sixteenth().ceil(),
    }
}

/// The box in tiles of the record that starts at word `at`.
fn tiles_at(buf: &[u32], at: usize) -> (r: Option<BoundingBox>)
    requires
        at + ANNO_WORDS <= buf@.len(),
    ensures
        r == record_tiles(buf@.subrange(at as int, at + ANNO_WORDS)),
{
    let tag: u32 = buf[at];
    let w1 = Single { bits: buf[at + 1] };
    let w2 = Single { bits: buf[at + 2] };
    let w3 = Single { bits: buf[at + 3] };
    let w4 = Single { bits: buf[at + 4] };
    let w5 = Single { bits: buf[at + 5] };
    let w6 = Single { bits: buf[at + 6] };
    if tag == ANNO_STROKE {
        Some(tile_box(stroke_box(w1, w2, w3, w4, w5, w6)))
    } else if tag == ANNO_FILL {
        Some(tile_box(fill_box(w2, w3, w4, w5)))
    } else {
        None
    }
}

/// Reads an annotation buffer: for each whole record the box in tiles that
/// it gives, or none where its tag carries no box.
pub fn analyze_anno(buf: &[u32]) -> (r: Vec<Option<BoundingBox>>)
    ensures
        r@.len() == buf@.len() / (ANNO_WORDS as nat),
        forall|i: int| 0 <= i < r@.len() ==> #[trigger] r@[i] == record_tiles(anno_record(buf@, i)),
{
    let n: usize = buf.len() / ANNO_WORDS;
    let mut out: Vec<Option<BoundingBox>> = Vec::new();
    let mut i: usize = 0;
    while i < n
        invariant
            i <= n,
            n == buf@.len() / (ANNO_WORDS as nat),
            n * ANNO_WORDS <= buf@.len() <= usize::MAX,
            out@.len() == i,
            forall|k: int| 0 <= k < i ==> #[trigger] out@[k] == record_tiles(anno_record(buf@, k)),
        decreases n - i,
    {
        let tiles = tiles_at(buf, i * ANNO_WORDS);
        out.push(tiles);
        i = i + 1;
    }
    out
}

} // verus!
