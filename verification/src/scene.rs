//! The scene element stream and its wire format.
//!
//! An element is one fixed-size record of nine little-endian words: a tag and
//! up to eight words of payload. A scene is the records of its elements, one
//! after the other.

use vstd::prelude::*;
use crate::error::DecodeError;
use crate::single::Single;

verus! {

/// Words in one element record.
pub const RECORD_WORDS: usize = 9;

/// Bytes in one element record.
pub const RECORD_BYTES: usize = 36;

/// Tag of a line segment; its payload is two points.
pub const TAG_LINE: u32 = 1;

/// Tag of a quadratic segment; its payload is three points.
pub const TAG_QUAD: u32 = 2;

/// Tag of a cubic segment; its payload is four points.
pub const TAG_CUBIC: u32 = 3;

/// Tag of a fill; its payload is the colour.
pub const TAG_FILL_COLOR: u32 = 4;

/// Tag of a transform; its payload is the matrix and the translation.
pub const TAG_TRANSFORM: u32 = 6;

/// A point of the plane.
#[derive(Clone, Copy, Debug, PartialEq, Eq, Structural)]
pub struct Point {
    pub x: Single,
    pub y: Single,
}

/// The linear part of an affine map: a point `(x, y)` goes to
/// `(a x + c y, b x + d y)`.
#[derive(Clone, Copy, Debug, PartialEq, Eq, Structural)]
pub struct Matrix {
    pub a: Single,
    pub b: Single,
    pub c: Single,
    pub d: Single,
}

/// One instruction of a scene.
#[derive(Clone, Copy, Debug, PartialEq, Eq, Structural)]
pub enum Element {
    /// A line segment.
    Line { p0: Point, p1: Point },
    /// A quadratic Bezier segment.
    Quad { p0: Point, p1: Point, p2: Point },
    /// A cubic Bezier segment.
    Cubic { p0: Point, p1: Point, p2: Point, p3: Point },
    /// Fills the segments since the last fill or transform with one colour.
    FillColor { rgba_color: u32 },
    /// Replaces the transform applied to the geometry that follows.
    Transform { mat: Matrix, translate: Point },
}

/// Byte `k` of a word, the least significant first.
pub open spec fn word_byte(w: u32, k: int) -> u8 {
    if k == 0 {
        (w % 256) as u8
    } else if k == 1 {
        (w / 256 % 256) as u8
    } else if k == 2 {
        (w / 65536 % 256) as u8
    } else {
        (w / 16777216) as u8
    }
}

/// The four bytes of a word, the least significant first.
pub open spec fn word_bytes(w: u32) -> Seq<u8> {
    seq![word_byte(w, 0), word_byte(w, 1), word_byte(w, 2), word_byte(w, 3)]
}

/// The little-endian word that starts at byte `at`.
pub open spec fn le_word(bytes: Seq<u8>, at: int) -> u32
    recommends
        0 <= at,
        at + 4 <= bytes.len(),
{
    (bytes[at] + 256 * bytes[at + 1] + 65536 * bytes[at + 2] + 16777216 * bytes[at + 3]) as u32
}

/// The bytes of a sequence of words.
pub open spec fn words_bytes(ws: Seq<u32>) -> Seq<u8>
    decreases ws.len(),
{
    if ws.len() == 0 {
        Seq::empty()
    } else {
        words_bytes(ws.drop_last()) + word_bytes(ws.last())
    }
}

/// The whole words of a byte sequence; up to three bytes at its end are left
/// out.
pub open spec fn bytes_words(bytes: Seq<u8>) -> Seq<u32> {
    Seq::new((bytes.len() / 4) as nat, |j: int| le_word(bytes, 4 * j))
}

pub proof fn lemma_words_bytes_len(ws: Seq<u32>)
    ensures
        words_bytes(ws).len() == 4 * ws.len(),
    decreases ws.len(),
{
    if ws.len() > 0 {
        lemma_words_bytes_len(ws.drop_last());
    }
}

/// A word is read back from its own bytes.
pub proof fn lemma_word_round_trip(w: u32)
    ensures
        le_word(word_bytes(w), 0) == w,
{
}

/// Each word is read back from the bytes of a sequence of words at four times
/// its index.
pub proof fn lemma_words_bytes_index(ws: Seq<u32>, j: int)
    requires
        0 <= j < ws.len(),
    ensures
        words_bytes(ws).len() == 4 * ws.len(),
        le_word(words_bytes(ws), 4 * j) == ws[j],
    decreases ws.len(),
{
    lemma_words_bytes_len(ws);
    lemma_words_bytes_len(ws.drop_last());
    if j == ws.len() - 1 {
        lemma_word_round_trip(ws.last());
    } else {
        lemma_words_bytes_index(ws.drop_last(), j);
    }
}

/// Words are read back from their bytes.
pub proof fn lemma_words_round_trip(ws: Seq<u32>)
    ensures
        bytes_words(words_bytes(ws)) == ws,
{
    lemma_words_bytes_len(ws);
    assert forall|j: int| 0 <= j < ws.len() implies #[trigger] bytes_words(words_bytes(ws))[j]
        == ws[j] by {
        lemma_words_bytes_index(ws, j);
    }
    assert(bytes_words(words_bytes(ws)) =~= ws);
}

impl Point {
    /// The point whose two coordinates are positive zero.
    pub open spec fn origin_spec() -> Point {
        Point { x: Single { bits: 0 }, y: Single { bits: 0 } }
    }

    /// True when both coordinates are equal as values. A point with a NaN
    /// coordinate is in no place, not even its own.
    pub open spec fn same_place(self, other: Point) -> bool {
        self.x.value_eq(other.x) && self.y.value_eq(other.y)
    }

    pub fn new(x: Single, y: Single) -> (r: Point)
        ensures
            r.x == x,
            r.y == y,
    {
        Point { x, y }
    }

    pub fn origin() -> (r: Point)
        ensures
            r == Point::origin_spec(),
    {
        Point { x: Single::zero(), y: Single::zero() }
    }

    /// Compares two points coordinate by coordinate, as values.
    pub fn equals(self, other: Point) -> (r: bool)
        ensures
            r == self.same_place(other),
    {
        self.x.equals(other.x) && self.y.equals(other.y)
    }
}

impl Matrix {
    /// The identity.
    pub fn identity() -> (r: Matrix)
        ensures
            r == Matrix::identity_spec(),
    {
        Matrix { a: Single::one(), b: Single::zero(), c: Single::zero(), d: Single::one() }
    }

    /// The map that flips the vertical axis.
    pub fn flip_y() -> (r: Matrix)
        ensures
            r == Matrix::flip_y_spec(),
    {
        Matrix { a: Single::one(), b: Single::zero(), c: Single::zero(), d: Single::one().neg() }
    }

    pub open spec fn identity_spec() -> Matrix {
        Matrix {
            a: Single { bits: 0x3f80_0000 },
            b: Single { bits: 0 },
            c: Single { bits: 0 },
            d: Single { bits: 0x3f80_0000 },
        }
    }

    pub open spec fn flip_y_spec() -> Matrix {
        Matrix {
            a: Single { bits: 0x3f80_0000 },
            b: Single { bits: 0 },
            c: Single { bits: 0 },
            d: Single { bits: 0xbf80_0000 },
        }
    }
}

impl Element {
    /// The nine words of the element's record: the tag, the payload, zeros.
    pub open spec fn words(self) -> Seq<u32> {
        match self {
            Element::Line { p0, p1 } => seq![
                TAG_LINE,
                p0.x.bits,
                p0.y.bits,
                p1.x.bits,
                p1.y.bits,
                0,
                0,
                0,
                0,
            ],
            Element::Quad { p0, p1, p2 } => seq![
                TAG_QUAD,
                p0.x.bits,
                p0.y.bits,
                p1.x.bits,
                p1.y.bits,
                p2.x.bits,
                p2.y.bits,
                0,
                0,
            ],
            Element::Cubic { p0, p1, p2, p3 } => seq![
                TAG_CUBIC,
                p0.x.bits,
                p0.y.bits,
                p1.x.bits,
                p1.y.bits,
                p2.x.bits,
                p2.y.bits,
                p3.x.bits,
                p3.y.bits,
            ],
            Element::FillColor { rgba_color } => seq![TAG_FILL_COLOR, rgba_color, 0, 0, 0, 0, 0, 0, 0],
            Element::Transform { mat, translate } => seq![
                TAG_TRANSFORM,
                mat.a.bits,
                mat.b.bits,
                mat.c.bits,
                mat.d.bits,
                translate.x.bits,
                translate.y.bits,
                0,
                0,
            ],
        }
    }

    /// The element that nine words stand for, by their tag.
    pub open spec fn from_words(ws: Seq<u32>) -> Result<Element, DecodeError>
        recommends
            ws.len() == RECORD_WORDS,
    {
        let p = |i: int| Point { x: Single { bits: ws[i] }, y: Single { bits: ws[i + 1] } };
        if ws[0] == TAG_LINE {
            Ok(Element::Line { p0: p(1), p1: p(3) })
        } else if ws[0] == TAG_QUAD {
            Ok(Element::Quad { p0: p(1), p1: p(3), p2: p(5) })
        } else if ws[0] == TAG_CUBIC {
            Ok(Element::Cubic { p0: p(1), p1: p(3), p2: p(5), p3: p(7) })
        } else if ws[0] == TAG_FILL_COLOR {
            Ok(Element::FillColor { rgba_color: ws[1] })
        } else if ws[0] == TAG_TRANSFORM {
            Ok(
                Element::Transform {
                    mat: Matrix {
                        a: Single { bits: ws[1] },
                        b: Single { bits: ws[2] },
                        c: Single { bits: ws[3] },
                        d: Single { bits: ws[4] },
                    },
                    translate: p(5),
                },
            )
        } else {
            Err(DecodeError::UnknownTag { tag: ws[0] })
        }
    }

    /// The record of the element.
    pub open spec fn encoded(self) -> Seq<u8> {
        words_bytes(self.words())
    }

    /// The element that a record stands for. A record is exactly
    /// `RECORD_BYTES` long.
    pub open spec fn decoded(bytes: Seq<u8>) -> Result<Element, DecodeError> {
        if bytes.len() != RECORD_BYTES {
            Err(DecodeError::Truncated)
        } else {
            Element::from_words(bytes_words(bytes))
        }
    }

    /// True for the three kinds of segment.
    pub open spec fn is_segment(self) -> bool {
        self is Line || self is Quad || self is Cubic
    }

    /// An element is read back from its record.
    pub proof fn lemma_round_trip(self)
        ensures
            self.encoded().len() == RECORD_BYTES,
            Element::decoded(self.encoded()) == Ok::<Element, DecodeError>(self),
    {
        lemma_words_round_trip(self.words());
        lemma_words_bytes_len(self.words());
    }
}

/// The records of a sequence of elements, one after the other.
pub open spec fn scene_bytes(elements: Seq<Element>) -> Seq<u8>
    decreases elements.len(),
{
    if elements.len() == 0 {
        Seq::empty()
    } else {
        scene_bytes(elements.drop_last()) + elements.last().encoded()
    }
}

/// Record `i` of a scene buffer.
pub open spec fn record_at(bytes: Seq<u8>, i: int) -> Seq<u8> {
    bytes.subrange(RECORD_BYTES * i, RECORD_BYTES * i + RECORD_BYTES)
}

/// The elements of the first `n` records of a buffer, or the error of the
/// first record among them that is not an element.
pub open spec fn records_decoded(bytes: Seq<u8>, n: nat) -> Result<Seq<Element>, DecodeError>
    decreases n,
{
    if n == 0 {
        Ok(Seq::empty())
    } else {
        match records_decoded(bytes, (n - 1) as nat) {
            Err(e) => Err(e),
            Ok(s) => match Element::decoded(record_at(bytes, n - 1)) {
                Err(e) => Err(e),
                Ok(element) => Ok(s.push(element)),
            },
        }
    }
}

/// The elements of a scene buffer. A buffer that does not end with a record
/// is truncated, which is reported when all its whole records are elements.
pub open spec fn scene_decoded(bytes: Seq<u8>) -> Result<Seq<Element>, DecodeError> {
    match records_decoded(bytes, bytes.len() / (RECORD_BYTES as nat)) {
        Err(e) => Err(e),
        Ok(s) => if bytes.len() % (RECORD_BYTES as nat) == 0 {
            Ok(s)
        } else {
            Err(DecodeError::Truncated)
        },
    }
}

pub proof fn lemma_scene_bytes_len(elements: Seq<Element>)
    ensures
        scene_bytes(elements).len() == RECORD_BYTES * elements.len(),
    decreases elements.len(),
{
    if elements.len() > 0 {
        lemma_scene_bytes_len(elements.drop_last());
        elements.last().lemma_round_trip();
    }
}

/// Record `i` of a scene's buffer is the record of element `i`.
pub proof fn lemma_scene_record(elements: Seq<Element>, i: int)
    requires
        0 <= i < elements.len(),
    ensures
        record_at(scene_bytes(elements), i) == elements[i].encoded(),
    decreases elements.len(),
{
    let front = elements.drop_last();
    let last = elements.last();
    lemma_scene_bytes_len(front);
    last.lemma_round_trip();
    let bytes = scene_bytes(elements);
    assert(bytes == scene_bytes(front) + last.encoded());
    if i == elements.len() - 1 {
        assert(record_at(bytes, i) =~= last.encoded());
    } else {
        lemma_scene_record(front, i);
        assert(record_at(bytes, i) =~= record_at(scene_bytes(front), i));
    }
}

/// The first `n` records of a scene's buffer decode to its first `n`
/// elements.
pub proof fn lemma_scene_records_decoded(elements: Seq<Element>, n: nat)
    requires
        n <= elements.len(),
    ensures
        records_decoded(scene_bytes(elements), n) == Ok::<Seq<Element>, DecodeError>(
            elements.take(n as int),
        ),
    decreases n,
{
    if n == 0 {
        assert(elements.take(0) =~= Seq::<Element>::empty());
    } else {
        lemma_scene_records_decoded(elements, (n - 1) as nat);
        lemma_scene_record(elements, n - 1);
        elements[n - 1].lemma_round_trip();
        assert(elements.take(n - 1).push(elements[n - 1]) =~= elements.take(n as int));
    }
}

/// A scene is read back from its buffer.
pub proof fn lemma_scene_round_trip(elements: Seq<Element>)
    ensures
        scene_decoded(scene_bytes(elements)) == Ok::<Seq<Element>, DecodeError>(elements),
{
    lemma_scene_bytes_len(elements);
    lemma_scene_records_decoded(elements, elements.len());
    assert(elements.take(elements.len() as int) =~= elements);
    let len = scene_bytes(elements).len();
    let n = elements.len();
    assert(len == 36 * n);
    assert(len / 36 == n && len % 36 == 0);
}

/// Once a record fails, so does every longer run of records, with the same
/// error.
pub proof fn lemma_records_decoded_error(bytes: Seq<u8>, n: nat, m: nat)
    requires
        n <= m,
        records_decoded(bytes, n) is Err,
    ensures
        records_decoded(bytes, m) == records_decoded(bytes, n),
    decreases m,
{
    if n < m {
        lemma_records_decoded_error(bytes, n, (m - 1) as nat);
    }
}

/// Appends the four bytes of a word.
pub fn push_word(buf: &mut Vec<u8>, w: u32)
    ensures
        final(buf)@ == old(buf)@ + word_bytes(w),
{
    buf.push((w % 256) as u8);
    buf.push((w / 256 % 256) as u8);
    buf.push((w / 65536 % 256) as u8);
    buf.push((w / 16777216) as u8);
    assert(buf@ =~= old(buf)@ + word_bytes(w));
}

/// Appends the bytes of each word in turn.
pub fn push_words(buf: &mut Vec<u8>, ws: &Vec<u32>)
    ensures
        final(buf)@ == old(buf)@ + words_bytes(ws@),
{
    let mut i: usize = 0;
    while i < ws.len()
        invariant
            i <= ws.len(),
            buf@ == old(buf)@ + words_bytes(ws@.take(i as int)),
        decreases ws.len() - i,
    {
        proof {
            let next = ws@.take(i + 1);
            assert(next.drop_last() =~= ws@.take(i as int));
            assert(next.last() == ws@[i as int]);
            assert(old(buf)@ + words_bytes(next) =~= (old(buf)@ + words_bytes(ws@.take(i as int)))
                + word_bytes(ws@[i as int]));
        }
        push_word(buf, ws[i]);
        i = i + 1;
    }
    assert(ws@.take(ws.len() as int) =~= ws@);
}

/// Reads the little-endian word that starts at byte `at`.
pub fn read_word(bytes: &[u8], at: usize) -> (w: u32)
    requires
        at + 4 <= bytes@.len(),
    ensures
        w == le_word(bytes@, at as int),
{
    let b0: u32 = bytes[at] as u32;
    let b1: u32 = bytes[at + 1] as u32;
    let b2: u32 = bytes[at + 2] as u32;
    let b3: u32 = bytes[at + 3] as u32;
    b0 + 256 * b1 + 65536 * b2 + 16777216 * b3
}

impl Element {
    fn record_words(&self) -> (ws: Vec<u32>)
        ensures
            ws@ == self.words(),
    {
        let ws: Vec<u32> = match *self {
            Element::Line { p0, p1 } => vec![
                TAG_LINE,
                p0.x.bits,
                p0.y.bits,
                p1.x.bits,
                p1.y.bits,
                0,
                0,
                0,
                0,
            ],
            Element::Quad { p0, p1, p2 } => vec![
                TAG_QUAD,
                p0.x.bits,
                p0.y.bits,
                p1.x.bits,
                p1.y.bits,
                p2.x.bits,
                p2.y.bits,
                0,
                0,
            ],
            Element::Cubic { p0, p1, p2, p3 } => vec![
                TAG_CUBIC,
                p0.x.bits,
                p0.y.bits,
                p1.x.bits,
                p1.y.bits,
                p2.x.bits,
                p2.y.bits,
                p3.x.bits,
                p3.y.bits,
            ],
            Element::FillColor { rgba_color } => vec![TAG_FILL_COLOR, rgba_color, 0, 0, 0, 0, 0, 0, 0],
            Element::Transform { mat, translate } => vec![
                TAG_TRANSFORM,
                mat.a.bits,
                mat.b.bits,
                mat.c.bits,
                mat.d.bits,
                translate.x.bits,
                translate.y.bits,
                0,
                0,
            ],
        };
        assert(ws@ =~= self.words());
        ws
    }

    /// Writes the element as one record.
    pub fn encode(&self) -> (r: Vec<u8>)
        ensures
            r@ == self.encoded(),
    {
        let ws = self.record_words();
        let mut buf: Vec<u8> = Vec::new();
        push_words(&mut buf, &ws);
        assert(buf@ =~= self.encoded());
        buf
    }

    /// Reads one record.
    pub fn decode(bytes: &[u8]) -> (r: Result<Element, DecodeError>)
        ensures
            r == Element::decoded(bytes@),
    {
        if bytes.len() != RECORD_BYTES {
            return Err(DecodeError::Truncated);
        }
        let tag = read_word(bytes, 0);
        let w1 = read_word(bytes, 4);
        let w2 = read_word(bytes, 8);
        let w3 = read_word(bytes, 12);
        let w4 = read_word(bytes, 16);
        let w5 = read_word(bytes, 20);
        let w6 = read_word(bytes, 24);
        let w7 = read_word(bytes, 28);
        let w8 = read_word(bytes, 32);
        proof {
            let ws = bytes_words(bytes@);
            assert(ws[0] == tag && ws[1] == w1 && ws[2] == w2 && ws[3] == w3 && ws[4] == w4);
            assert(ws[5] == w5 && ws[6] == w6 && ws[7] == w7 && ws[8] == w8);
        }
        let p0 = Point { x: Single { bits: w1 }, y: Single { bits: w2 } };
        let p1 = Point { x: Single { bits: w3 }, y: Single { bits: w4 } };
        let p2 = Point { x: Single { bits: w5 }, y: Single { bits: w6 } };
        let p3 = Point { x: Single { bits: w7 }, y: Single { bits: w8 } };
        if tag == TAG_LINE {
            Ok(Element::Line { p0, p1 })
        } else if tag == TAG_QUAD {
            Ok(Element::Quad { p0, p1, p2 })
        } else if tag == TAG_CUBIC {
            Ok(Element::Cubic { p0, p1, p2, p3 })
        } else if tag == TAG_FILL_COLOR {
            Ok(Element::FillColor { rgba_color: w1 })
        } else if tag == TAG_TRANSFORM {
            Ok(
                Element::Transform {
                    mat: Matrix {
                        a: Single { bits: w1 },
                        b: Single { bits: w2 },
                        c: Single { bits: w3 },
                        d: Single { bits: w4 },
                    },
                    translate: p2,
                },
            )
        } else {
            Err(DecodeError::UnknownTag { tag })
        }
    }
}

/// Writes a scene: the record of each element in turn.
pub fn encode_scene(elements: &Vec<Element>) -> (r: Vec<u8>)
    ensures
        r@ == scene_bytes(elements@),
{
    let mut buf: Vec<u8> = Vec::new();
    let mut i: usize = 0;
    while i < elements.len()
        invariant
            i <= elements.len(),
            buf@ == scene_bytes(elements@.take(i as int)),
        decreases elements.len() - i,
    {
        proof {
            let next = elements@.take(i + 1);
            assert(next.drop_last() =~= elements@.take(i as int));
            assert(next.last() == elements@[i as int]);
        }
        let ws = elements[i].record_words();
        push_words(&mut buf, &ws);
        i = i + 1;
    }
    assert(elements@.take(elements.len() as int) =~= elements@);
    buf
}

/// Reads a scene buffer back into its elements.
pub fn decode_scene(bytes: &[u8]) -> (r: Result<Vec<Element>, DecodeError>)
    ensures
        match r {
            Ok(v) => scene_decoded(bytes@) == Ok::<Seq<Element>, DecodeError>(v@),
            Err(e) => scene_decoded(bytes@) == Err::<Seq<Element>, DecodeError>(e),
        },
{
    let n: usize = bytes.len() / RECORD_BYTES;
    let mut out: Vec<Element> = Vec::new();
    let mut i: usize = 0;
    while i < n
        invariant
            i <= n,
            n == bytes@.len() / (RECORD_BYTES as nat),
            n * RECORD_BYTES <= bytes@.len() <= usize::MAX,
            records_decoded(bytes@, i as nat) == Ok::<Seq<Element>, DecodeError>(out@),
        decreases n - i,
    {
        let record = vstd::slice::slice_subrange(bytes, i * RECORD_BYTES, i * RECORD_BYTES + RECORD_BYTES);
        assert(record@ == record_at(bytes@, i as int));
        match Element::decode(record) {
            Ok(element) => {
                out.push(element);
            },
            Err(e) => {
                proof {
                    assert(records_decoded(bytes@, (i + 1) as nat) == Err::<Seq<Element>, DecodeError>(e));
                    lemma_records_decoded_error(bytes@, (i + 1) as nat, n as nat);
                }
                return Err(e);
            },
        }
        i = i + 1;
    }
    if bytes.len() % RECORD_BYTES == 0 {
        Ok(out)
    } else {
        Err(DecodeError::Truncated)
    }
}

/// How many of the elements are segments.
pub open spec fn segment_count(s: Seq<Element>) -> nat
    decreases s.len(),
{
    if s.len() == 0 {
        0
    } else {
        segment_count(s.drop_last()) + if s.last().is_segment() {
            1nat
        } else {
            0nat
        }
    }
}

/// How many of the elements are fills.
pub open spec fn fill_count(s: Seq<Element>) -> nat
    decreases s.len(),
{
    if s.len() == 0 {
        0
    } else {
        fill_count(s.drop_last()) + if s.last() is FillColor {
            1nat
        } else {
            0nat
        }
    }
}

/// How many of the elements are transforms.
pub open spec fn transform_count(s: Seq<Element>) -> nat
    decreases s.len(),
{
    if s.len() == 0 {
        0
    } else {
        transform_count(s.drop_last()) + if s.last() is Transform {
            1nat
        } else {
            0nat
        }
    }
}

/// The counts of a concatenation are the sums of the counts of its parts.
pub proof fn lemma_counts_concat(a: Seq<Element>, b: Seq<Element>)
    ensures
        segment_count(a + b) == segment_count(a) + segment_count(b),
        fill_count(a + b) == fill_count(a) + fill_count(b),
        transform_count(a + b) == transform_count(a) + transform_count(b),
    decreases b.len(),
{
    if b.len() == 0 {
        assert(a + b =~= a);
    } else {
        lemma_counts_concat(a, b.drop_last());
        assert((a + b).drop_last() =~= a + b.drop_last());
    }
}

/// Every element is a segment, a fill or a transform.
pub proof fn lemma_counts_total(s: Seq<Element>)
    ensures
        segment_count(s) + fill_count(s) + transform_count(s) == s.len(),
    decreases s.len(),
{
    if s.len() > 0 {
        lemma_counts_total(s.drop_last());
    }
}

/// A sequence of segments holds nothing else.
pub proof fn lemma_counts_of_segments(s: Seq<Element>)
    requires
        forall|k: int| 0 <= k < s.len() ==> (#[trigger] s[k]).is_segment(),
    ensures
        segment_count(s) == s.len(),
        fill_count(s) == 0,
        transform_count(s) == 0,
    decreases s.len(),
{
    if s.len() > 0 {
        lemma_counts_of_segments(s.drop_last());
    }
}

} // verus!
