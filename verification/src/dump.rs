//! Readers for buffers that are inspected word by word.

use vstd::prelude::*;
use crate::anno::BoundingBox;
use crate::scene::{bytes_words, le_word, read_word, Matrix, Point};
use crate::single::Single;

verus! {

/// Bytes in one record of the state buffer.
pub const STATE_BYTES: usize = 48;

/// The state that the element stage carries from one element to the next:
/// the transform in force, the box of the path so far, the line width and
/// the flags.
#[derive(Clone, Copy, Debug, PartialEq, Eq, Structural)]
pub struct StateRecord {
    pub mat: Matrix,
    pub translate: Point,
    pub bbox: BoundingBox,
    pub linewidth: Single,
    pub flags: u8,
}

/// The state that a record of 48 bytes holds: eleven little-endian words,
/// which are the transform, the box and the line width, and then one byte of
/// flags.
pub open spec fn state_record(bytes: Seq<u8>) -> StateRecord
    recommends
        bytes.len() == STATE_BYTES,
{
    let w = |k: int| Single { bits: le_word(bytes, 4 * k) };
    StateRecord {
        mat: Matrix { a: w(0), b: w(1), c: w(2), d: w(3) },
        translate: Point { x: w(4), y: w(5) },
        bbox: BoundingBox { x0: w(6), y0: w(7), x1: w(8), y1: w(9) },
        linewidth: w(10),
        flags: bytes[44],
    }
}

/// Record `i` of a state buffer.
pub open spec fn state_bytes(buf: Seq<u8>, i: int) -> Seq<u8> {
    buf.subrange(STATE_BYTES * i, STATE_BYTES * i + STATE_BYTES)
}

/// Reads a scene buffer as little-endian words. Word `i` starts at byte
/// `4 * i`; up to three bytes at the end are left out.
pub fn dump_scene(buf: &[u8]) -> (r: Vec<u32>)
    ensures
        r@ == bytes_words(buf@),
{
    let n: usize = buf.len() / 4;
    let mut out: Vec<u32> = Vec::new();
    let mut i: usize = 0;
    while i < n
        invariant
            i <= n,
            n == buf@.len() / 4,
            buf@.len() <= usize::MAX,
            out@.len() == i,
            forall|k: int| 0 <= k < i ==> #[trigger] out@[k] == le_word(buf@, 4 * k),
        decreases n - i,
    {
        let w = read_word(buf, i * 4);
        out.push(w);
        i = i + 1;
    }
    assert(out@ =~= bytes_words(buf@));
    out
}

/// Reads a state buffer: the state of each whole record.
pub fn dump_state(buf: &[u8]) -> (r: Vec<StateRecord>)
    ensures
        r@.len() == buf@.len() / (STATE_BYTES as nat),
        forall|i: int| 0 <= i < r@.len() ==> #[trigger] r@[i] == state_record(state_bytes(buf@, i)),
{
    let n: usize = buf.len() / STATE_BYTES;
    let mut out: Vec<StateRecord> = Vec::new();
    let mut i: usize = 0;
    while i < n
        invariant
            i <= n,
            n == buf@.len() / (STATE_BYTES as nat),
            n * STATE_BYTES <= buf@.len() <= usize::MAX,
            out@.len() == i,
            forall|k: int| 0 <= k < i ==> #[trigger] out@[k] == state_record(state_bytes(buf@, k)),
        decreases n - i,
    {
        let j: usize = i * STATE_BYTES;
        let ghost record = state_bytes(buf@, i as int);
        let w0 = Single { bits: read_word(buf, j) };
        let w1 = Single { bits: read_word(buf, j + 4) };
        let w2 = Single { bits: read_word(buf, j + 8) };
        let w3 = Single { bits: read_word(buf, j + 12) };
        let w4 = Single { bits: read_word(buf, j + 16) };
        let w5 = Single { bits: read_word(buf, j + 20) };
        let w6 = Single { bits: read_word(buf, j + 24) };
        let w7 = Single { bits: read_word(buf, j + 28) };
        let w8 = Single { bits: read_word(buf, j + 32) };
        let w9 = Single { bits: read_word(buf, j + 36) };
        let w10 = Single { bits: read_word(buf, j + 40) };
        let state = StateRecord {
            mat: Matrix { a: w0, b: w1, c: w2, d: w3 },
            translate: Point { x: w4, y: w5 },
            bbox: BoundingBox { x0: w6, y0: w7, x1: w8, y1: w9 },
            linewidth: w10,
            flags: buf[j + 44],
        };
        assert(state == state_record(record));
        out.push(state);
        i = i + 1;
    }
    out
}

} // verus!
