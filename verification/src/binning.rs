//! The output of the binning stage and the merge that serialises it.
//!
//! For each bin, each lane leaves a chain of chunks in the bin buffer. A
//! chunk starts with its entry count and the byte offset of its successor,
//! and its entries follow. The merge walks the chains of one bin and emits
//! whole chunks, each time from the lane whose current chunk has the least
//! first entry, the lowest such lane first.

use vstd::prelude::*;
use vstd::multiset::Multiset;
use vstd::seq_lib::lemma_multiset_commutative;
use crate::error::DecodeError;

verus! {

/// Bins in the bin buffer.
pub const N_BINS: usize = 256;

/// Lanes that write to one bin.
pub const N_LANES: usize = 16;

/// Bytes between the first chunks of consecutive lanes.
pub const LANE_STRIDE: usize = 64;

/// A chunk as the merge sees it: where it starts and what it carries.
pub struct ChunkView {
    pub offset: nat,
    pub entries: Seq<u32>,
}

/// The first entry of the chunk that lane `l` has reached, if the lane has
/// one left and that chunk is not empty. A lane without a key is exhausted.
pub open spec fn current_key(lanes: Seq<Seq<ChunkView>>, cursors: Seq<nat>, l: int) -> Option<u32> {
    if 0 <= l < lanes.len() && l < cursors.len() && cursors[l] < lanes[l].len()
        && lanes[l][cursors[l] as int].entries.len() > 0 {
        Some(lanes[l][cursors[l] as int].entries[0])
    } else {
        None
    }
}

/// Lane `m` does not take precedence over lane `l`: its key is not smaller,
/// and when `m` is the lower lane its key is larger.
pub open spec fn yields_to(lanes: Seq<Seq<ChunkView>>, cursors: Seq<nat>, l: int, m: int) -> bool {
    let kl = current_key(lanes, cursors, l);
    let km = current_key(lanes, cursors, m);
    km is Some ==> kl is Some && kl->0 <= km->0 && (m < l ==> kl->0 < km->0)
}

/// Lane `l` has the least key among the first `n` lanes, and is the lowest
/// lane among them with that key.
pub open spec fn is_best_among(
    lanes: Seq<Seq<ChunkView>>,
    cursors: Seq<nat>,
    n: int,
    l: int,
) -> bool {
    &&& 0 <= l < n
    &&& current_key(lanes, cursors, l) is Some
    &&& forall|m: int| 0 <= m < n ==> #[trigger] yields_to(lanes, cursors, l, m)
}

/// Lane `l` is the one that the merge takes its next chunk from.
pub open spec fn is_selected(lanes: Seq<Seq<ChunkView>>, cursors: Seq<nat>, l: int) -> bool {
    is_best_among(lanes, cursors, lanes.len() as int, l)
}

/// The chunks that the first `n` lanes have left.
pub open spec fn remaining(lanes: Seq<Seq<ChunkView>>, cursors: Seq<nat>, n: nat) -> nat
    decreases n,
{
    if n == 0 {
        0
    } else {
        let l = n - 1;
        let here: nat = if l < lanes.len() && l < cursors.len() && cursors[l] < lanes[l].len() {
            (lanes[l].len() - cursors[l]) as nat
        } else {
            0
        };
        remaining(lanes, cursors, (n - 1) as nat) + here
    }
}

/// The cursors after lane `l` has given up its current chunk.
pub open spec fn advance(cursors: Seq<nat>, l: int) -> Seq<nat> {
    cursors.update(l, cursors[l] + 1)
}

/// The merge from given cursors: the lane and the place in its chain of each
/// chunk, in the order in which the chunks are emitted.
pub open spec fn merge_from(lanes: Seq<Seq<ChunkView>>, cursors: Seq<nat>) -> Seq<(int, int)>
    decreases remaining(lanes, cursors, lanes.len()),
    via merge_from_terminates
{
    if exists|l: int| is_selected(lanes, cursors, l) {
        let l = choose|l: int| is_selected(lanes, cursors, l);
        seq![(l, cursors[l] as int)] + merge_from(lanes, advance(cursors, l))
    } else {
        Seq::empty()
    }
}

#[via_fn]
proof fn merge_from_terminates(lanes: Seq<Seq<ChunkView>>, cursors: Seq<nat>) {
    if exists|l: int| is_selected(lanes, cursors, l) {
        let l = choose|l: int| is_selected(lanes, cursors, l);
        lemma_advance_remaining(lanes, cursors, l, lanes.len());
    }
}

/// The merge of whole chains.
pub open spec fn merge_order(lanes: Seq<Seq<ChunkView>>) -> Seq<(int, int)> {
    merge_from(lanes, Seq::new(lanes.len(), |l: int| 0nat))
}

/// Giving up a chunk leaves one chunk less.
pub proof fn lemma_advance_remaining(
    lanes: Seq<Seq<ChunkView>>,
    cursors: Seq<nat>,
    l: int,
    n: nat,
)
    requires
        current_key(lanes, cursors, l) is Some,
        n <= lanes.len(),
    ensures
        remaining(lanes, advance(cursors, l), n) + (if l < n {
            1nat
        } else {
            0nat
        }) == remaining(lanes, cursors, n),
    decreases n,
{
    if n > 0 {
        lemma_advance_remaining(lanes, cursors, l, (n - 1) as nat);
    }
}

/// At most one lane is selected.
pub proof fn lemma_selected_unique(lanes: Seq<Seq<ChunkView>>, cursors: Seq<nat>, a: int, b: int)
    requires
        is_selected(lanes, cursors, a),
        is_selected(lanes, cursors, b),
    ensures
        a == b,
{
    assert(yields_to(lanes, cursors, a, b));
    assert(yields_to(lanes, cursors, b, a));
}

/// Among the first `n` lanes one is best as soon as one has a key.
pub proof fn lemma_best_exists(lanes: Seq<Seq<ChunkView>>, cursors: Seq<nat>, n: int)
    requires
        0 <= n <= lanes.len(),
    ensures
        (exists|m: int| 0 <= m < n && (#[trigger] current_key(lanes, cursors, m)) is Some) ==> exists|l: int|
            is_best_among(lanes, cursors, n, l),
        (forall|m: int| 0 <= m < n ==> (#[trigger] current_key(lanes, cursors, m)) is None) ==> forall|l: int|
            !is_best_among(lanes, cursors, n, l),
    decreases n,
{
    if n > 0 {
        lemma_best_exists(lanes, cursors, n - 1);
        let last = n - 1;
        if exists|m: int| 0 <= m < last && (#[trigger] current_key(lanes, cursors, m)) is Some {
            let b = choose|l: int| is_best_among(lanes, cursors, last, l);
            let kb = current_key(lanes, cursors, b)->0;
            let kl = current_key(lanes, cursors, last);
            if kl is Some && kl->0 < kb {
                assert forall|m: int| 0 <= m < n implies #[trigger] yields_to(
                    lanes,
                    cursors,
                    last,
                    m,
                ) by {
                    if m < n - 1 {
                        assert(yields_to(lanes, cursors, b, m));
                    }
                }
                assert(is_best_among(lanes, cursors, n, last));
            } else {
                assert forall|m: int| 0 <= m < n implies #[trigger] yields_to(lanes, cursors, b, m) by {
                    if m < n - 1 {
                        assert(yields_to(lanes, cursors, b, m));
                    }
                }
                assert(is_best_among(lanes, cursors, n, b));
            }
        } else if current_key(lanes, cursors, last) is Some {
            assert forall|m: int| 0 <= m < n implies #[trigger] yields_to(
                lanes,
                cursors,
                last,
                m,
            ) by {}
            assert(is_best_among(lanes, cursors, n, last));
        }
    }
}

/// The first entry of chunk `p` of lane `l`, by which the merge orders it.
pub open spec fn key_at(lanes: Seq<Seq<ChunkView>>, l: int, p: int) -> u32 {
    lanes[l][p].entries[0]
}

/// What the merge asks of the lanes: no chunk in a chain is empty, and first
/// entries never decrease along a chain.
pub open spec fn chains_sorted(lanes: Seq<Seq<ChunkView>>) -> bool {
    &&& forall|l: int, p: int|
        0 <= l < lanes.len() && 0 <= p < lanes[l].len() ==> (#[trigger] lanes[l][p]).entries.len()
            > 0
    &&& forall|l: int, p: int, q: int|
        0 <= l < lanes.len() && 0 <= p <= q < lanes[l].len() ==> #[trigger] key_at(lanes, l, p)
            <= #[trigger] key_at(lanes, l, q)
}

/// Chunk `a` may come before chunk `b`: its key is smaller, or the keys are
/// equal and its lane is not the higher one. Each is a lane and a place in
/// the lane's chain.
pub open spec fn precedes(lanes: Seq<Seq<ChunkView>>, a: (int, int), b: (int, int)) -> bool {
    let ka = key_at(lanes, a.0, a.1);
    let kb = key_at(lanes, b.0, b.1);
    ka < kb || (ka == kb && a.0 <= b.0)
}

/// The places of the chunks that an order takes from lane `l`, in the order
/// in which it takes them.
pub open spec fn lane_picks(order: Seq<(int, int)>, l: int) -> Seq<int>
    decreases order.len(),
{
    if order.len() == 0 {
        Seq::empty()
    } else if order[0].0 == l {
        seq![order[0].1] + lane_picks(order.skip(1), l)
    } else {
        lane_picks(order.skip(1), l)
    }
}

/// Each cursor is within its chain or at its end.
pub open spec fn cursors_within(lanes: Seq<Seq<ChunkView>>, cursors: Seq<nat>) -> bool {
    &&& cursors.len() == lanes.len()
    &&& forall|l: int| 0 <= l < lanes.len() ==> #[trigger] cursors[l] <= lanes[l].len()
}

/// An order that is sorted by key and then by lane, and that takes from each
/// lane every chunk from its cursor on, once and in chain order.
pub open spec fn sorted_and_complete(
    lanes: Seq<Seq<ChunkView>>,
    cursors: Seq<nat>,
    order: Seq<(int, int)>,
) -> bool {
    &&& forall|i: int|
        0 <= i < order.len() ==> 0 <= (#[trigger] order[i]).0 < lanes.len() && cursors[order[i].0]
            <= order[i].1 < lanes[order[i].0].len()
    &&& forall|i: int, j: int|
        0 <= i < j < order.len() ==> precedes(lanes, #[trigger] order[i], #[trigger] order[j])
    &&& forall|l: int|
        0 <= l < lanes.len() ==> #[trigger] lane_picks(order, l) == Seq::new(
            (lanes[l].len() - cursors[l]) as nat,
            |k: int| cursors[l] + k,
        )
}

/// From any cursors, the merge of sorted chains is sorted and complete.
pub proof fn lemma_merge_from(lanes: Seq<Seq<ChunkView>>, cursors: Seq<nat>)
    requires
        chains_sorted(lanes),
        cursors_within(lanes, cursors),
    ensures
        sorted_and_complete(lanes, cursors, merge_from(lanes, cursors)),
    decreases remaining(lanes, cursors, lanes.len()),
{
    let order = merge_from(lanes, cursors);
    if exists|l: int| is_selected(lanes, cursors, l) {
        let s = choose|l: int| is_selected(lanes, cursors, l);
        let c = cursors[s] as int;
        let next = advance(cursors, s);
        let rest = merge_from(lanes, next);
        lemma_advance_remaining(lanes, cursors, s, lanes.len());
        lemma_merge_from(lanes, next);
        assert(order == seq![(s, c)] + rest);
        assert(order.skip(1) =~= rest);
        assert forall|i: int| 0 <= i < order.len() implies 0 <= (#[trigger] order[i]).0
            < lanes.len() && cursors[order[i].0] <= order[i].1 < lanes[order[i].0].len() by {
            if i > 0 {
                assert(order[i] == rest[i - 1]);
            }
        }
        assert forall|i: int, j: int| 0 <= i < j < order.len() implies precedes(
            lanes,
            #[trigger] order[i],
            #[trigger] order[j],
        ) by {
            assert(order[j] == rest[j - 1]);
            if i > 0 {
                assert(order[i] == rest[i - 1]);
            } else {
                let (l, p) = order[j];
                assert(yields_to(lanes, cursors, s, l));
                assert(lanes[l][cursors[l] as int].entries.len() > 0);
                assert(key_at(lanes, l, cursors[l] as int) <= key_at(lanes, l, p));
            }
        }
        assert forall|l: int| 0 <= l < lanes.len() implies #[trigger] lane_picks(order, l)
            == Seq::new((lanes[l].len() - cursors[l]) as nat, |k: int| cursors[l] + k) by {
            let want = Seq::new((lanes[l].len() - cursors[l]) as nat, |k: int| cursors[l] + k);
            let had = Seq::new((lanes[l].len() - next[l]) as nat, |k: int| next[l] + k);
            assert(lane_picks(rest, l) == had);
            if l == s {
                assert(seq![c] + had =~= want);
            } else {
                assert(had =~= want);
            }
        }
    } else {
        assert forall|l: int| 0 <= l < lanes.len() implies #[trigger] lane_picks(order, l)
            == Seq::new((lanes[l].len() - cursors[l]) as nat, |k: int| cursors[l] + k) by {
            if cursors[l] < lanes[l].len() {
                assert(lanes[l][cursors[l] as int].entries.len() > 0);
                assert(current_key(lanes, cursors, l) is Some);
                lemma_best_exists(lanes, cursors, lanes.len() as int);
                let b = choose|b: int| is_best_among(lanes, cursors, lanes.len() as int, b);
                assert(is_selected(lanes, cursors, b));
            }
            assert(lane_picks(order, l) =~= Seq::new(
                (lanes[l].len() - cursors[l]) as nat,
                |k: int| cursors[l] + k,
            ));
        }
    }
}

/// The merge of sorted chains is one sequence of chunks sorted by first
/// entry, equal first entries in ascending lane order, and it takes every
/// chunk of every lane once, those of one lane in chain order.
pub proof fn lemma_merge_sorted_and_complete(lanes: Seq<Seq<ChunkView>>)
    requires
        chains_sorted(lanes),
    ensures
        ({
            let order = merge_order(lanes);
            &&& forall|i: int|
                0 <= i < order.len() ==> 0 <= (#[trigger] order[i]).0 < lanes.len() && 0
                    <= order[i].1 < lanes[order[i].0].len()
            &&& forall|i: int, j: int|
                0 <= i < j < order.len() ==> precedes(lanes, #[trigger] order[i], #[trigger] order[j])
            &&& forall|l: int|
                0 <= l < lanes.len() ==> #[trigger] lane_picks(order, l) == Seq::new(
                    lanes[l].len(),
                    |k: int| k,
                )
        }),
{
    let zeros = Seq::new(lanes.len(), |l: int| 0nat);
    lemma_merge_from(lanes, zeros);
    let order = merge_order(lanes);
    assert forall|l: int| 0 <= l < lanes.len() implies #[trigger] lane_picks(order, l)
        == Seq::new(lanes[l].len(), |k: int| k) by {
        assert(Seq::new((lanes[l].len() - zeros[l]) as nat, |k: int| zeros[l] + k) =~= Seq::new(
            lanes[l].len(),
            |k: int| k,
        ));
    }
}

/// One chunk of a lane's chain: its byte offset in the bin buffer and its
/// entries.
#[derive(Clone, Debug)]
pub struct Chunk {
    pub offset: usize,
    pub entries: Vec<u32>,
}

impl View for Chunk {
    type V = ChunkView;

    open spec fn view(&self) -> ChunkView {
        ChunkView { offset: self.offset as nat, entries: self.entries@ }
    }
}

/// A chunk by its lane and its place in the lane's chain.
#[derive(Clone, Copy, Debug, PartialEq, Eq, Structural)]
pub struct Selection {
    pub lane: usize,
    pub index: usize,
}

/// A chunk as the merge emits it: the lane it came from, its byte offset in
/// the bin buffer and its entries.
#[derive(Clone, Debug)]
pub struct MergedChunk {
    pub lane: usize,
    pub offset: usize,
    pub entries: Vec<u32>,
}

/// What a merged chunk holds.
pub struct MergedView {
    pub lane: nat,
    pub offset: nat,
    pub entries: Seq<u32>,
}

impl View for MergedChunk {
    type V = MergedView;

    open spec fn view(&self) -> MergedView {
        MergedView { lane: self.lane as nat, offset: self.offset as nat, entries: self.entries@ }
    }
}

/// The chains of a vector of lanes.
pub open spec fn lanes_view(lanes: Seq<Vec<Chunk>>) -> Seq<Seq<ChunkView>> {
    Seq::new(lanes.len(), |l: int| Seq::new(lanes[l]@.len(), |p: int| lanes[l]@[p]@))
}

/// The chunks of a chain.
pub open spec fn chunks_view(chunks: Seq<Chunk>) -> Seq<ChunkView> {
    Seq::new(chunks.len(), |p: int| chunks[p]@)
}

pub open spec fn cursors_view(cursors: Seq<usize>) -> Seq<nat> {
    Seq::new(cursors.len(), |l: int| cursors[l] as nat)
}

pub open spec fn selections_view(order: Seq<Selection>) -> Seq<(int, int)> {
    Seq::new(order.len(), |i: int| (order[i].lane as int, order[i].index as int))
}

pub open spec fn merged_view(chunks: Seq<MergedChunk>) -> Seq<MergedView> {
    Seq::new(chunks.len(), |i: int| chunks[i]@)
}

/// The chunks that an order names, each with the lane it came from.
pub open spec fn output_of(lanes: Seq<Seq<ChunkView>>, order: Seq<(int, int)>) -> Seq<MergedView> {
    Seq::new(
        order.len(),
        |i: int|
            MergedView {
                lane: order[i].0 as nat,
                offset: lanes[order[i].0][order[i].1].offset,
                entries: lanes[order[i].0][order[i].1].entries,
            },
    )
}

/// The chunks of the lanes in merge order, each with the lane it came from.
pub open spec fn merge_output(lanes: Seq<Seq<ChunkView>>) -> Seq<MergedView> {
    output_of(lanes, merge_order(lanes))
}

/// The entries of a run of merged chunks, one chunk after the other.
pub open spec fn merged_entries(chunks: Seq<MergedView>) -> Seq<u32>
    decreases chunks.len(),
{
    if chunks.len() == 0 {
        Seq::empty()
    } else {
        merged_entries(chunks.drop_last()) + chunks.last().entries
    }
}

/// Picks the lane to take the next chunk from: none when every lane is
/// exhausted.
fn select_lane(lanes: &Vec<Vec<Chunk>>, cursors: &Vec<usize>) -> (r: Option<usize>)
    requires
        cursors@.len() == lanes@.len(),
    ensures
        match r {
            Some(l) => is_selected(lanes_view(lanes@), cursors_view(cursors@), l as int),
            None => forall|l: int| !is_selected(lanes_view(lanes@), cursors_view(cursors@), l),
        },
{
    let ghost lv = lanes_view(lanes@);
    let ghost cv = cursors_view(cursors@);
    let mut best: Option<(usize, u32)> = None;
    let mut l: usize = 0;
    while l < lanes.len()
        invariant
            l <= lanes.len(),
            cursors@.len() == lanes@.len(),
            lv == lanes_view(lanes@),
            cv == cursors_view(cursors@),
            match best {
                Some((b, key)) => is_best_among(lv, cv, l as int, b as int) && current_key(
                    lv,
                    cv,
                    b as int,
                ) == Some(key),
                None => forall|m: int| 0 <= m < l ==> (#[trigger] current_key(lv, cv, m)) is None,
            },
        decreases lanes.len() - l,
    {
        let c: usize = cursors[l];
        let lane = &lanes[l];
        let mut key: Option<u32> = None;
        if c < lane.len() {
            let chunk = &lane[c];
            if chunk.entries.len() > 0 {
                key = Some(chunk.entries[0]);
            }
        }
        assert(key == current_key(lv, cv, l as int));
        match key {
            Some(k) => {
                match best {
                    Some((b, kb)) => {
                        if k < kb {
                            proof {
                                assert forall|m: int| 0 <= m < l + 1 implies #[trigger] yields_to(
                                    lv,
                                    cv,
                                    l as int,
                                    m,
                                ) by {
                                    if m < l {
                                        assert(yields_to(lv, cv, b as int, m));
                                    }
                                }
                            }
                            best = Some((l, k));
                        } else {
                            proof {
                                assert forall|m: int| 0 <= m < l + 1 implies #[trigger] yields_to(
                                    lv,
                                    cv,
                                    b as int,
                                    m,
                                ) by {
                                    if m < l {
                                        assert(yields_to(lv, cv, b as int, m));
                                    }
                                }
                            }
                        }
                    },
                    None => {
                        proof {
                            assert forall|m: int| 0 <= m < l + 1 implies #[trigger] yields_to(
                                lv,
                                cv,
                                l as int,
                                m,
                            ) by {}
                        }
                        best = Some((l, k));
                    },
                }
            },
            None => {
                proof {
                    match best {
                        Some((b, kb)) => {
                            assert forall|m: int| 0 <= m < l + 1 implies #[trigger] yields_to(
                                lv,
                                cv,
                                b as int,
                                m,
                            ) by {
                                if m < l {
                                    assert(yields_to(lv, cv, b as int, m));
                                }
                            }
                        },
                        None => {},
                    }
                }
            },
        }
        l = l + 1;
    }
    match best {
        Some((b, _)) => Some(b),
        None => {
            proof {
                lemma_best_exists(lv, cv, lv.len() as int);
            }
            None
        },
    }
}

/// Merges the chains of a set of lanes: while a lane has a chunk left that is
/// not empty, takes the whole current chunk of the lane with the least first
/// entry, the lowest such lane first. Returns the chunks in the order taken.
pub fn merge_lanes(lanes: &Vec<Vec<Chunk>>) -> (order: Vec<Selection>)
    ensures
        selections_view(order@) == merge_order(lanes_view(lanes@)),
        forall|i: int|
            0 <= i < order@.len() ==> (#[trigger] order@[i]).lane < lanes@.len() && order@[i].index
                < lanes@[order@[i].lane as int]@.len(),
{
    let ghost lv = lanes_view(lanes@);
    let mut cursors: Vec<usize> = Vec::new();
    let mut n: usize = 0;
    while n < lanes.len()
        invariant
            n <= lanes.len(),
            cursors@.len() == n,
            forall|l: int| 0 <= l < n ==> cursors@[l] == 0,
        decreases lanes.len() - n,
    {
        cursors.push(0);
        n = n + 1;
    }
    assert(cursors_view(cursors@) =~= Seq::new(lv.len(), |l: int| 0nat));
    let mut order: Vec<Selection> = Vec::new();
    let mut done = false;
    assert(selections_view(order@) + merge_from(lv, cursors_view(cursors@)) =~= merge_order(lv));
    while !done
        invariant
            lv == lanes_view(lanes@),
            cursors@.len() == lanes@.len(),
            forall|l: int| 0 <= l < lanes@.len() ==> #[trigger] cursors@[l] <= lanes@[l]@.len(),
            selections_view(order@) + merge_from(lv, cursors_view(cursors@)) == merge_order(lv),
            done ==> merge_from(lv, cursors_view(cursors@)) == Seq::<(int, int)>::empty(),
            forall|i: int|
                0 <= i < order@.len() ==> (#[trigger] order@[i]).lane < lanes@.len()
                    && order@[i].index < lanes@[order@[i].lane as int]@.len(),
        decreases
                (if done {
                    0
                } else {
                    remaining(lv, cursors_view(cursors@), lv.len()) + 1
                }),
    {
        let ghost cv = cursors_view(cursors@);
        match select_lane(lanes, &cursors) {
            None => {
                done = true;
            },
            Some(l) => {
                let c: usize = cursors[l];
                let len: usize = lanes[l].len();
                assert(current_key(lv, cv, l as int) is Some);
                assert(c < len);
                proof {
                    let chosen = choose|s: int| is_selected(lv, cv, s);
                    lemma_selected_unique(lv, cv, chosen, l as int);
                    lemma_advance_remaining(lv, cv, l as int, lv.len());
                }
                cursors.set(l, c + 1);
                order.push(Selection { lane: l, index: c });
                proof {
                    let cv2 = cursors_view(cursors@);
                    assert(cv2 =~= advance(cv, l as int));
                    assert(merge_from(lv, cv) == seq![(l as int, c as int)] + merge_from(lv, cv2));
                    assert(selections_view(order@) + merge_from(lv, cv2) =~= selections_view(
                        order@.drop_last(),
                    ) + merge_from(lv, cv));
                }
            },
        }
    }
    assert(selections_view(order@) + Seq::<(int, int)>::empty() =~= selections_view(order@));
    order
}

/// The byte offset of the first chunk of a lane of a bin.
pub open spec fn lane_offset(bin: nat, lane: nat) -> nat {
    ((bin * N_LANES + lane) * LANE_STRIDE) as nat
}

/// A result with a run of chunks put before what it holds.
pub open spec fn chain_after(
    front: Seq<ChunkView>,
    rest: Result<Seq<ChunkView>, DecodeError>,
) -> Result<Seq<ChunkView>, DecodeError> {
    match rest {
        Ok(chunks) => Ok(front + chunks),
        Err(e) => Err(e),
    }
}

/// The chain that starts at a byte offset, following at most `fuel` links.
///
/// The chunk's first word is at word `offset / 4`. A count of zero ends the
/// chain without a chunk; a successor offset of zero ends it after the
/// chunk. A chunk that the buffer does not hold whole is truncated, and a
/// chain that is still going after `fuel` links is a cycle.
pub open spec fn chain_from(buf: Seq<u32>, offset: nat, fuel: nat) -> Result<
    Seq<ChunkView>,
    DecodeError,
>
    decreases fuel,
{
    let w = (offset / 4) as int;
    if w >= buf.len() {
        Err(DecodeError::Truncated)
    } else if buf[w] == 0 {
        Ok(Seq::empty())
    } else if w + 2 + buf[w] > buf.len() {
        Err(DecodeError::Truncated)
    } else {
        let chunk = ChunkView { offset, entries: buf.subrange(w + 2, w + 2 + buf[w]) };
        if buf[w + 1] == 0 {
            Ok(seq![chunk])
        } else if fuel == 0 {
            Err(DecodeError::Cycle)
        } else {
            chain_after(seq![chunk], chain_from(buf, buf[w + 1] as nat, (fuel - 1) as nat))
        }
    }
}

/// The chain that starts at a byte offset. A chain of distinct chunks has
/// fewer links than the buffer has words, so one that follows more is a
/// cycle.
pub open spec fn chain(buf: Seq<u32>, offset: nat) -> Result<Seq<ChunkView>, DecodeError> {
    chain_from(buf, offset, buf.len())
}

/// The chains of the first `n` lanes of a bin, or the error of the first
/// lane among them whose chain cannot be read.
pub open spec fn lanes_upto(buf: Seq<u32>, bin: nat, n: nat) -> Result<
    Seq<Seq<ChunkView>>,
    DecodeError,
>
    decreases n,
{
    if n == 0 {
        Ok(Seq::empty())
    } else {
        match lanes_upto(buf, bin, (n - 1) as nat) {
            Err(e) => Err(e),
            Ok(lanes) => match chain(buf, lane_offset(bin, (n - 1) as nat)) {
                Err(e) => Err(e),
                Ok(chunks) => Ok(lanes.push(chunks)),
            },
        }
    }
}

/// The chains of all the lanes of a bin.
pub open spec fn bin_lanes(buf: Seq<u32>, bin: nat) -> Result<Seq<Seq<ChunkView>>, DecodeError> {
    lanes_upto(buf, bin, N_LANES as nat)
}

/// The merged chunks of a bin.
pub open spec fn bin_merged(buf: Seq<u32>, bin: nat) -> Result<Seq<MergedView>, DecodeError> {
    match bin_lanes(buf, bin) {
        Ok(lanes) => Ok(merge_output(lanes)),
        Err(e) => Err(e),
    }
}

/// What a merge result holds.
pub open spec fn result_view(r: Result<Vec<MergedChunk>, DecodeError>) -> Result<
    Seq<MergedView>,
    DecodeError,
> {
    match r {
        Ok(chunks) => Ok(merged_view(chunks@)),
        Err(e) => Err(e),
    }
}

/// Once a lane fails, so does every longer run of lanes, with the same error.
pub proof fn lemma_lanes_upto_error(buf: Seq<u32>, bin: nat, n: nat, m: nat)
    requires
        n <= m,
        lanes_upto(buf, bin, n) is Err,
    ensures
        lanes_upto(buf, bin, m) == lanes_upto(buf, bin, n),
    decreases m,
{
    if n < m {
        lemma_lanes_upto_error(buf, bin, n, (m - 1) as nat);
    }
}

/// Reads the chain of chunks that starts at a byte offset of the bin buffer.
pub fn read_chain(buf: &[u32], offset: usize) -> (r: Result<Vec<Chunk>, DecodeError>)
    ensures
        match r {
            Ok(chunks) => chain(buf@, offset as nat) == Ok::<Seq<ChunkView>, DecodeError>(
                chunks_view(chunks@),
            ),
            Err(e) => chain(buf@, offset as nat) == Err::<Seq<ChunkView>, DecodeError>(e),
        },
{
    let mut chunks: Vec<Chunk> = Vec::new();
    let mut at: usize = offset;
    let mut fuel: usize = buf.len();
    assert(chain_after(chunks_view(chunks@), chain_from(buf@, at as nat, fuel as nat)) == chain(
        buf@,
        offset as nat,
    )) by {
        let rest = chain_from(buf@, at as nat, fuel as nat);
        if rest is Ok {
            assert(chunks_view(chunks@) + rest->Ok_0 =~= rest->Ok_0);
        }
    }
    loop
        invariant
            chain_after(chunks_view(chunks@), chain_from(buf@, at as nat, fuel as nat)) == chain(
                buf@,
                offset as nat,
            ),
        decreases fuel,
    {
        let ghost front = chunks_view(chunks@);
        let w: usize = at / 4;
        if w >= buf.len() {
            return Err(DecodeError::Truncated);
        }
        let count: usize = buf[w] as usize;
        if count == 0 {
            assert(front + Seq::<ChunkView>::empty() =~= front);
            return Ok(chunks);
        }
        if buf.len() - w < 2 || count > buf.len() - w - 2 {
            return Err(DecodeError::Truncated);
        }
        let next: u32 = buf[w + 1];
        let entries = vstd::slice::slice_to_vec(
            vstd::slice::slice_subrange(buf, w + 2, w + 2 + count),
        );
        chunks.push(Chunk { offset: at, entries });
        let ghost chunk = ChunkView {
            offset: at as nat,
            entries: buf@.subrange(w + 2, w + 2 + count),
        };
        assert(chunks_view(chunks@) =~= front + seq![chunk]);
        if next == 0 {
            return Ok(chunks);
        }
        if fuel == 0 {
            return Err(DecodeError::Cycle);
        }
        proof {
            let rest = chain_from(buf@, next as nat, (fuel - 1) as nat);
            if rest is Ok {
                assert((front + seq![chunk]) + rest->Ok_0 =~= front + (seq![chunk] + rest->Ok_0));
            }
        }
        fuel = fuel - 1;
        at = next as usize;
    }
}

/// Reads the chains of the sixteen lanes of a bin.
pub fn read_lanes(buf: &[u32], bin: usize) -> (r: Result<Vec<Vec<Chunk>>, DecodeError>)
    requires
        bin < N_BINS,
    ensures
        match r {
            Ok(lanes) => bin_lanes(buf@, bin as nat) == Ok::<Seq<Seq<ChunkView>>, DecodeError>(
                lanes_view(lanes@),
            ),
            Err(e) => bin_lanes(buf@, bin as nat) == Err::<Seq<Seq<ChunkView>>, DecodeError>(e),
        },
{
    let mut lanes: Vec<Vec<Chunk>> = Vec::new();
    let mut lane: usize = 0;
    assert(lanes_view(lanes@) =~= Seq::<Seq<ChunkView>>::empty());
    while lane < N_LANES
        invariant
            lane <= N_LANES,
            bin < N_BINS,
            lanes_upto(buf@, bin as nat, lane as nat) == Ok::<Seq<Seq<ChunkView>>, DecodeError>(
                lanes_view(lanes@),
            ),
        decreases N_LANES - lane,
    {
        let ghost before = lanes_view(lanes@);
        match read_chain(buf, (bin * N_LANES + lane) * LANE_STRIDE) {
            Ok(chunks) => {
                lanes.push(chunks);
                assert(lanes_view(lanes@) =~= before.push(chunks_view(chunks@)));
            },
            Err(e) => {
                proof {
                    assert(lanes_upto(buf@, bin as nat, (lane + 1) as nat) is Err);
                    lemma_lanes_upto_error(buf@, bin as nat, (lane + 1) as nat, N_LANES as nat);
                }
                return Err(e);
            },
        }
        lane = lane + 1;
    }
    Ok(lanes)
}

/// Merges one bin of the bin buffer: reads the chains of its lanes and
/// returns their chunks in merge order.
pub fn merge_bin(buf: &[u32], bin: usize) -> (r: Result<Vec<MergedChunk>, DecodeError>)
    requires
        bin < N_BINS,
    ensures
        result_view(r) == bin_merged(buf@, bin as nat),
{
    let lanes = match read_lanes(buf, bin) {
        Ok(lanes) => lanes,
        Err(e) => {
            return Err(e);
        },
    };
    let order = merge_lanes(&lanes);
    let ghost lv = lanes_view(lanes@);
    let mut out: Vec<MergedChunk> = Vec::new();
    let mut i: usize = 0;
    while i < order.len()
        invariant
            i <= order.len(),
            lv == lanes_view(lanes@),
            selections_view(order@) == merge_order(lv),
            forall|k: int|
                0 <= k < order@.len() ==> (#[trigger] order@[k]).lane < lanes@.len()
                    && order@[k].index < lanes@[order@[k].lane as int]@.len(),
            out@.len() == i,
            forall|k: int| 0 <= k < i ==> (#[trigger] out@[k])@ == merge_output(lv)[k],
        decreases order.len() - i,
    {
        let pick = order[i];
        let chunk = &lanes[pick.lane][pick.index];
        let entries = vstd::slice::slice_to_vec(chunk.entries.as_slice());
        assert(selections_view(order@)[i as int] == (pick.lane as int, pick.index as int));
        out.push(MergedChunk { lane: pick.lane, offset: chunk.offset, entries });
        i = i + 1;
    }
    assert(selections_view(order@).len() == order@.len());
    assert(merged_view(out@) =~= merge_output(lv));
    Ok(out)
}

/// Merges every bin of the bin buffer. Item `bin` of the result is the
/// merge of that bin, or the reason why its chains could not be read.
pub fn trace_merge(buf: &[u32]) -> (r: Vec<Result<Vec<MergedChunk>, DecodeError>>)
    ensures
        r@.len() == N_BINS,
        forall|bin: int|
            0 <= bin < N_BINS ==> result_view(#[trigger] r@[bin]) == bin_merged(buf@, bin as nat),
{
    let mut out: Vec<Result<Vec<MergedChunk>, DecodeError>> = Vec::new();
    let mut bin: usize = 0;
    while bin < N_BINS
        invariant
            bin <= N_BINS,
            out@.len() == bin,
            forall|b: int|
                0 <= b < bin ==> result_view(#[trigger] out@[b]) == bin_merged(buf@, b as nat),
        decreases N_BINS - bin,
    {
        let merged = merge_bin(buf, bin);
        out.push(merged);
        bin = bin + 1;
    }
    out
}

/// The entries of a run of merged chunks, one chunk after the other: the
/// order in which the bin's commands are to be executed.
pub fn flatten(chunks: &Vec<MergedChunk>) -> (r: Vec<u32>)
    ensures
        r@ == merged_entries(merged_view(chunks@)),
{
    let mut out: Vec<u32> = Vec::new();
    let mut i: usize = 0;
    let ghost views = merged_view(chunks@);
    while i < chunks.len()
        invariant
            i <= chunks.len(),
            views == merged_view(chunks@),
            out@ == merged_entries(views.take(i as int)),
        decreases chunks.len() - i,
    {
        let chunk = &chunks[i];
        proof {
            let next = views.take(i + 1);
            assert(next.drop_last() =~= views.take(i as int));
            assert(next.last().entries == chunk.entries@);
        }
        let mut k: usize = 0;
        let ghost before = out@;
        while k < chunk.entries.len()
            invariant
                k <= chunk.entries.len(),
                out@ == before + chunk.entries@.take(k as int),
            decreases chunk.entries.len() - k,
        {
            out.push(chunk.entries[k]);
            assert(before + chunk.entries@.take(k + 1) =~= (before + chunk.entries@.take(
                k as int,
            )).push(chunk.entries@[k as int]));
            k = k + 1;
        }
        assert(chunk.entries@.take(chunk.entries@.len() as int) =~= chunk.entries@);
        i = i + 1;
    }
    assert(views.take(chunks@.len() as int) =~= views);
    out
}

/// Merging the same buffer again gives the same chunks: two results that
/// are each the merge of one bin of one buffer hold the same.
pub proof fn lemma_merge_repeatable(
    buf: Seq<u32>,
    bin: nat,
    first: Result<Vec<MergedChunk>, DecodeError>,
    second: Result<Vec<MergedChunk>, DecodeError>,
)
    requires
        result_view(first) == bin_merged(buf, bin),
        result_view(second) == bin_merged(buf, bin),
    ensures
        result_view(first) == result_view(second),
{
}

/// Lanes without chunks merge to nothing.
pub proof fn lemma_merge_of_empty_lanes(lanes: Seq<Seq<ChunkView>>)
    requires
        forall|l: int| 0 <= l < lanes.len() ==> (#[trigger] lanes[l]).len() == 0,
    ensures
        merge_order(lanes) == Seq::<(int, int)>::empty(),
        merge_output(lanes) == Seq::<MergedView>::empty(),
{
    let zeros = Seq::new(lanes.len(), |l: int| 0nat);
    lemma_best_exists(lanes, zeros, lanes.len() as int);
    assert(merge_output(lanes) =~= Seq::<MergedView>::empty());
}

/// A bin in which no lane has written anything merges to nothing, and
/// without an error: where the first chunk of each lane of the bin lies in
/// the buffer and has a count of zero, the merge of the bin is empty.
pub proof fn lemma_empty_bin(buf: Seq<u32>, bin: nat)
    requires
        forall|lane: nat|
            lane < N_LANES ==> lane_offset(bin, lane) / 4 < buf.len() && buf[(#[trigger] lane_offset(
                bin,
                lane,
            ) / 4) as int] == 0,
    ensures
        bin_merged(buf, bin) == Ok::<Seq<MergedView>, DecodeError>(Seq::empty()),
{
    lemma_empty_lanes_upto(buf, bin, N_LANES as nat);
    let lanes = bin_lanes(buf, bin)->Ok_0;
    lemma_merge_of_empty_lanes(lanes);
}

proof fn lemma_empty_lanes_upto(buf: Seq<u32>, bin: nat, n: nat)
    requires
        n <= N_LANES,
        forall|lane: nat|
            lane < N_LANES ==> lane_offset(bin, lane) / 4 < buf.len() && buf[(#[trigger] lane_offset(
                bin,
                lane,
            ) / 4) as int] == 0,
    ensures
        lanes_upto(buf, bin, n) is Ok,
        lanes_upto(buf, bin, n)->Ok_0.len() == n,
        forall|l: int| 0 <= l < n ==> (#[trigger] lanes_upto(buf, bin, n)->Ok_0[l]).len() == 0,
    decreases n,
{
    if n > 0 {
        lemma_empty_lanes_upto(buf, bin, (n - 1) as nat);
        let lane = (n - 1) as nat;
        assert(lane_offset(bin, lane) / 4 < buf.len());
        assert(chain(buf, lane_offset(bin, lane)) == Ok::<Seq<ChunkView>, DecodeError>(Seq::empty()));
    }
}

/// The entries of the chunks of a chain from a place on, each as often as it
/// occurs.
pub open spec fn chain_entries(chain: Seq<ChunkView>, from: nat) -> Multiset<u32>
    decreases chain.len() - from,
{
    if from >= chain.len() {
        Multiset::empty()
    } else {
        chain[from as int].entries.to_multiset().add(chain_entries(chain, from + 1))
    }
}

/// The entries that the first `n` lanes hold from their cursors on, each as
/// often as it occurs.
pub open spec fn lanes_entries(lanes: Seq<Seq<ChunkView>>, cursors: Seq<nat>, n: nat) -> Multiset<
    u32,
>
    decreases n,
{
    if n == 0 {
        Multiset::empty()
    } else {
        lanes_entries(lanes, cursors, (n - 1) as nat).add(
            chain_entries(lanes[n - 1], cursors[n - 1]),
        )
    }
}

/// All the entries of the lanes, each as often as it occurs.
pub open spec fn all_entries(lanes: Seq<Seq<ChunkView>>) -> Multiset<u32> {
    lanes_entries(lanes, Seq::new(lanes.len(), |l: int| 0nat), lanes.len())
}

/// The entries of two runs of chunks are those of the first and then those of
/// the second.
pub proof fn lemma_entries_concat(a: Seq<MergedView>, b: Seq<MergedView>)
    ensures
        merged_entries(a + b) == merged_entries(a) + merged_entries(b),
    decreases b.len(),
{
    if b.len() == 0 {
        assert(a + b =~= a);
        assert(merged_entries(a) + merged_entries(b) =~= merged_entries(a));
    } else {
        lemma_entries_concat(a, b.drop_last());
        assert((a + b).drop_last() =~= a + b.drop_last());
        assert(merged_entries(a + b) =~= merged_entries(a) + merged_entries(b));
    }
}

/// The lane that gives up its current chunk gives up the entries of that
/// chunk, and no lane anything else.
proof fn lemma_advance_entries(lanes: Seq<Seq<ChunkView>>, cursors: Seq<nat>, s: int, n: nat)
    requires
        cursors.len() == lanes.len(),
        0 <= s < lanes.len(),
        cursors[s] < lanes[s].len(),
        n <= lanes.len(),
    ensures
        lanes_entries(lanes, cursors, n) =~= if s < n {
            lanes[s][cursors[s] as int].entries.to_multiset().add(
                lanes_entries(lanes, advance(cursors, s), n),
            )
        } else {
            lanes_entries(lanes, advance(cursors, s), n)
        },
    decreases n,
{
    if n > 0 {
        lemma_advance_entries(lanes, cursors, s, (n - 1) as nat);
    }
}

/// From any cursors, the merge of sorted chains emits the entries that the
/// lanes hold from their cursors on, each as often as it occurs there.
pub proof fn lemma_merge_from_entries(lanes: Seq<Seq<ChunkView>>, cursors: Seq<nat>)
    requires
        chains_sorted(lanes),
        cursors_within(lanes, cursors),
    ensures
        merged_entries(output_of(lanes, merge_from(lanes, cursors))).to_multiset()
            =~= lanes_entries(lanes, cursors, lanes.len()),
    decreases remaining(lanes, cursors, lanes.len()),
{
    let order = merge_from(lanes, cursors);
    if exists|l: int| is_selected(lanes, cursors, l) {
        let s = choose|l: int| is_selected(lanes, cursors, l);
        let c = cursors[s] as int;
        let next = advance(cursors, s);
        let rest = merge_from(lanes, next);
        lemma_advance_remaining(lanes, cursors, s, lanes.len());
        lemma_merge_from_entries(lanes, next);
        lemma_advance_entries(lanes, cursors, s, lanes.len());
        let first = seq![(s, c)];
        assert(order == first + rest);
        assert(output_of(lanes, order) =~= output_of(lanes, first) + output_of(lanes, rest));
        lemma_entries_concat(output_of(lanes, first), output_of(lanes, rest));
        let chunk = lanes[s][c].entries;
        assert(merged_entries(output_of(lanes, first)) =~= chunk) by {
            assert(output_of(lanes, first).drop_last() =~= Seq::<MergedView>::empty());
            assert(merged_entries(Seq::<MergedView>::empty()) =~= Seq::<u32>::empty());
        }
        lemma_multiset_commutative(chunk, merged_entries(output_of(lanes, rest)));
        assert(merged_entries(output_of(lanes, order)) == chunk + merged_entries(
            output_of(lanes, rest),
        ));
    } else {
        assert(output_of(lanes, order) =~= Seq::<MergedView>::empty());
        lemma_no_entries_left(lanes, cursors, lanes.len());
        let none = merged_entries(output_of(lanes, order));
        assert(none =~= Seq::<u32>::empty());
        none.to_multiset_ensures();
        vstd::multiset::lemma_multiset_empty_len(none.to_multiset());
    }
}

/// When no lane is selected, the lanes of sorted chains hold nothing from
/// their cursors on.
proof fn lemma_no_entries_left(lanes: Seq<Seq<ChunkView>>, cursors: Seq<nat>, n: nat)
    requires
        chains_sorted(lanes),
        cursors_within(lanes, cursors),
        n <= lanes.len(),
        forall|l: int| !is_selected(lanes, cursors, l),
    ensures
        lanes_entries(lanes, cursors, n) =~= Multiset::<u32>::empty(),
    decreases n,
{
    if n > 0 {
        lemma_no_entries_left(lanes, cursors, (n - 1) as nat);
        let l = n - 1;
        if cursors[l] < lanes[l].len() {
            assert(lanes[l][cursors[l] as int].entries.len() > 0);
            assert(current_key(lanes, cursors, l) is Some);
            lemma_best_exists(lanes, cursors, lanes.len() as int);
            let b = choose|b: int| is_best_among(lanes, cursors, lanes.len() as int, b);
            assert(is_selected(lanes, cursors, b));
        }
    }
}

/// The merge of sorted chains emits every entry of every lane exactly as
/// often as the lanes hold it.
pub proof fn lemma_merge_keeps_entries(lanes: Seq<Seq<ChunkView>>)
    requires
        chains_sorted(lanes),
    ensures
        merged_entries(merge_output(lanes)).to_multiset() =~= all_entries(lanes),
{
    lemma_merge_from_entries(lanes, Seq::new(lanes.len(), |l: int| 0nat));
}

/// No chunk of a chain that was read from a buffer is empty: a count of zero
/// ends the chain.
pub proof fn lemma_chain_chunks_hold_entries(buf: Seq<u32>, offset: nat, fuel: nat)
    requires
        chain_from(buf, offset, fuel) is Ok,
    ensures
        forall|p: int|
            0 <= p < chain_from(buf, offset, fuel)->Ok_0.len() ==> (#[trigger] chain_from(
                buf,
                offset,
                fuel,
            )->Ok_0[p]).entries.len() > 0,
    decreases fuel,
{
    let w = (offset / 4) as int;
    if buf[w] != 0 && buf[w + 1] != 0 {
        lemma_chain_chunks_hold_entries(buf, buf[w + 1] as nat, (fuel - 1) as nat);
    }
}

/// The lanes of a bin that was read from a buffer hold no empty chunk.
pub proof fn lemma_bin_chunks_hold_entries(buf: Seq<u32>, bin: nat, n: nat)
    requires
        lanes_upto(buf, bin, n) is Ok,
    ensures
        lanes_upto(buf, bin, n)->Ok_0.len() == n,
        forall|l: int, p: int|
            0 <= l < n && 0 <= p < lanes_upto(buf, bin, n)->Ok_0[l].len() ==> (#[trigger] lanes_upto(
                buf,
                bin,
                n,
            )->Ok_0[l][p]).entries.len() > 0,
    decreases n,
{
    if n > 0 {
        lemma_bin_chunks_hold_entries(buf, bin, (n - 1) as nat);
        lemma_chain_chunks_hold_entries(buf, lane_offset(bin, (n - 1) as nat), buf.len());
    }
}

/// The merge of a bin whose chains are sorted by first entry is sorted by
/// first entry, equal first entries in ascending lane order, takes every
/// chunk of every lane once, and emits every entry as often as the lanes
/// hold it.
pub proof fn lemma_bin_merge_sorted_and_complete(buf: Seq<u32>, bin: nat)
    requires
        bin_lanes(buf, bin) is Ok,
        forall|l: int, p: int, q: int|
            0 <= l < N_LANES && 0 <= p <= q < bin_lanes(buf, bin)->Ok_0[l].len() ==> #[trigger] key_at(
                bin_lanes(buf, bin)->Ok_0,
                l,
                p,
            ) <= #[trigger] key_at(bin_lanes(buf, bin)->Ok_0, l, q),
    ensures
        ({
            let lanes = bin_lanes(buf, bin)->Ok_0;
            let order = merge_order(lanes);
            &&& lanes.len() == N_LANES
            &&& bin_merged(buf, bin) == Ok::<Seq<MergedView>, DecodeError>(output_of(lanes, order))
            &&& forall|i: int, j: int|
                0 <= i < j < order.len() ==> precedes(lanes, #[trigger] order[i], #[trigger] order[j])
            &&& forall|l: int|
                0 <= l < N_LANES ==> #[trigger] lane_picks(order, l) == Seq::new(
                    lanes[l].len(),
                    |k: int| k,
                )
            &&& merged_entries(output_of(lanes, order)).to_multiset() =~= all_entries(lanes)
        }),
{
    let lanes = bin_lanes(buf, bin)->Ok_0;
    lemma_bin_chunks_hold_entries(buf, bin, N_LANES as nat);
    assert(chains_sorted(lanes));
    lemma_merge_sorted_and_complete(lanes);
    lemma_merge_keeps_entries(lanes);
}

} // verus!
