//! The mathematical model of the arena: a heap is a sequence of 64-bit words
//! that parses, from the front, into a run of chunks.  Each chunk is one
//! header word followed by `size - 1` payload words; a non-raw chunk's
//! payload words are all cells, each holding either nothing (word `0`) or a
//! reference to the chunk starting at word `w - 1`.
//!
//! Everything here is specification-level: the predicates that contracts are
//! stated over, and the lemmas about how chunk structure survives writes and
//! extensions.

use vstd::prelude::*;
use crate::header::{decode_raw, decode_size, decode_tag};

verus! {

/// Size in words of the chunk whose header sits at `a`.
pub open spec fn csize(ws: Seq<u64>, a: int) -> int {
    decode_size(ws[a]) as int
}

/// Tag of the chunk whose header sits at `a`.
pub open spec fn ctag(ws: Seq<u64>, a: int) -> u64 {
    decode_tag(ws[a])
}

/// Raw flag of the chunk whose header sits at `a`.
pub open spec fn craw(ws: Seq<u64>, a: int) -> bool {
    decode_raw(ws[a])
}

/// The region `[from, to)` of `ws` is an exact run of chunks.
pub open spec fn parses(ws: Seq<u64>, from: int, to: int) -> bool
    decreases to - from,
{
    if from == to {
        true
    } else if from < to && 1 <= csize(ws, from) && from + csize(ws, from) <= to {
        parses(ws, from + csize(ws, from), to)
    } else {
        false
    }
}

/// `a` is the header address of one of the chunks the region `[from, to)`
/// parses into.
pub open spec fn is_start(ws: Seq<u64>, from: int, to: int, a: int) -> bool
    decreases to - from,
{
    if from < to && 1 <= csize(ws, from) && from + csize(ws, from) <= to {
        a == from || is_start(ws, from + csize(ws, from), to, a)
    } else {
        false
    }
}

/// The `i`-th cell word of the chunk at `a`.
pub open spec fn cell_word(ws: Seq<u64>, a: int, i: int) -> u64 {
    ws[a + 1 + i]
}

/// The `k`-th word of the chunk at `a`, header included.
pub open spec fn chunk_word(ws: Seq<u64>, a: int, k: int) -> u64 {
    ws[a + k]
}

/// Every non-empty cell of every non-raw chunk points at a chunk start.
pub open spec fn cells_ok(ws: Seq<u64>) -> bool {
    forall|a: int, i: int|
        is_start(ws, 0, ws.len() as int, a) && !craw(ws, a) && 0 <= i < csize(ws, a) - 1
            && #[trigger] cell_word(ws, a, i) != 0 ==> is_start(
            ws,
            0,
            ws.len() as int,
            cell_word(ws, a, i) - 1,
        )
}

/// The object graph: chunk `a` holds a cell referencing chunk `b`.
pub open spec fn edge(ws: Seq<u64>, a: int, b: int) -> bool {
    &&& is_start(ws, 0, ws.len() as int, a)
    &&& !craw(ws, a)
    &&& 0 <= b
    &&& exists|i: int| 0 <= i < csize(ws, a) - 1 && #[trigger] cell_word(ws, a, i) == b + 1
}

/// Chunk `a` lies within `k` edges of the root address set.
pub open spec fn reach_n(ws: Seq<u64>, roots: Set<int>, a: int, k: nat) -> bool
    decreases k,
{
    if k == 0 {
        roots.contains(a)
    } else {
        reach_n(ws, roots, a, (k - 1) as nat) || exists|b: int|
            reach_n(ws, roots, b, (k - 1) as nat) && edge(ws, b, a)
    }
}

/// Chunk `a` is reachable from the root address set by following cells.
pub open spec fn reachable(ws: Seq<u64>, roots: Set<int>, a: int) -> bool {
    exists|k: nat| reach_n(ws, roots, a, k)
}

/// Basic facts about a chunk start inside a parsed region: it lies in the
/// region, its chunk fits, and the region re-parses from it.
pub proof fn lemma_start_props(ws: Seq<u64>, from: int, to: int, a: int)
    requires
        is_start(ws, from, to, a),
    ensures
        from <= a < to,
        1 <= csize(ws, a),
        a + csize(ws, a) <= to,
        parses(ws, from, to) ==> parses(ws, a, to),
    decreases to - from,
{
    if a != from {
        lemma_start_props(ws, from + csize(ws, from), to, a);
    }
}

/// Two distinct chunk starts never overlap: the lower chunk ends at or
/// before the higher one begins.
pub proof fn lemma_starts_disjoint(ws: Seq<u64>, from: int, to: int, a: int, b: int)
    requires
        is_start(ws, from, to, a),
        is_start(ws, from, to, b),
        a < b,
    ensures
        a + csize(ws, a) <= b,
    decreases to - from,
{
    if a == from {
        lemma_start_props(ws, from + csize(ws, from), to, b);
    } else {
        lemma_start_props(ws, from + csize(ws, from), to, a);
        lemma_starts_disjoint(ws, from + csize(ws, from), to, a, b);
    }
}

/// Chunk structure depends only on the header words: if a second word
/// sequence agrees with the first at every chunk start, it parses the same
/// way and has the same starts.
pub proof fn lemma_parse_frame(ws1: Seq<u64>, ws2: Seq<u64>, from: int, to: int)
    requires
        parses(ws1, from, to),
        forall|a: int| is_start(ws1, from, to, a) ==> ws2[a] == ws1[a],
    ensures
        parses(ws2, from, to),
        forall|a: int| is_start(ws2, from, to, a) <==> is_start(ws1, from, to, a),
    decreases to - from,
{
    if from != to {
        assert(is_start(ws1, from, to, from));
        assert(forall|a: int|
            is_start(ws1, from + csize(ws1, from), to, a) ==> is_start(ws1, from, to, a));
        lemma_parse_frame(ws1, ws2, from + csize(ws1, from), to);
        assert(csize(ws2, from) == csize(ws1, from));
        assert forall|a: int| is_start(ws2, from, to, a) <==> is_start(ws1, from, to, a) by {
            let mid = from + csize(ws1, from);
            assert(is_start(ws1, from, to, a) <==> (a == from || is_start(ws1, mid, to, a)));
            assert(is_start(ws2, from, to, a) <==> (a == from || is_start(ws2, mid, to, a)));
        }
    }
}

/// Two adjacent parsed regions concatenate into one, whose starts are the
/// union of both regions' starts.
pub proof fn lemma_parse_concat(ws: Seq<u64>, from: int, mid: int, to: int)
    requires
        parses(ws, from, mid),
        parses(ws, mid, to),
    ensures
        parses(ws, from, to),
        forall|a: int|
            is_start(ws, from, to, a) <==> (is_start(ws, from, mid, a) || is_start(
                ws,
                mid,
                to,
                a,
            )),
    decreases mid - from,
{
    if from != mid {
        lemma_parse_concat(ws, from + csize(ws, from), mid, to);
        let next = from + csize(ws, from);
        assert forall|a: int|
            is_start(ws, from, to, a) <==> (is_start(ws, from, mid, a) || is_start(
                ws,
                mid,
                to,
                a,
            )) by {
            assert(is_start(ws, from, to, a) <==> (a == from || is_start(ws, next, to, a)));
            assert(is_start(ws, from, mid, a) <==> (a == from || is_start(ws, next, mid, a)));
        }
    } else {
        assert forall|a: int| is_start(ws, mid, to, a) implies is_start(ws, from, to, a) by {}
        assert forall|a: int| is_start(ws, from, to, a) implies is_start(ws, mid, to, a) by {}
    }
}

/// If a root set lands inside a set `dom` that is closed under the edge
/// relation, the whole reachable closure lands inside `dom`.
pub proof fn lemma_reachable_in_closed_set(ws: Seq<u64>, roots: Set<int>, dom: Set<int>, a: int)
    requires
        forall|r: int| roots.contains(r) ==> dom.contains(r),
        forall|x: int, y: int| dom.contains(x) && edge(ws, x, y) ==> dom.contains(y),
        reachable(ws, roots, a),
    ensures
        dom.contains(a),
{
    let k = choose|k: nat| reach_n(ws, roots, a, k);
    lemma_reach_n_in_closed_set(ws, roots, dom, a, k);
}

proof fn lemma_reach_n_in_closed_set(ws: Seq<u64>, roots: Set<int>, dom: Set<int>, a: int, k: nat)
    requires
        forall|r: int| roots.contains(r) ==> dom.contains(r),
        forall|x: int, y: int| dom.contains(x) && edge(ws, x, y) ==> dom.contains(y),
        reach_n(ws, roots, a, k),
    ensures
        dom.contains(a),
    decreases k,
{
    if k > 0 {
        if reach_n(ws, roots, a, (k - 1) as nat) {
            lemma_reach_n_in_closed_set(ws, roots, dom, a, (k - 1) as nat);
        } else {
            let b = choose|b: int| reach_n(ws, roots, b, (k - 1) as nat) && edge(ws, b, a);
            lemma_reach_n_in_closed_set(ws, roots, dom, b, (k - 1) as nat);
        }
    }
}

/// One edge step preserves reachability.
pub proof fn lemma_reachable_step(ws: Seq<u64>, roots: Set<int>, a: int, b: int)
    requires
        reachable(ws, roots, a),
        edge(ws, a, b),
    ensures
        reachable(ws, roots, b),
{
    let k = choose|k: nat| reach_n(ws, roots, a, k);
    assert(reach_n(ws, roots, b, k + 1));
}

/// Every root address is reachable.
pub proof fn lemma_root_reachable(ws: Seq<u64>, roots: Set<int>, a: int)
    requires
        roots.contains(a),
    ensures
        reachable(ws, roots, a),
{
    assert(reach_n(ws, roots, a, 0));
}

} // verus!
