//! The copying collector's working state and its invariants.
//!
//! A collection pass copies every chunk reachable from the root set into a
//! fresh word block, recording for each copied chunk a forwarding entry
//! `fwd[old] == new + 1` (`0` meaning "not copied").  Checking the table
//! before copying is what preserves sharing and terminates on cycles: a
//! chunk is copied exactly once, and later visits resolve to the recorded
//! address.  A final scan over the new block rewrites every cell through the
//! table, after which the new block is internally consistent.

use vstd::prelude::*;
use crate::memory::MemError;
use crate::model::{
    cell_word, chunk_word, craw, csize, is_start, lemma_parse_concat, lemma_parse_frame,
    lemma_start_props, lemma_starts_disjoint, parses, reachable,
};

verus! {

/// The forwarding table is sound: every entry maps a chunk start of the old
/// block to a chunk start of the new block carrying the same header, no two
/// entries share a target, and every chunk of the new block is some entry's
/// target.
pub open spec fn fwd_map_ok(ws0: Seq<u64>, fwd: Seq<usize>, dst: Seq<u64>) -> bool {
    let sl = ws0.len() as int;
    let dl = dst.len() as int;
    &&& fwd.len() == sl
    &&& parses(dst, 0, dl)
    &&& forall|a: int| 0 <= a < sl && #[trigger] fwd[a] != 0 ==> fwd_entry_ok(ws0, fwd, dst, a)
    &&& forall|b: int|
        #[trigger] is_start(dst, 0, dl, b) ==> exists|a: int|
            0 <= a < sl && #[trigger] fwd[a] != 0 && fwd[a] - 1 == b
    &&& forall|a1: int, a2: int|
        0 <= a1 < sl && 0 <= a2 < sl && #[trigger] fwd[a1] != 0 && #[trigger] fwd[a2] != 0
            && fwd[a1] == fwd[a2] ==> a1 == a2
}

/// One sound forwarding entry: starts on both sides, equal headers.
pub open spec fn fwd_entry_ok(ws0: Seq<u64>, fwd: Seq<usize>, dst: Seq<u64>, a: int) -> bool {
    &&& is_start(ws0, 0, ws0.len() as int, a)
    &&& is_start(dst, 0, dst.len() as int, fwd[a] - 1)
    &&& dst[fwd[a] - 1] == ws0[a]
}

/// The copy of the chunk at `a` still holds its source's payload verbatim.
pub open spec fn chunk_verbatim(ws0: Seq<u64>, fwd: Seq<usize>, dst: Seq<u64>, a: int) -> bool {
    forall|k: int|
        1 <= k < csize(ws0, a) ==> chunk_word(dst, fwd[a] - 1, k) == #[trigger] chunk_word(
            ws0,
            a,
            k,
        )
}

/// The `i`-th cell of the copy of the chunk at `a` has been rewritten
/// through the forwarding table.
pub open spec fn cell_forwarded(ws0: Seq<u64>, fwd: Seq<usize>, dst: Seq<u64>, a: int, i: int) -> bool {
    let w = cell_word(ws0, a, i);
    if w == 0 {
        cell_word(dst, fwd[a] - 1, i) == 0
    } else {
        &&& 0 <= w - 1 < fwd.len()
        &&& fwd[w - 1] != 0
        &&& cell_word(dst, fwd[a] - 1, i) as int == fwd[w - 1] as int
    }
}

/// Every cell of the copy of the chunk at `a` has been rewritten.
pub open spec fn chunk_done(ws0: Seq<u64>, fwd: Seq<usize>, dst: Seq<u64>, a: int) -> bool {
    forall|i: int| 0 <= i < csize(ws0, a) - 1 ==> #[trigger] cell_forwarded(ws0, fwd, dst, a, i)
}

/// Where the scan stands: copies strictly below the scan offset have their
/// cells rewritten, copies at or above it are still verbatim, and raw
/// copies are verbatim forever.
pub open spec fn chunk_state_ok(
    ws0: Seq<u64>,
    fwd: Seq<usize>,
    dst: Seq<u64>,
    scan: int,
    a: int,
) -> bool {
    if craw(ws0, a) {
        chunk_verbatim(ws0, fwd, dst, a)
    } else if fwd[a] - 1 + csize(ws0, a) <= scan {
        chunk_done(ws0, fwd, dst, a)
    } else if fwd[a] - 1 >= scan {
        chunk_verbatim(ws0, fwd, dst, a)
    } else {
        true
    }
}

/// `chunk_state_ok` for every copied chunk.
pub open spec fn copy_content(ws0: Seq<u64>, fwd: Seq<usize>, dst: Seq<u64>, scan: int) -> bool {
    forall|a: int|
        0 <= a < ws0.len() && #[trigger] fwd[a] != 0 ==> chunk_state_ok(ws0, fwd, dst, scan, a)
}

/// Every reference out of the chunk at `x` leads to a copied chunk.
pub open spec fn cells_resolved(ws0: Seq<u64>, fwd: Seq<usize>, x: int) -> bool {
    !craw(ws0, x) ==> forall|i: int|
        0 <= i < csize(ws0, x) - 1 && #[trigger] cell_word(ws0, x, i) != 0 ==> fwd[cell_word(
            ws0,
            x,
            i,
        ) - 1] != 0
}

/// Only reachable chunks are ever copied.
pub open spec fn dom_reachable(ws0: Seq<u64>, fwd: Seq<usize>, roots: Set<int>) -> bool {
    forall|a: int|
        0 <= a < ws0.len() && #[trigger] fwd[a] != 0 ==> reachable(ws0, roots, a)
}

/// Copy the chunk at `a` into the new block unless the forwarding table
/// already records a copy, and return the copy's address.  Checking the
/// table first is what keeps shared chunks single and cycles finite.
pub fn copy_or_forward(
    src: &Vec<u64>,
    dst: &mut Vec<u64>,
    fwd: &mut Vec<usize>,
    a: usize,
    cap: usize,
) -> (r: Result<usize, MemError>)
    requires
        parses(src@, 0, src@.len() as int),
        is_start(src@, 0, src@.len() as int, a as int),
        old(dst)@.len() <= cap,
        fwd_map_ok(src@, old(fwd)@, old(dst)@),
    ensures
        final (dst)@.len() <= cap,
        fwd_map_ok(src@, final (fwd)@, final (dst)@),
        final (dst)@.len() >= old(dst)@.len(),
        final (dst)@.subrange(0, old(dst)@.len() as int) == old(dst)@,
        forall|x: int|
            0 <= x < src@.len() && old(fwd)@[x] != 0 ==> final (fwd)@[x] == old(fwd)@[x],
        forall|x: int|
            0 <= x < src@.len() && final (fwd)@[x] != old(fwd)@[x] ==> x == a,
        match r {
            Result::Ok(n) => {
                &&& final (fwd)@[a as int] != 0
                &&& n + 1 == final (fwd)@[a as int]
                &&& n + csize(src@, a as int) <= final (dst)@.len()
                &&& if old(fwd)@[a as int] != 0 {
                    final (dst)@ == old(dst)@ && final (fwd)@ == old(fwd)@
                } else {
                    &&& n == old(dst)@.len()
                    &&& final (dst)@.len() == old(dst)@.len() + csize(src@, a as int)
                    &&& forall|k: int|
                        0 <= k < csize(src@, a as int) ==> chunk_word(final (dst)@, n as int, k)
                            == #[trigger] chunk_word(src@, a as int, k)
                }
            },
            Result::Err(e) => {
                &&& e == MemError::OutOfMemory
                &&& final (dst)@ == old(dst)@
                &&& final (fwd)@ == old(fwd)@
                &&& old(fwd)@[a as int] == 0
                &&& csize(src@, a as int) > cap - old(dst)@.len()
            },
        },
{
    let ghost ws0 = src@;
    let ghost sl = src@.len() as int;
    proof {
        lemma_start_props(ws0, 0, sl, a as int);
    }
    let f = fwd[a];
    if f != 0 {
        proof {
            assert(fwd_entry_ok(ws0, fwd@, dst@, a as int));
            lemma_start_props(dst@, 0, dst@.len() as int, f - 1);
            assert(csize(dst@, f - 1) == csize(ws0, a as int));
        }
        return Ok(f - 1);
    }
    let src_len = src.len();
    let hdr = src[a];
    proof {
        assert(csize(ws0, a as int) <= sl);
        assert((hdr >> 8u64) as int == csize(ws0, a as int));
        assert((hdr >> 8u64) <= src_len as u64);
    }
    let s = (hdr >> 8u64) as usize;
    proof {
        assert(s as int == csize(ws0, a as int));
    }
    if s > cap - dst.len() {
        return Err(MemError::OutOfMemory);
    }
    let n = dst.len();
    let ghost d0 = dst@;
    let mut k: usize = 0;
    while k < s
        invariant
            k <= s,
            a + s <= src_len,
            src_len == src@.len(),
            s == csize(src@, a as int),
            dst@.len() == n + k,
            dst@.subrange(0, n as int) == d0,
            n == d0.len(),
            forall|j: int|
                0 <= j < k ==> chunk_word(dst@, n as int, j) == #[trigger] chunk_word(
                    src@,
                    a as int,
                    j,
                ),
        decreases s - k,
    {
        let w = src[a + k];
        dst.push(w);
        proof {
            assert(dst@.subrange(0, n as int) =~= d0);
        }
        k += 1;
    }
    fwd[a] = n + 1;
    proof {
        let h1 = dst@;
        let dl0 = d0.len() as int;
        let dl1 = h1.len() as int;
        let fwd1 = fwd@;
        let fwd0 = old(fwd)@;
        assert(fwd1 == fwd0.update(a as int, (n + 1) as usize));
        assert(chunk_word(h1, dl0, 0) == chunk_word(ws0, a as int, 0));
        assert(h1[dl0] == ws0[a as int]);
        assert forall|b: int| is_start(d0, 0, dl0, b) implies h1[b] == d0[b] by {
            lemma_start_props(d0, 0, dl0, b);
            assert(h1[b] == h1.subrange(0, dl0)[b]);
        }
        lemma_parse_frame(d0, h1, 0, dl0);
        assert(h1[dl0] == ws0[a as int]);
        assert(csize(h1, dl0) == s);
        assert(parses(h1, dl1, dl1));
        assert(parses(h1, dl0, dl1));
        lemma_parse_concat(h1, 0, dl0, dl1);
        assert(is_start(h1, dl0, dl1, dl0));
        assert forall|b: int|
            is_start(h1, 0, dl1, b) <==> (is_start(d0, 0, dl0, b) || b == dl0) by {
            assert(!is_start(h1, dl1, dl1, b));
            assert(is_start(h1, dl0, dl1, b) <==> b == dl0);
        }
        assert forall|x: int| 0 <= x < sl && #[trigger] fwd1[x] != 0 implies fwd_entry_ok(
            ws0,
            fwd1,
            h1,
            x,
        ) by {
            if x == a as int {
                assert(is_start(h1, 0, dl1, dl0));
            } else {
                assert(fwd0[x] != 0);
                assert(fwd_entry_ok(ws0, fwd0, d0, x));
                lemma_start_props(d0, 0, dl0, fwd0[x] - 1);
                assert(h1[fwd0[x] - 1] == d0[fwd0[x] - 1]);
            }
        }
        assert forall|b: int| #[trigger] is_start(h1, 0, dl1, b) implies exists|x: int|
            0 <= x < sl && #[trigger] fwd1[x] != 0 && fwd1[x] - 1 == b by {
            if b == dl0 {
                assert(fwd1[a as int] != 0 && fwd1[a as int] - 1 == b);
            } else {
                assert(is_start(d0, 0, dl0, b));
                let x = choose|x: int| 0 <= x < sl && #[trigger] fwd0[x] != 0 && fwd0[x] - 1 == b;
                assert(fwd1[x] != 0 && fwd1[x] - 1 == b);
            }
        }
        assert forall|a1: int, a2: int|
            0 <= a1 < sl && 0 <= a2 < sl && #[trigger] fwd1[a1] != 0 && #[trigger] fwd1[a2] != 0
                && fwd1[a1] == fwd1[a2] implies a1 == a2 by {
            if a1 != a2 {
                if a1 == a as int {
                    assert(fwd_entry_ok(ws0, fwd0, d0, a2));
                    lemma_start_props(d0, 0, dl0, fwd0[a2] - 1);
                } else if a2 == a as int {
                    assert(fwd_entry_ok(ws0, fwd0, d0, a1));
                    lemma_start_props(d0, 0, dl0, fwd0[a1] - 1);
                }
            }
        }
        lemma_start_props(h1, 0, dl1, dl0);
    }
    Ok(n)
}

/// A sound forwarding entry survives any step that extends the new block at
/// its end and only adds forwarding entries.
pub proof fn lemma_state_preserved(
    ws0: Seq<u64>,
    fwd0: Seq<usize>,
    d0: Seq<u64>,
    fwd1: Seq<usize>,
    d1: Seq<u64>,
    scan: int,
    x: int,
)
    requires
        fwd_map_ok(ws0, fwd0, d0),
        0 <= x < ws0.len(),
        fwd0[x] != 0,
        chunk_state_ok(ws0, fwd0, d0, scan, x),
        fwd1.len() == fwd0.len(),
        d1.len() >= d0.len(),
        d1.subrange(0, d0.len() as int) == d0,
        forall|y: int| 0 <= y < fwd0.len() && fwd0[y] != 0 ==> fwd1[y] == fwd0[y],
    ensures
        chunk_state_ok(ws0, fwd1, d1, scan, x),
{
    let dl0 = d0.len() as int;
    assert(fwd_entry_ok(ws0, fwd0, d0, x));
    lemma_start_props(ws0, 0, ws0.len() as int, x);
    lemma_start_props(d0, 0, dl0, fwd0[x] - 1);
    assert(csize(d0, fwd0[x] - 1) == csize(ws0, x));
    assert forall|k: int| 0 <= k < csize(ws0, x) implies #[trigger] chunk_word(d1, fwd0[x] - 1, k)
        == chunk_word(d0, fwd0[x] - 1, k) by {
        assert(d1[fwd0[x] - 1 + k] == d1.subrange(0, dl0)[fwd0[x] - 1 + k]);
    }
    if craw(ws0, x) {
    } else if fwd0[x] - 1 + csize(ws0, x) <= scan {
        assert forall|i: int| 0 <= i < csize(ws0, x) - 1 implies #[trigger] cell_forwarded(
            ws0,
            fwd1,
            d1,
            x,
            i,
        ) by {
            assert(cell_forwarded(ws0, fwd0, d0, x, i));
            let w = cell_word(ws0, x, i);
            if w != 0 {
                assert(fwd1[w - 1] == fwd0[w - 1]);
            }
            assert(cell_word(d1, fwd0[x] - 1, i) == cell_word(d0, fwd0[x] - 1, i));
        }
    }
}

/// Rewriting one cell of the chunk under scan touches no header and no
/// other chunk: the parse, the table's soundness and every other copy's
/// state survive, and the rewritten cell now leads through the table.
pub proof fn lemma_cell_rewrite(
    ws0: Seq<u64>,
    fwd: Seq<usize>,
    d0: Seq<u64>,
    d1: Seq<u64>,
    scan: int,
    x0: int,
    j: int,
    t: int,
)
    requires
        fwd_map_ok(ws0, fwd, d0),
        0 <= x0 < ws0.len(),
        fwd[x0] != 0,
        fwd[x0] - 1 == scan,
        !craw(ws0, x0),
        0 <= j < csize(ws0, x0) - 1,
        parses(d0, 0, scan),
        parses(d0, scan, d0.len() as int),
        d1.len() == d0.len(),
        forall|i: int| 0 <= i < d0.len() && i != scan + 1 + j ==> d1[i] == d0[i],
        cell_word(ws0, x0, j) != 0,
        0 <= cell_word(ws0, x0, j) - 1 < fwd.len(),
        fwd[cell_word(ws0, x0, j) - 1] != 0,
        t == fwd[cell_word(ws0, x0, j) - 1],
        cell_word(d1, scan, j) as int == t,
        forall|ii: int| 0 <= ii < j ==> #[trigger] cell_forwarded(ws0, fwd, d0, x0, ii),
        forall|ii: int|
            j <= ii < csize(ws0, x0) - 1 ==> #[trigger] cell_word(d0, scan, ii) == cell_word(
                ws0,
                x0,
                ii,
            ),
        forall|y: int|
            0 <= y < ws0.len() && #[trigger] fwd[y] != 0 && y != x0 ==> chunk_state_ok(
                ws0,
                fwd,
                d0,
                scan,
                y,
            ),
    ensures
        fwd_map_ok(ws0, fwd, d1),
        parses(d1, 0, scan),
        parses(d1, scan, d1.len() as int),
        forall|b: int|
            is_start(d1, 0, d1.len() as int, b) <==> is_start(d0, 0, d0.len() as int, b),
        forall|ii: int| 0 <= ii < j + 1 ==> #[trigger] cell_forwarded(ws0, fwd, d1, x0, ii),
        forall|ii: int|
            j + 1 <= ii < csize(ws0, x0) - 1 ==> #[trigger] cell_word(d1, scan, ii) == cell_word(
                ws0,
                x0,
                ii,
            ),
        forall|y: int|
            0 <= y < ws0.len() && #[trigger] fwd[y] != 0 && y != x0 ==> chunk_state_ok(
                ws0,
                fwd,
                d1,
                scan,
                y,
            ),
{
    let len = d0.len() as int;
    let idx = scan + 1 + j;
    let cs = csize(ws0, x0);
    assert(fwd_entry_ok(ws0, fwd, d0, x0));
    lemma_parse_concat(d0, 0, scan, len);
    lemma_start_props(d0, 0, len, scan);
    assert(csize(d0, scan) == cs);
    lemma_payload_write_starts(d0, d1, scan, idx);
    // the two sub-regions still parse
    assert forall|b: int| is_start(d0, 0, scan, b) implies d1[b] == d0[b] by {
        lemma_start_props(d0, 0, scan, b);
    }
    lemma_parse_frame(d0, d1, 0, scan);
    assert forall|b: int| is_start(d0, scan, len, b) implies d1[b] == d0[b] by {
        lemma_start_props(d0, scan, len, b);
        if b != scan {
            lemma_starts_disjoint(d0, scan, len, scan, b);
        }
    }
    lemma_parse_frame(d0, d1, scan, len);
    // the table's entries survive: headers sit at starts, never at idx
    assert forall|y: int| 0 <= y < ws0.len() && #[trigger] fwd[y] != 0 implies fwd_entry_ok(
        ws0,
        fwd,
        d1,
        y,
    ) by {
        assert(fwd_entry_ok(ws0, fwd, d0, y));
        lemma_start_props(d0, 0, len, fwd[y] - 1);
        if fwd[y] - 1 != scan {
            if fwd[y] - 1 < scan {
                lemma_starts_disjoint(d0, 0, len, fwd[y] - 1, scan);
            } else {
                lemma_starts_disjoint(d0, 0, len, scan, fwd[y] - 1);
            }
        }
    }
    // other copies' words are untouched: their regions exclude idx
    assert forall|y: int|
        0 <= y < ws0.len() && #[trigger] fwd[y] != 0 && y != x0 implies chunk_state_ok(
        ws0,
        fwd,
        d1,
        scan,
        y,
    ) by {
        assert(fwd_entry_ok(ws0, fwd, d0, y));
        let ny = fwd[y] - 1;
        assert(fwd[y] != fwd[x0]);
        assert(ny != scan);
        lemma_start_props(ws0, 0, ws0.len() as int, y);
        assert(csize(d0, ny) == csize(ws0, y));
        if ny < scan {
            lemma_starts_disjoint(d0, 0, len, ny, scan);
        } else {
            lemma_starts_disjoint(d0, 0, len, scan, ny);
        }
        lemma_start_props(d0, 0, len, ny);
        assert forall|k: int| 0 <= k < csize(ws0, y) implies #[trigger] chunk_word(d1, ny, k)
            == chunk_word(d0, ny, k) by {
            assert(ny + k != idx);
        }
        assert(chunk_state_ok(ws0, fwd, d0, scan, y));
        if craw(ws0, y) {
        } else if ny + csize(ws0, y) <= scan {
            assert forall|ii: int| 0 <= ii < csize(ws0, y) - 1 implies #[trigger] cell_forwarded(
                ws0,
                fwd,
                d1,
                y,
                ii,
            ) by {
                assert(cell_forwarded(ws0, fwd, d0, y, ii));
                assert(cell_word(d1, ny, ii) == chunk_word(d1, ny, 1 + ii));
                assert(cell_word(d0, ny, ii) == chunk_word(d0, ny, 1 + ii));
            }
        } else if ny >= scan {
        }
    }
    // the current chunk: cells below j stay forwarded, j is now forwarded,
    // cells above j stay verbatim
    assert forall|ii: int| 0 <= ii < j + 1 implies #[trigger] cell_forwarded(ws0, fwd, d1, x0, ii)
        by {
        if ii < j {
            assert(cell_forwarded(ws0, fwd, d0, x0, ii));
            assert(cell_word(d1, scan, ii) == cell_word(d0, scan, ii));
        } else {
            assert(cell_word(d1, scan, j) as int == fwd[cell_word(ws0, x0, j) - 1] as int);
        }
    }
    assert forall|ii: int| j + 1 <= ii < csize(ws0, x0) - 1 implies #[trigger] cell_word(
        d1,
        scan,
        ii,
    ) == cell_word(ws0, x0, ii) by {
        assert(cell_word(d0, scan, ii) == cell_word(ws0, x0, ii));
        assert(cell_word(d1, scan, ii) == cell_word(d0, scan, ii));
    }
}

/// A write strictly inside one chunk's payload leaves every chunk start,
/// and the word at every start, unchanged.
proof fn lemma_payload_write_starts(d0: Seq<u64>, d1: Seq<u64>, a: int, idx: int)
    requires
        parses(d0, 0, d0.len() as int),
        is_start(d0, 0, d0.len() as int, a),
        a < idx < a + csize(d0, a),
        d1.len() == d0.len(),
        forall|i: int| 0 <= i < d0.len() && i != idx ==> d1[i] == d0[i],
    ensures
        parses(d1, 0, d1.len() as int),
        forall|b: int|
            is_start(d1, 0, d1.len() as int, b) <==> is_start(d0, 0, d0.len() as int, b),
        forall|b: int| is_start(d0, 0, d0.len() as int, b) ==> d1[b] == d0[b],
{
    let len = d0.len() as int;
    assert forall|b: int| is_start(d0, 0, len, b) implies d1[b] == d0[b] by {
        lemma_start_props(d0, 0, len, b);
        if b < a {
            lemma_starts_disjoint(d0, 0, len, b, a);
        } else if b > a {
            lemma_starts_disjoint(d0, 0, len, a, b);
        }
    }
    lemma_parse_frame(d0, d1, 0, len);
}

/// The source words lying inside some copied chunk.  Chunks are copied once
/// and never overlap, so the new block's length always equals this set's
/// size — which is how the collector's output is known to fit whenever the
/// old heap fits the target capacity.
pub open spec fn covered(ws0: Seq<u64>, fwd: Seq<usize>) -> Set<int> {
    Set::new(
        |d: int|
            exists|a: int|
                0 <= a < ws0.len() && #[trigger] fwd[a] != 0 && a <= d < a + csize(ws0, a),
    )
}

/// Copying a chunk not yet in the table grows the covered region by exactly
/// the chunk's size: its words were covered by no other copy.
pub proof fn lemma_covered_extend(ws0: Seq<u64>, fwd0: Seq<usize>, fwd1: Seq<usize>, a: int)
    requires
        parses(ws0, 0, ws0.len() as int),
        is_start(ws0, 0, ws0.len() as int, a),
        fwd0.len() == ws0.len(),
        fwd1.len() == fwd0.len(),
        0 <= a < fwd0.len(),
        fwd0[a] == 0,
        fwd1[a] != 0,
        forall|x: int| 0 <= x < fwd0.len() && x != a ==> fwd1[x] == fwd0[x],
        forall|x: int|
            0 <= x < fwd0.len() && #[trigger] fwd0[x] != 0 ==> is_start(
                ws0,
                0,
                ws0.len() as int,
                x,
            ),
    ensures
        covered(ws0, fwd1).finite(),
        covered(ws0, fwd1).len() == covered(ws0, fwd0).len() + csize(ws0, a),
{
    let sl = ws0.len() as int;
    let s = csize(ws0, a);
    lemma_start_props(ws0, 0, sl, a);
    let r = vstd::set_lib::set_int_range(a, a + s);
    vstd::set_lib::lemma_int_range(a, a + s);
    lemma_covered_bound(ws0, fwd0);
    assert forall|d: int| covered(ws0, fwd1).contains(d) implies (covered(ws0, fwd0)
        + r).contains(d) by {
        let x = choose|x: int|
            0 <= x < ws0.len() && #[trigger] fwd1[x] != 0 && x <= d < x + csize(ws0, x);
        if x != a {
            assert(fwd0[x] != 0 && x <= d < x + csize(ws0, x));
        }
    }
    assert forall|d: int| (covered(ws0, fwd0) + r).contains(d) implies covered(
        ws0,
        fwd1,
    ).contains(d) by {
        if covered(ws0, fwd0).contains(d) {
            let x = choose|x: int|
                0 <= x < ws0.len() && #[trigger] fwd0[x] != 0 && x <= d < x + csize(ws0, x);
            assert(fwd1[x] != 0 && x <= d < x + csize(ws0, x));
        } else {
            assert(fwd1[a] != 0 && a <= d < a + csize(ws0, a));
        }
    }
    assert(covered(ws0, fwd1) =~= covered(ws0, fwd0) + r);
    assert forall|d: int| covered(ws0, fwd0).contains(d) implies !r.contains(d) by {
        let x = choose|x: int|
            0 <= x < ws0.len() && #[trigger] fwd0[x] != 0 && x <= d < x + csize(ws0, x);
        if r.contains(d) {
            if x < a {
                lemma_starts_disjoint(ws0, 0, sl, x, a);
            } else {
                lemma_starts_disjoint(ws0, 0, sl, a, x);
            }
        }
    }
    assert(covered(ws0, fwd0).disjoint(r));
    vstd::set_lib::lemma_set_disjoint_lens(covered(ws0, fwd0), r);
}

/// The covered region is part of the old heap, so its size never exceeds
/// the old heap's used length.
pub proof fn lemma_covered_bound(ws0: Seq<u64>, fwd: Seq<usize>)
    requires
        fwd.len() == ws0.len(),
        forall|x: int|
            0 <= x < fwd.len() && #[trigger] fwd[x] != 0 ==> is_start(ws0, 0, ws0.len() as int, x),
    ensures
        covered(ws0, fwd).finite(),
        covered(ws0, fwd).len() <= ws0.len(),
{
    let sl = ws0.len() as int;
    let range = vstd::set_lib::set_int_range(0, sl);
    vstd::set_lib::lemma_int_range(0, sl);
    assert forall|d: int| covered(ws0, fwd).contains(d) implies range.contains(d) by {
        let x = choose|x: int|
            0 <= x < ws0.len() && #[trigger] fwd[x] != 0 && x <= d < x + csize(ws0, x);
        lemma_start_props(ws0, 0, sl, x);
    }
    vstd::set_lib::lemma_len_subset(covered(ws0, fwd), range);
}

/// The words of the old heap occupied by a set of chunks: the total size
/// of a closure, measured as the region its chunks cover.
pub open spec fn closure_words(ws0: Seq<u64>, dom: Set<int>) -> Set<int> {
    Set::new(
        |d: int| exists|a: int| #[trigger] dom.contains(a) && a <= d < a + csize(ws0, a),
    )
}

/// `x` occurs in the worklist of copied-but-unscanned chunk addresses.
pub open spec fn queued(q: Seq<usize>, x: int) -> bool {
    exists|qi: int| 0 <= qi < q.len() && (#[trigger] q[qi]) as int == x
}

/// Every copied chunk either has all its references resolved into the
/// forwarding table or still sits on the worklist.
pub open spec fn pending_ok(ws0: Seq<u64>, fwd: Seq<usize>, q: Seq<usize>) -> bool {
    forall|x: int|
        0 <= x < ws0.len() && #[trigger] fwd[x] != 0 ==> cells_resolved(ws0, fwd, x) || queued(
            q,
            x,
        )
}

/// Resolution is stable: entries never leave the forwarding table, so a
/// chunk whose references all lead into the table keeps that property as
/// the table grows.
pub proof fn lemma_resolved_monotone(ws0: Seq<u64>, fwd0: Seq<usize>, fwd1: Seq<usize>, x: int)
    requires
        crate::model::cells_ok(ws0),
        is_start(ws0, 0, ws0.len() as int, x),
        fwd0.len() == ws0.len(),
        fwd1.len() == fwd0.len(),
        cells_resolved(ws0, fwd0, x),
        forall|y: int| 0 <= y < fwd0.len() && fwd0[y] != 0 ==> fwd1[y] == fwd0[y],
    ensures
        cells_resolved(ws0, fwd1, x),
{
    if !craw(ws0, x) {
        assert forall|i: int|
            0 <= i < csize(ws0, x) - 1 && #[trigger] cell_word(ws0, x, i) != 0 implies fwd1[
            cell_word(ws0, x, i) - 1] != 0 by {
            let w = cell_word(ws0, x, i);
            assert(is_start(ws0, 0, ws0.len() as int, w - 1));
            lemma_start_props(ws0, 0, ws0.len() as int, w - 1);
            assert(fwd0[w - 1] != 0);
        }
    }
}

/// The addresses a root sequence names.
pub open spec fn root_addrs(rs: Seq<crate::memory::Ptr<crate::memory::Any>>) -> Set<int> {
    Set::new(
        |a: int| exists|i: int| 0 <= i < rs.len() && #[trigger] rs[i].addr_spec() == a,
    )
}

/// The `i`-th cell of the copy of `a` under an abstract forwarding map.
pub open spec fn cell_mapped(
    ws0: Seq<u64>,
    ws1: Seq<u64>,
    f: Map<int, int>,
    a: int,
    i: int,
) -> bool {
    let w = cell_word(ws0, a, i);
    if w == 0 {
        cell_word(ws1, f[a], i) == 0
    } else {
        &&& f.dom().contains(w - 1)
        &&& cell_word(ws1, f[a], i) as int == f[w - 1] + 1
    }
}

/// The copy of the chunk at `a`: same header at the mapped address, raw
/// payloads equal word for word, and every cell rewritten through the map.
pub open spec fn copied_chunk(ws0: Seq<u64>, ws1: Seq<u64>, f: Map<int, int>, a: int) -> bool {
    &&& is_start(ws0, 0, ws0.len() as int, a)
    &&& is_start(ws1, 0, ws1.len() as int, f[a])
    &&& ws1[f[a]] == ws0[a]
    &&& craw(ws0, a) ==> forall|k: int|
        1 <= k < csize(ws0, a) ==> chunk_word(ws1, f[a], k) == #[trigger] chunk_word(ws0, a, k)
    &&& !craw(ws0, a) ==> forall|i: int|
        0 <= i < csize(ws0, a) - 1 ==> #[trigger] cell_mapped(ws0, ws1, f, a, i)
}

/// What a successful collection pass guarantees, witnessed by the map `f`
/// from old chunk addresses to new ones: the new block holds, exactly once
/// each and nothing else, the chunks reachable from the root set, with
/// structure, sharing and cycles carried over by `f`, and every root
/// rewritten through `f` to the new generation.
pub open spec fn collected(
    ws0: Seq<u64>,
    rs0: Seq<crate::memory::Ptr<crate::memory::Any>>,
    ws1: Seq<u64>,
    gen1: int,
    rs1: Seq<crate::memory::Ptr<crate::memory::Any>>,
    f: Map<int, int>,
) -> bool {
    let len1 = ws1.len() as int;
    &&& forall|a: int| #[trigger] f.dom().contains(a) ==> copied_chunk(ws0, ws1, f, a)
    &&& forall|a1: int, a2: int|
        f.dom().contains(a1) && f.dom().contains(a2) && f[a1] == f[a2] ==> a1 == a2
    &&& forall|b: int|
        #[trigger] is_start(ws1, 0, len1, b) ==> exists|a: int|
            #[trigger] f.dom().contains(a) && f[a] == b
    &&& forall|a: int| #[trigger] f.dom().contains(a) ==> reachable(ws0, root_addrs(rs0), a)
    &&& forall|a: int| reachable(ws0, root_addrs(rs0), a) ==> #[trigger] f.dom().contains(a)
    &&& rs1.len() == rs0.len()
    &&& forall|i: int|
        0 <= i < rs0.len() ==> f.dom().contains((#[trigger] rs0[i]).addr_spec())
            && rs1[i].addr_spec() == f[rs0[i].addr_spec()] && rs1[i].gen_spec() == gen1
}

/// Law: collection preserves sharing among roots.  Two roots that
/// referenced the same chunk before the pass reference the same relocated
/// chunk after it — the same address, not merely an equal value.
pub proof fn lemma_root_sharing_preserved(
    ws0: Seq<u64>,
    rs0: Seq<crate::memory::Ptr<crate::memory::Any>>,
    ws1: Seq<u64>,
    gen1: int,
    rs1: Seq<crate::memory::Ptr<crate::memory::Any>>,
    f: Map<int, int>,
    i: int,
    j: int,
)
    requires
        collected(ws0, rs0, ws1, gen1, rs1, f),
        0 <= i < rs0.len(),
        0 <= j < rs0.len(),
        rs0[i].addr_spec() == rs0[j].addr_spec(),
    ensures
        rs1[i].addr_spec() == rs1[j].addr_spec(),
{
    let pi = rs0[i];
    let pj = rs0[j];
    assert(rs1[i].addr_spec() == f[pi.addr_spec()]);
    assert(rs1[j].addr_spec() == f[pj.addr_spec()]);
}

/// Law: collection preserves sharing among cells.  Two cells of copied
/// chunks that referenced the same chunk reference the same copy afterward.
pub proof fn lemma_cell_sharing_preserved(
    ws0: Seq<u64>,
    ws1: Seq<u64>,
    f: Map<int, int>,
    a1: int,
    i1: int,
    a2: int,
    i2: int,
)
    requires
        f.dom().contains(a1),
        f.dom().contains(a2),
        copied_chunk(ws0, ws1, f, a1),
        copied_chunk(ws0, ws1, f, a2),
        !craw(ws0, a1),
        !craw(ws0, a2),
        0 <= i1 < csize(ws0, a1) - 1,
        0 <= i2 < csize(ws0, a2) - 1,
        cell_word(ws0, a1, i1) == cell_word(ws0, a2, i2),
        cell_word(ws0, a1, i1) != 0,
    ensures
        cell_word(ws1, f[a1], i1) == cell_word(ws1, f[a2], i2),
{
    assert(cell_mapped(ws0, ws1, f, a1, i1));
    assert(cell_mapped(ws0, ws1, f, a2, i2));
}

/// Law: cyclic edges survive collection.  A cell that pointed back at its
/// own chunk points back at the chunk's copy afterward, so a
/// self-referential structure stays self-referential at its new address.
pub proof fn lemma_cycle_preserved(ws0: Seq<u64>, ws1: Seq<u64>, f: Map<int, int>, a: int, i: int)
    requires
        f.dom().contains(a),
        copied_chunk(ws0, ws1, f, a),
        !craw(ws0, a),
        0 <= i < csize(ws0, a) - 1,
        cell_word(ws0, a, i) == a + 1,
    ensures
        cell_word(ws1, f[a], i) as int == f[a] + 1,
{
    lemma_start_props(ws0, 0, ws0.len() as int, a);
    assert(cell_word(ws0, a, i) != 0);
    assert(cell_mapped(ws0, ws1, f, a, i));
}

/// Law: garbage is reclaimed.  Every chunk of the collected arena is the
/// copy of exactly one old chunk, and that chunk was reachable from the root
/// set — nothing unreachable survives, and the new arena holds nothing else.
pub proof fn lemma_garbage_reclaimed(
    ws0: Seq<u64>,
    rs0: Seq<crate::memory::Ptr<crate::memory::Any>>,
    ws1: Seq<u64>,
    gen1: int,
    rs1: Seq<crate::memory::Ptr<crate::memory::Any>>,
    f: Map<int, int>,
    b: int,
)
    requires
        collected(ws0, rs0, ws1, gen1, rs1, f),
        is_start(ws1, 0, ws1.len() as int, b),
    ensures
        exists|a: int|
            #[trigger] f.dom().contains(a) && f[a] == b && reachable(ws0, root_addrs(rs0), a),
{
    let a = choose|a: int| #[trigger] f.dom().contains(a) && f[a] == b;
    assert(reachable(ws0, root_addrs(rs0), a));
}

} // verus!
