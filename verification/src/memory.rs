//! The arena, its typed handles and its traced cells.
//!
//! `Memory` is a bump allocator over a fixed-capacity block of 64-bit words:
//! allocation appends one header word plus the payload, and nothing is ever
//! freed short of a full collection pass.  `Ptr<T>` is a non-owning typed
//! handle: a word offset plus the generation of the arena that issued it.
//! `Cell` is the decoded form of a traced payload slot, the only kind of
//! inter-object edge the collector follows.

use core::marker::PhantomData;
use vstd::prelude::*;
use crate::header::{
    decode, decode_raw, decode_size, decode_tag, encode_word, Header, SIZE_LIMIT, TAG_LIMIT,
};
use crate::collector::{
    cell_forwarded, cell_mapped, cells_resolved, chunk_done, chunk_state_ok, chunk_verbatim,
    collected, copied_chunk, copy_content, copy_or_forward, dom_reachable, fwd_entry_ok,
    closure_words, covered, fwd_map_ok, lemma_cell_rewrite, lemma_covered_bound,
    lemma_covered_extend,
    lemma_resolved_monotone, lemma_state_preserved, pending_ok, queued, root_addrs,
};
use crate::model::{
    cell_word, cells_ok, chunk_word, craw, csize, ctag, edge, is_start, lemma_parse_concat,
    lemma_parse_frame, lemma_reachable_in_closed_set, lemma_reachable_step, lemma_root_reachable,
    lemma_start_props, lemma_starts_disjoint, parses, reachable,
};

verus! {

/// Everything that can go wrong in the heap.  No error is retried: each call
/// reports exactly one of these and leaves retry policy to the caller.
#[derive(Clone, Copy, PartialEq, Eq, Structural, Debug)]
pub enum MemError {
    /// The request does not fit the arena's remaining words.
    OutOfMemory,
    /// A cast's requested type disagrees with the chunk's stored tag.
    TypeMismatch,
    /// A cell that holds no value was dereferenced.
    EmptyCellAccess,
    /// A root handle does not belong to the arena under collection.
    InvalidRoot,
    /// The requested tag or size exceeds its header field's range.
    HeaderRange,
}

/// A value type hosted on the heap: it declares a fixed tag and a fixed
/// payload word count, everything the allocator and the collector need.
pub trait Element {
    /// The tag every chunk of this type carries.
    spec fn tag_spec() -> u64;

    /// The payload word count of a plain chunk of this type.
    spec fn size_spec() -> u64;

    /// Runtime form of the declared tag.
    fn tag() -> (t: u64)
        ensures
            t == Self::tag_spec(),
    ;

    /// Runtime form of the declared payload word count.
    fn size() -> (s: u64)
        ensures
            s == Self::size_spec(),
    ;
}

/// The untyped view of a handle; a chunk of any tag can be seen through it.
#[derive(Clone, Copy, Debug)]
pub struct Any;

/// A typed handle: the word offset of a chunk's header inside the arena of
/// the recorded generation.  Handles are cheap, non-owning and freely
/// copyable; equality between handles is address equality.
#[verifier::reject_recursive_types(T)]
#[derive(Debug)]
pub struct Ptr<T> {
    addr: usize,
    gen: u64,
    elem: PhantomData<T>,
}

impl<T> Clone for Ptr<T> {
    fn clone(&self) -> (r: Self)
        ensures
            r.addr_spec() == self.addr_spec(),
            r.gen_spec() == self.gen_spec(),
    {
        Ptr { addr: self.addr, gen: self.gen, elem: PhantomData }
    }
}

impl<T> Copy for Ptr<T> {

}

impl<T> Ptr<T> {
    /// The word offset of the chunk's header.
    pub closed spec fn addr_spec(self) -> int {
        self.addr as int
    }

    /// The generation of the arena the handle belongs to.
    pub closed spec fn gen_spec(self) -> int {
        self.gen as int
    }

    /// The handle addresses a chunk of the given arena: the generations
    /// agree and the address is one of the arena's chunk starts.
    pub open spec fn valid_in(self, m: Memory) -> bool {
        &&& self.gen_spec() == m.gen_spec()
        &&& is_start(m.heap(), 0, m.heap().len() as int, self.addr_spec())
    }

    /// The handle is valid and its chunk carries its static type's tag.
    pub open spec fn typed_in(self, m: Memory) -> bool where T: Element {
        &&& self.valid_in(m)
        &&& ctag(m.heap(), self.addr_spec()) == T::tag_spec()
    }
}

/// A traced reference slot, decoded: either empty or holding a handle.
/// Cells live inside non-raw chunks' payloads and are the only sanctioned
/// way one object refers to another.
#[derive(Clone, Copy)]
pub enum Cell {
    /// The slot holds no reference; the collector skips it.
    Empty,
    /// The slot references the chunk the handle addresses.
    Holds(Ptr<Any>),
}

impl Cell {
    /// The word a cell is stored as: `0` for empty, the target's header
    /// offset plus one otherwise.
    pub open spec fn word_spec(self) -> int {
        match self {
            Cell::Empty => 0,
            Cell::Holds(q) => q.addr_spec() + 1,
        }
    }

    /// The held handle, if any.
    pub fn get(&self) -> (r: Option<Ptr<Any>>)
        ensures
            match r {
                Option::Some(q) => self is Holds && q == self->Holds_0,
                Option::None => self is Empty,
            },
    {
        match self {
            Cell::Empty => None,
            Cell::Holds(q) => Some(*q),
        }
    }

    /// The held handle, or `EmptyCellAccess` if the cell is empty: the
    /// loud form of `get` for callers that require a value.
    pub fn deref(&self) -> (r: Result<Ptr<Any>, MemError>)
        ensures
            match r {
                Result::Ok(q) => self is Holds && q == self->Holds_0,
                Result::Err(e) => self is Empty && e == MemError::EmptyCellAccess,
            },
    {
        match self {
            Cell::Empty => Err(MemError::EmptyCellAccess),
            Cell::Holds(q) => Ok(*q),
        }
    }

    /// Whether the cell holds no reference.
    pub fn is_empty(&self) -> (r: bool)
        ensures
            r == (self is Empty),
    {
        match self {
            Cell::Empty => true,
            Cell::Holds(_) => false,
        }
    }
}

/// The decoded first word of an allocated object.
#[derive(Clone, Copy, PartialEq, Eq, Structural, Debug)]
pub struct Chunk {
    /// The header stored at the chunk's start.
    pub hdr: Header,
}

/// The arena: a fixed-capacity contiguous word block, filled from the front
/// by a monotonically growing free offset.  `words` holds exactly the used
/// region; its length is the free offset.
pub struct Memory {
    words: Vec<u64>,
    capacity: usize,
    gen: u64,
}

/// What allocation promises: on success a fresh chunk of the requested tag,
/// raw flag and size stands at the old free offset with all payload words
/// zeroed and everything else untouched; on failure the arena is unchanged
/// and the error says exactly which check refused the request.
pub open spec fn alloc_ensures(
    m0: Memory,
    m1: Memory,
    tag: u64,
    base: u64,
    extra: u64,
    is_raw: bool,
    r: Result<int, MemError>,
) -> bool {
    let size = 1 + base + extra;
    let len0 = m0.heap().len() as int;
    let len1 = m1.heap().len() as int;
    match r {
        Result::Ok(p) => {
            &&& tag < TAG_LIMIT && size < SIZE_LIMIT
            &&& size <= m0.cap_spec() - len0
            &&& m1.cap_spec() == m0.cap_spec()
            &&& m1.gen_spec() == m0.gen_spec()
            &&& p == len0
            &&& len1 == len0 + size
            &&& m1.heap().subrange(0, len0) == m0.heap()
            &&& ctag(m1.heap(), p) == tag
            &&& craw(m1.heap(), p) == is_raw
            &&& csize(m1.heap(), p) == size
            &&& forall|k: int| 0 <= k < size - 1 ==> #[trigger] cell_word(m1.heap(), p, k) == 0
            &&& is_start(m1.heap(), 0, len1, p)
            &&& forall|a: int|
                is_start(m1.heap(), 0, len1, a) <==> (is_start(m0.heap(), 0, len0, a) || a == p)
        },
        Result::Err(e) => {
            &&& m1 == m0
            &&& (e == MemError::HeaderRange || e == MemError::OutOfMemory)
            &&& (e == MemError::HeaderRange <==> !(tag < TAG_LIMIT && size < SIZE_LIMIT))
            &&& (e == MemError::OutOfMemory <==> tag < TAG_LIMIT && size < SIZE_LIMIT && size
                > m0.cap_spec() - len0)
        },
    }
}

impl Memory {
    /// The used region of the backing storage, one chunk after another.
    pub closed spec fn heap(self) -> Seq<u64> {
        self.words@
    }

    /// The arena's fixed word capacity.
    pub closed spec fn cap_spec(self) -> int {
        self.capacity as int
    }

    /// The arena's generation: collection produces a new identity, and a
    /// handle is checked against it before the collector trusts it.
    pub closed spec fn gen_spec(self) -> int {
        self.gen as int
    }

    /// Well-formedness: the used region fits the capacity, parses into
    /// chunks, and every cell points at a chunk start.
    pub open spec fn inv(self) -> bool {
        &&& self.heap().len() <= self.cap_spec()
        &&& self.cap_spec() < SIZE_LIMIT
        &&& parses(self.heap(), 0, self.heap().len() as int)
        &&& cells_ok(self.heap())
    }

    /// Create an empty arena of the given fixed word capacity.
    pub fn new(capacity: usize) -> (m: Memory)
        requires
            (capacity as u64) < SIZE_LIMIT,
        ensures
            m.inv(),
            m.heap().len() == 0,
            m.cap_spec() == capacity,
            m.gen_spec() == 0,
    {
        Memory { words: Vec::new(), capacity, gen: 0 }
    }

    /// The fixed total word capacity.
    pub fn capacity(&self) -> (c: usize)
        ensures
            c == self.cap_spec(),
    {
        self.capacity
    }

    /// Words handed out so far: the free offset.
    pub fn used(&self) -> (u: usize)
        ensures
            u == self.heap().len(),
    {
        self.words.len()
    }

    /// Words still available for allocation.
    pub fn remaining(&self) -> (r: usize)
        requires
            self.inv(),
        ensures
            r == self.cap_spec() - self.heap().len(),
    {
        self.capacity - self.words.len()
    }

    /// Allocate a traced chunk for `T` with `extra` payload words beyond
    /// `T`'s declared count; every payload word starts as an empty cell.
    pub fn allocate<T: Element>(&mut self, extra: u64) -> (r: Result<Ptr<T>, MemError>)
        requires
            old(self).inv(),
        ensures
            final (self).inv(),
            alloc_ensures(
                *old(self),
                *final (self),
                T::tag_spec(),
                T::size_spec(),
                extra,
                false,
                result_addr(r),
            ),
            r matches Result::Ok(p) ==> p.typed_in(*final (self)) && p.gen_spec() == old(
                self,
            ).gen_spec(),
    {
        self.allocate_impl::<T>(extra, false)
    }

    /// Allocate a raw chunk for `T`: its payload is opaque scalar data that
    /// the collector copies verbatim and never traces.
    pub fn allocate_raw<T: Element>(&mut self, extra: u64) -> (r: Result<Ptr<T>, MemError>)
        requires
            old(self).inv(),
        ensures
            final (self).inv(),
            alloc_ensures(
                *old(self),
                *final (self),
                T::tag_spec(),
                T::size_spec(),
                extra,
                true,
                result_addr(r),
            ),
            r matches Result::Ok(p) ==> p.typed_in(*final (self)) && p.gen_spec() == old(
                self,
            ).gen_spec(),
    {
        self.allocate_impl::<T>(extra, true)
    }

    fn allocate_impl<T: Element>(&mut self, extra: u64, is_raw: bool) -> (r: Result<
        Ptr<T>,
        MemError,
    >)
        requires
            old(self).inv(),
        ensures
            final (self).inv(),
            alloc_ensures(
                *old(self),
                *final (self),
                T::tag_spec(),
                T::size_spec(),
                extra,
                is_raw,
                result_addr(r),
            ),
            r matches Result::Ok(p) ==> p.typed_in(*final (self)) && p.gen_spec() == old(
                self,
            ).gen_spec(),
    {
        let tag = T::tag();
        let base = T::size();
        if tag >= TAG_LIMIT || base >= SIZE_LIMIT - 1 || extra > SIZE_LIMIT - 2 - base {
            return Err(MemError::HeaderRange);
        }
        let size: u64 = 1 + base + extra;
        let used = self.words.len();
        if size > ((self.capacity - used) as u64) {
            return Err(MemError::OutOfMemory);
        }
        let w = match Header::initialize(is_raw, tag, size) {
            Option::Some(h) => h.encode(),
            Option::None => {
                proof {
                    assert(false);
                }
                0u64
            },
        };
        let ghost h0 = self.words@;
        let ghost len0 = h0.len() as int;
        let ghost size_g = size as int;
        proof {
            assert(size <= self.capacity as u64);
            assert(self.capacity as int <= usize::MAX as int);
        }
        let pad = (size - 1) as usize;
        self.words.push(w);
        let mut padding = vec![0u64; pad];
        let ghost padding0 = padding@;
        self.words.append(&mut padding);
        proof {
            assert(self.words@.subrange(0, len0) =~= h0);
            assert(self.words@[len0] == w);
            assert forall|j: int| 0 <= j < size_g - 1 implies #[trigger] cell_word(
                self.words@,
                len0,
                j,
            ) == 0 by {
                assert(cell_word(self.words@, len0, j) == padding0[j]);
                assert(cloned(0u64, padding0[j]));
            }
        }
        let p = Ptr::<T> { addr: used, gen: self.gen, elem: PhantomData };
        proof {
            let h1 = self.words@;
            let len1 = h1.len() as int;
            crate::header::lemma_encode_decode(is_raw, tag, size);
            assert(csize(h1, len0) == size_g);
            assert forall|a: int| is_start(h0, 0, len0, a) implies h1[a] == h0[a] by {
                lemma_start_props(h0, 0, len0, a);
                assert(h1[a] == h1.subrange(0, len0)[a]);
            }
            lemma_parse_frame(h0, h1, 0, len0);
            assert(parses(h1, len1, len1));
            assert(parses(h1, len0, len1));
            lemma_parse_concat(h1, 0, len0, len1);
            assert(is_start(h1, len0, len1, len0));
            assert forall|a: int|
                is_start(h1, 0, len1, a) <==> (is_start(h0, 0, len0, a) || a == len0) by {
                assert(!is_start(h1, len1, len1, a));
                assert(is_start(h1, len0, len1, a) <==> a == len0);
            }
            assert forall|a: int, i: int|
                is_start(h1, 0, len1, a) && !craw(h1, a) && 0 <= i < csize(h1, a) - 1
                    && #[trigger] cell_word(h1, a, i) != 0 implies is_start(
                h1,
                0,
                len1,
                cell_word(h1, a, i) - 1,
            ) by {
                if a == len0 {
                    assert(cell_word(h1, a, i) == 0);
                } else {
                    assert(!is_start(h1, len1, len1, a));
                    assert(is_start(h1, 0, len0, a));
                    assert(is_start(h0, 0, len0, a));
                    lemma_start_props(h0, 0, len0, a);
                    assert(h1[a + 1 + i] == h1.subrange(0, len0)[a + 1 + i]);
                    assert(cell_word(h1, a, i) == cell_word(h0, a, i));
                    assert(is_start(h0, 0, len0, cell_word(h0, a, i) - 1));
                }
            }
            assert(self.inv());
        }
        Ok(p)
    }

    /// Discard the arena and everything in it; handles into it are dead.
    pub fn destroy(self) {
    }

    /// Collect garbage, stop-the-world: copy everything reachable from the
    /// root set into a fresh arena of the given capacity, rewriting the
    /// roots in place.  On success the arena has a new generation and holds
    /// exactly the reachable closure, with structure, sharing and cycles
    /// preserved, as `collected` states; handles of the old generation are
    /// dead.  On any failure — a root of a foreign generation, or a live
    /// closure larger than the target capacity — nothing is changed: the
    /// caller keeps the prior arena and roots untouched.
    #[verifier::rlimit(100)]
    pub fn collect(&mut self, roots: &mut Vec<Ptr<Any>>, target_capacity: usize) -> (r: Result<
        (),
        MemError,
    >)
        requires
            old(self).inv(),
            (target_capacity as u64) < SIZE_LIMIT,
            old(self).gen_spec() < u64::MAX as int,
            forall|i: int|
                0 <= i < old(roots)@.len() && (#[trigger] old(roots)@[i].gen_spec()) == old(
                    self,
                ).gen_spec() ==> is_start(
                    old(self).heap(),
                    0,
                    old(self).heap().len() as int,
                    old(roots)@[i].addr_spec(),
                ),
        ensures
            final (self).inv(),
            r is Err ==> *final (self) == *old(self) && final (roots)@ == old(roots)@,
            r matches Result::Err(e) ==> e == MemError::InvalidRoot || e == MemError::OutOfMemory,
            (r == Result::<(), MemError>::Err(MemError::InvalidRoot) <==> exists|i: int|
                0 <= i < old(roots)@.len() && (#[trigger] old(roots)@[i].gen_spec()) != old(
                    self,
                ).gen_spec()),
            old(self).heap().len() <= target_capacity && (forall|i: int|
                0 <= i < old(roots)@.len() ==> (#[trigger] old(roots)@[i].gen_spec()) == old(
                    self,
                ).gen_spec()) ==> r is Ok,
            r is Ok ==> ({
                &&& final (self).cap_spec() == target_capacity
                &&& final (self).gen_spec() == old(self).gen_spec() + 1
                &&& final (roots)@.len() == old(roots)@.len()
                &&& forall|i: int|
                    0 <= i < final (roots)@.len() ==> (#[trigger] final (roots)@[i]).valid_in(
                        *final (self),
                    )
                &&& exists|f: Map<int, int>|
                    collected(
                        old(self).heap(),
                        old(roots)@,
                        final (self).heap(),
                        final (self).gen_spec(),
                        final (roots)@,
                        f,
                    ) && final (self).heap().len() == closure_words(
                        old(self).heap(),
                        f.dom(),
                    ).len()
            }),
    {
        let ghost ws0 = self.heap();
        let ghost sl = ws0.len() as int;
        let ghost rs0 = roots@;
        let ghost gen0 = self.gen_spec();
        let ghost rset = root_addrs(rs0);

        // Every root must belong to the arena under collection.
        let mut i: usize = 0;
        while i < roots.len()
            invariant
                *self == *old(self),
                self.inv(),
                roots@ == rs0,
                rs0 == old(roots)@,
                i <= rs0.len(),
                gen0 == self.gen_spec(),
                forall|j: int| 0 <= j < i ==> (#[trigger] rs0[j].gen_spec()) == gen0,
            decreases rs0.len() - i,
        {
            if roots[i].gen != self.gen {
                proof {
                    assert(old(roots)@[i as int].gen_spec() != old(self).gen_spec());
                }
                return Err(MemError::InvalidRoot);
            }
            i += 1;
        }
        proof {
            assert forall|j: int| 0 <= j < rs0.len() implies is_start(
                ws0,
                0,
                sl,
                rs0[j].addr_spec(),
            ) by {
                assert(rs0[j].gen_spec() == gen0);
            }
        }
        let cap = target_capacity;
        let new_gen = self.gen + 1;
        let ghost gen1 = new_gen as int;
        let mut dst: Vec<u64> = Vec::new();
        let mut fwd: Vec<usize> = vec![0usize; self.words.len()];
        let mut queue: Vec<usize> = Vec::new();
        let mut new_roots: Vec<Ptr<Any>> = Vec::new();
        proof {
            assert forall|x: int| 0 <= x < sl implies fwd@[x] == 0 by {
                assert(cloned(0usize, fwd@[x]));
            }
            assert(fwd_map_ok(ws0, fwd@, dst@));
            assert forall|d: int| !covered(ws0, fwd@).contains(d) by {
                if covered(ws0, fwd@).contains(d) {
                    let x = choose|x: int|
                        0 <= x < ws0.len() && #[trigger] fwd@[x] != 0 && x <= d < x + csize(
                            ws0,
                            x,
                        );
                }
            }
            assert(covered(ws0, fwd@) =~= Set::empty());
        }

        // Copy each root's chunk (or find its copy) and rewrite the root.
        let mut i: usize = 0;
        while i < roots.len()
            invariant
                *self == *old(self),
                roots@ == rs0,
                rs0 == old(roots)@,
                i <= rs0.len(),
                self.inv(),
                gen0 == old(self).gen_spec(),
                ws0 == self.heap(),
                sl == ws0.len() as int,
                gen0 == self.gen_spec(),
                gen1 == gen0 + 1,
                new_gen as int == gen1,
                rset == root_addrs(rs0),
                forall|j: int| 0 <= j < rs0.len() ==> (#[trigger] rs0[j].gen_spec()) == gen0,
                forall|j: int|
                    0 <= j < rs0.len() ==> is_start(ws0, 0, sl, (#[trigger] rs0[j]).addr_spec()),
                cap == target_capacity,
                dst@.len() <= cap,
                dst@.len() == covered(ws0, fwd@).len(),
                fwd_map_ok(ws0, fwd@, dst@),
                copy_content(ws0, fwd@, dst@, 0),
                dom_reachable(ws0, fwd@, rset),
                pending_ok(ws0, fwd@, queue@),
                forall|qi: int|
                    0 <= qi < queue@.len() ==> (((#[trigger] queue@[qi]) as int) < sl && fwd@[
                    queue@[qi] as int] != 0),
                new_roots@.len() == i,
                forall|j: int|
                    0 <= j < i ==> fwd@[(#[trigger] rs0[j]).addr_spec()] != 0
                        && new_roots@[j].addr_spec() == fwd@[rs0[j].addr_spec()] - 1
                        && new_roots@[j].gen_spec() == gen1,
            decreases rs0.len() - i,
        {
            let a = roots[i].addr;
            proof {
                assert(is_start(ws0, 0, sl, a as int));
                lemma_start_props(ws0, 0, sl, a as int);
            }
            let was_new = {
                let e = fwd[a];
                e == 0
            };
            let ghost fwd_b = fwd@;
            let ghost dst_b = dst@;
            let ghost q_b = queue@;
            let n = match copy_or_forward(&self.words, &mut dst, &mut fwd, a, cap) {
                Result::Ok(n) => n,
                Result::Err(e) => {
                    proof {
                        lemma_no_overflow_when_heap_fits(ws0, fwd_b, dst_b, a as int, cap as int);
                    }
                    return Err(e);
                },
            };
            if was_new {
                queue.push(a);
            }
            let ghost nr_b = new_roots@;
            new_roots.push(Ptr { addr: n, gen: new_gen, elem: PhantomData });
            proof {
                if was_new {
                    lemma_fwd_sources(ws0, fwd_b, dst_b);
                    lemma_covered_extend(ws0, fwd_b, fwd@, a as int);
                }
                assert forall|x: int| 0 <= x < sl && #[trigger] fwd@[x] != 0 implies
                    chunk_state_ok(ws0, fwd@, dst@, 0, x) by {
                    if fwd_b[x] != 0 {
                        lemma_state_preserved(ws0, fwd_b, dst_b, fwd@, dst@, 0, x);
                    } else {
                        assert(x == a as int);
                        assert(chunk_verbatim(ws0, fwd@, dst@, x));
                    }
                }
                assert(rset.contains(a as int));
                lemma_root_reachable(ws0, rset, a as int);
                assert forall|x: int| 0 <= x < sl && #[trigger] fwd@[x] != 0 implies reachable(
                    ws0,
                    rset,
                    x,
                ) by {
                    if fwd_b[x] == 0 {
                        assert(x == a as int);
                    }
                }
                assert forall|x: int|
                    0 <= x < sl && #[trigger] fwd@[x] != 0 implies cells_resolved(ws0, fwd@, x)
                    || queued(queue@, x) by {
                    if fwd_b[x] != 0 {
                        if cells_resolved(ws0, fwd_b, x) {
                            assert(fwd_entry_ok(ws0, fwd_b, dst_b, x));
                            lemma_resolved_monotone(ws0, fwd_b, fwd@, x);
                        } else {
                            let qi = choose|qi: int|
                                0 <= qi < q_b.len() && ((#[trigger] q_b[qi]) as int) == x;
                            assert(queue@[qi] as int == x);
                        }
                    } else {
                        assert(x == a as int);
                        assert(queue@[queue@.len() - 1] as int == x);
                    }
                }
                assert forall|j: int|
                    0 <= j <= i implies fwd@[(#[trigger] rs0[j]).addr_spec()] != 0
                    && new_roots@[j].addr_spec() == fwd@[rs0[j].addr_spec()] - 1
                    && new_roots@[j].gen_spec() == gen1 by {
                    assert(is_start(ws0, 0, sl, rs0[j].addr_spec()));
                    lemma_start_props(ws0, 0, sl, rs0[j].addr_spec());
                    if j < i {
                        assert(fwd_b[rs0[j].addr_spec()] != 0);
                        assert(nr_b[j].addr_spec() == fwd_b[rs0[j].addr_spec()] - 1);
                        assert(nr_b[j].gen_spec() == gen1);
                        assert(new_roots@[j] == nr_b[j]);
                        assert(fwd@[rs0[j].addr_spec()] == fwd_b[rs0[j].addr_spec()]);
                    } else {
                        assert(new_roots@[j].addr_spec() == n as int);
                    }
                }
            }
            i += 1;
        }

        // Drain the worklist: resolve every copied chunk's references,
        // copying targets not yet copied.
        while queue.len() > 0
            invariant
                *self == *old(self),
                self.inv(),
                roots@ == rs0,
                rs0 == old(roots)@,
                gen0 == old(self).gen_spec(),
                forall|j: int| 0 <= j < rs0.len() ==> (#[trigger] rs0[j].gen_spec()) == gen0,
                forall|j: int|
                    0 <= j < rs0.len() ==> is_start(ws0, 0, sl, (#[trigger] rs0[j]).addr_spec()),
                ws0 == self.heap(),
                sl == ws0.len() as int,
                rset == root_addrs(rs0),
                cap == target_capacity,
                dst@.len() <= cap,
                dst@.len() == covered(ws0, fwd@).len(),
                fwd_map_ok(ws0, fwd@, dst@),
                copy_content(ws0, fwd@, dst@, 0),
                dom_reachable(ws0, fwd@, rset),
                pending_ok(ws0, fwd@, queue@),
                forall|qi: int|
                    0 <= qi < queue@.len() ==> (((#[trigger] queue@[qi]) as int) < sl && fwd@[
                    queue@[qi] as int] != 0),
                new_roots@.len() == rs0.len(),
                forall|j: int|
                    0 <= j < rs0.len() ==> fwd@[(#[trigger] rs0[j]).addr_spec()] != 0
                        && new_roots@[j].addr_spec() == fwd@[rs0[j].addr_spec()] - 1
                        && new_roots@[j].gen_spec() == gen1,
            decreases cap - dst@.len(), queue@.len(),
        {
            let ghost q_full = queue@;
            let ghost dst_iter0 = dst@;
            let x = match queue.pop() {
                Option::Some(x) => x,
                Option::None => {
                    proof {
                        assert(false);
                    }
                    0usize
                },
            };
            proof {
                assert(fwd@[x as int] != 0);
                assert(fwd_entry_ok(ws0, fwd@, dst@, x as int));
                lemma_start_props(ws0, 0, sl, x as int);
                assert(queue@ =~= q_full.subrange(0, q_full.len() - 1));
                assert forall|y: int|
                    0 <= y < sl && #[trigger] fwd@[y] != 0 && y != x as int implies cells_resolved(
                    ws0,
                    fwd@,
                    y,
                ) || queued(queue@, y) by {
                    if !cells_resolved(ws0, fwd@, y) {
                        let qi = choose|qi: int|
                            0 <= qi < q_full.len() && ((#[trigger] q_full[qi]) as int) == y;
                        if qi == q_full.len() - 1 {
                            assert(y == x as int);
                        } else {
                            assert(queue@[qi] as int == y);
                        }
                    }
                }
            }
            let hdr = self.words[x];
            proof {
                assert((hdr >> 8u64) as int == csize(ws0, x as int));
                assert(csize(ws0, x as int) <= sl);
            }
            let s = (hdr >> 8u64) as usize;
            let raw = hdr & 1u64 == 1;
            proof {
                assert(raw == craw(ws0, x as int));
            }
            if !raw {
                let mut j: usize = 0;
                while j < s - 1
                    invariant
                        *self == *old(self),
                        self.inv(),
                        roots@ == rs0,
                        rs0 == old(roots)@,
                        gen0 == old(self).gen_spec(),
                        forall|jj: int|
                            0 <= jj < rs0.len() ==> (#[trigger] rs0[jj].gen_spec()) == gen0,
                        forall|jj: int|
                            0 <= jj < rs0.len() ==> is_start(
                                ws0,
                                0,
                                sl,
                                (#[trigger] rs0[jj]).addr_spec(),
                            ),
                        ws0 == self.heap(),
                        sl == ws0.len() as int,
                        rset == root_addrs(rs0),
                        cap == target_capacity,
                        dst@.len() <= cap,
                        dst@.len() == covered(ws0, fwd@).len(),
                        fwd_map_ok(ws0, fwd@, dst@),
                        copy_content(ws0, fwd@, dst@, 0),
                        dom_reachable(ws0, fwd@, rset),
                        forall|qi: int|
                            0 <= qi < queue@.len() ==> (((#[trigger] queue@[qi]) as int) < sl
                                && fwd@[queue@[qi] as int] != 0),
                        new_roots@.len() == rs0.len(),
                        forall|jj: int|
                            0 <= jj < rs0.len() ==> fwd@[(#[trigger] rs0[jj]).addr_spec()] != 0
                                && new_roots@[jj].addr_spec() == fwd@[rs0[jj].addr_spec()] - 1
                                && new_roots@[jj].gen_spec() == gen1,
                        j <= s - 1,
                        s == csize(ws0, x as int),
                        x as int + s <= sl,
                        is_start(ws0, 0, sl, x as int),
                        !craw(ws0, x as int),
                        fwd@[x as int] != 0,
                        // cells seen so far lead into the table
                        forall|ii: int|
                            0 <= ii < j && #[trigger] cell_word(ws0, x as int, ii) != 0 ==> fwd@[
                                cell_word(ws0, x as int, ii) - 1] != 0,
                        // everything already copied stays copied or resolved
                        forall|y: int|
                            0 <= y < sl && #[trigger] fwd@[y] != 0 && y != x as int ==>
                                cells_resolved(ws0, fwd@, y) || queued(queue@, y),
                        // worklist growth is tied to copies, for termination
                        dst@.len() >= dst_iter0.len(),
                        queue@.len() >= q_full.len() - 1,
                        queue@.len() > q_full.len() - 1 ==> dst@.len() > dst_iter0.len(),
                    decreases s - 1 - j,
                {
                    let w = self.words[x + 1 + j];
                    proof {
                        assert(w == cell_word(ws0, x as int, j as int));
                    }
                    if w != 0 {
                        proof {
                            assert(is_start(ws0, 0, sl, w - 1));
                            lemma_start_props(ws0, 0, sl, w - 1);
                        }
                        let b = (w - 1) as usize;
                        let was_new = {
                            let e = fwd[b];
                            e == 0
                        };
                        let ghost fwd_b = fwd@;
                        let ghost dst_b = dst@;
                        let ghost q_b = queue@;
                        match copy_or_forward(&self.words, &mut dst, &mut fwd, b, cap) {
                            Result::Ok(_) => {},
                            Result::Err(e) => {
                                proof {
                                    lemma_no_overflow_when_heap_fits(
                                        ws0,
                                        fwd_b,
                                        dst_b,
                                        b as int,
                                        cap as int,
                                    );
                                }
                                return Err(e);
                            },
                        }
                        if was_new {
                            queue.push(b);
                        }
                        proof {
                            if was_new {
                                lemma_fwd_sources(ws0, fwd_b, dst_b);
                                lemma_covered_extend(ws0, fwd_b, fwd@, b as int);
                            }
                            assert forall|y: int| 0 <= y < sl && #[trigger] fwd@[y] != 0 implies
                                chunk_state_ok(ws0, fwd@, dst@, 0, y) by {
                                if fwd_b[y] != 0 {
                                    lemma_state_preserved(ws0, fwd_b, dst_b, fwd@, dst@, 0, y);
                                } else {
                                    assert(y == b as int);
                                    assert(chunk_verbatim(ws0, fwd@, dst@, y));
                                }
                            }
                            assert forall|jj: int|
                                0 <= jj < rs0.len() implies fwd@[(
                            #[trigger] rs0[jj]).addr_spec()] != 0 && new_roots@[jj].addr_spec()
                                == fwd@[rs0[jj].addr_spec()] - 1 && new_roots@[jj].gen_spec()
                                == gen1 by {
                                assert(is_start(ws0, 0, sl, rs0[jj].addr_spec()));
                                lemma_start_props(ws0, 0, sl, rs0[jj].addr_spec());
                                assert(fwd_b[rs0[jj].addr_spec()] != 0);
                                assert(fwd@[rs0[jj].addr_spec()] == fwd_b[rs0[jj].addr_spec()]);
                            }
                            assert forall|ii: int|
                                0 <= ii <= j && #[trigger] cell_word(ws0, x as int, ii) != 0
                                implies fwd@[cell_word(ws0, x as int, ii) - 1] != 0 by {
                                let wi = cell_word(ws0, x as int, ii);
                                assert(is_start(ws0, 0, sl, wi - 1));
                                lemma_start_props(ws0, 0, sl, wi - 1);
                                if ii < j {
                                    assert(fwd_b[wi - 1] != 0);
                                } else {
                                    assert(wi == w);
                                }
                            }
                            assert(edge(ws0, x as int, b as int));
                            lemma_reachable_step(ws0, rset, x as int, b as int);
                            assert forall|y: int|
                                0 <= y < sl && #[trigger] fwd@[y] != 0 implies reachable(
                                ws0,
                                rset,
                                y,
                            ) by {
                                if fwd_b[y] == 0 {
                                    assert(y == b as int);
                                }
                            }
                            assert forall|y: int|
                                0 <= y < sl && #[trigger] fwd@[y] != 0 && y != x as int implies
                                cells_resolved(ws0, fwd@, y) || queued(queue@, y) by {
                                if fwd_b[y] != 0 {
                                    if cells_resolved(ws0, fwd_b, y) {
                                        assert(fwd_entry_ok(ws0, fwd_b, dst_b, y));
                                        lemma_resolved_monotone(ws0, fwd_b, fwd@, y);
                                    } else {
                                        let qi = choose|qi: int|
                                            0 <= qi < q_b.len() && ((#[trigger] q_b[qi]) as int)
                                                == y;
                                        assert(queue@[qi] as int == y);
                                    }
                                } else {
                                    assert(y == b as int);
                                    assert(queue@[queue@.len() - 1] as int == y);
                                }
                            }
                        }
                    }
                    j += 1;
                }
                proof {
                    assert(cells_resolved(ws0, fwd@, x as int));
                }
            }
            proof {
                assert(cells_resolved(ws0, fwd@, x as int));
                assert forall|y: int| 0 <= y < sl && #[trigger] fwd@[y] != 0 implies
                    cells_resolved(ws0, fwd@, y) || queued(queue@, y) by {
                    if y == x as int {
                        assert(cells_resolved(ws0, fwd@, y));
                    }
                }
            }
        }

        // Scan the new block, rewriting every cell through the table.
        let dl = dst.len();
        let ghost fwd3 = fwd@;
        proof {
            assert forall|x: int| 0 <= x < sl && #[trigger] fwd@[x] != 0 implies cells_resolved(
                ws0,
                fwd@,
                x,
            ) by {
                assert(!queued(queue@, x));
            }
            assert(parses(dst@, 0, 0));
        }
        let mut scan: usize = 0;
        while scan < dl
            invariant
                *self == *old(self),
                self.inv(),
                roots@ == rs0,
                rs0 == old(roots)@,
                gen0 == old(self).gen_spec(),
                gen1 == gen0 + 1,
                new_gen as int == gen1,
                forall|j: int| 0 <= j < rs0.len() ==> (#[trigger] rs0[j].gen_spec()) == gen0,
                forall|j: int|
                    0 <= j < rs0.len() ==> is_start(ws0, 0, sl, (#[trigger] rs0[j]).addr_spec()),
                ws0 == self.heap(),
                sl == ws0.len() as int,
                rset == root_addrs(rs0),
                fwd@ == fwd3,
                dl == dst@.len(),
                dst@.len() <= cap,
                scan <= dl,
                fwd_map_ok(ws0, fwd@, dst@),
                parses(dst@, 0, scan as int),
                parses(dst@, scan as int, dl as int),
                copy_content(ws0, fwd@, dst@, scan as int),
                dom_reachable(ws0, fwd@, rset),
                forall|x: int|
                    0 <= x < sl && #[trigger] fwd@[x] != 0 ==> cells_resolved(ws0, fwd@, x),
                new_roots@.len() == rs0.len(),
                forall|jj: int|
                    0 <= jj < rs0.len() ==> fwd@[(#[trigger] rs0[jj]).addr_spec()] != 0
                        && new_roots@[jj].addr_spec() == fwd@[rs0[jj].addr_spec()] - 1
                        && new_roots@[jj].gen_spec() == gen1,
            decreases dl - scan,
        {
            proof {
                assert(is_start(dst@, scan as int, dl as int, scan as int));
                lemma_parse_concat(dst@, 0, scan as int, dl as int);
                assert(is_start(dst@, 0, dl as int, scan as int));
            }
            let ghost x0 = choose|x: int|
                0 <= x < sl && #[trigger] fwd3[x] != 0 && fwd3[x] - 1 == scan as int;
            proof {
                assert(fwd_entry_ok(ws0, fwd@, dst@, x0));
                lemma_start_props(ws0, 0, sl, x0);
                lemma_start_props(dst@, 0, dl as int, scan as int);
                assert(dst@[scan as int] == ws0[x0]);
                assert(csize(dst@, scan as int) == csize(ws0, x0));
            }
            let hdr = dst[scan];
            let s = (hdr >> 8u64) as usize;
            let raw = hdr & 1u64 == 1;
            proof {
                assert(s == csize(ws0, x0));
                assert(raw == craw(ws0, x0));
                assert(scan + s <= dl);
                assert(chunk_state_ok(ws0, fwd@, dst@, scan as int, x0));
                assert(!(fwd@[x0] - 1 + csize(ws0, x0) <= scan as int));
                assert(chunk_verbatim(ws0, fwd@, dst@, x0));
                assert forall|ii: int|
                    0 <= ii < s - 1 implies #[trigger] cell_word(dst@, scan as int, ii)
                    == cell_word(ws0, x0, ii) by {
                    assert(chunk_word(dst@, scan as int, 1 + ii) == chunk_word(ws0, x0, 1 + ii));
                }
            }
            if !raw {
                let mut j: usize = 0;
                while j < s - 1
                    invariant
                        *self == *old(self),
                        self.inv(),
                        ws0 == self.heap(),
                        sl == ws0.len() as int,
                        fwd@ == fwd3,
                        dl == dst@.len(),
                        dst@.len() <= cap,
                        scan + s <= dl,
                        j <= s - 1,
                        0 <= x0 < sl,
                        fwd@[x0] != 0,
                        fwd@[x0] - 1 == scan as int,
                        is_start(ws0, 0, sl, x0),
                        is_start(dst@, 0, dl as int, scan as int),
                        !craw(ws0, x0),
                        s == csize(ws0, x0),
                        fwd_map_ok(ws0, fwd@, dst@),
                        parses(dst@, 0, scan as int),
                        parses(dst@, scan as int, dl as int),
                        forall|x: int|
                            0 <= x < sl && #[trigger] fwd@[x] != 0 ==> cells_resolved(
                                ws0,
                                fwd@,
                                x,
                            ),
                        forall|ii: int|
                            0 <= ii < j ==> #[trigger] cell_forwarded(ws0, fwd@, dst@, x0, ii),
                        forall|ii: int|
                            j <= ii < s - 1 ==> #[trigger] cell_word(dst@, scan as int, ii)
                                == cell_word(ws0, x0, ii),
                        forall|y: int|
                            0 <= y < sl && #[trigger] fwd@[y] != 0 && y != x0 ==> chunk_state_ok(
                                ws0,
                                fwd@,
                                dst@,
                                scan as int,
                                y,
                            ),
                    decreases s - 1 - j,
                {
                    let w = dst[scan + 1 + j];
                    proof {
                        assert(w == cell_word(dst@, scan as int, j as int));
                        assert(w == cell_word(ws0, x0, j as int));
                    }
                    if w != 0 {
                        proof {
                            assert(cells_resolved(ws0, fwd@, x0));
                            assert(fwd@[w - 1] != 0);
                            assert(is_start(ws0, 0, sl, w - 1));
                            lemma_start_props(ws0, 0, sl, w - 1);
                        }
                        let b = (w - 1) as usize;
                        let t = fwd[b];
                        let ghost dst_b = dst@;
                        let idx = scan + 1 + j;
                        dst[idx] = t as u64;
                        proof {
                            lemma_cell_rewrite(
                                ws0,
                                fwd3,
                                dst_b,
                                dst@,
                                scan as int,
                                x0,
                                j as int,
                                t as int,
                            );
                        }
                    } else {
                        proof {
                            assert(cell_forwarded(ws0, fwd@, dst@, x0, j as int));
                        }
                    }
                    j += 1;
                }
            }
            proof {
                let scan2 = scan as int + s;
                assert(parses(dst@, scan2, scan2));
                assert(parses(dst@, scan as int, scan2));
                lemma_parse_concat(dst@, 0, scan as int, scan2);
                assert(parses(dst@, scan2, dl as int));
                if !craw(ws0, x0) {
                    assert(chunk_done(ws0, fwd@, dst@, x0));
                }
                assert forall|y: int| 0 <= y < sl && #[trigger] fwd@[y] != 0 implies
                    chunk_state_ok(ws0, fwd@, dst@, scan2, y) by {
                    if y == x0 {
                        if craw(ws0, x0) {
                            assert(chunk_state_ok(ws0, fwd@, dst@, scan as int, x0));
                            assert(chunk_verbatim(ws0, fwd@, dst@, x0));
                        } else {
                            assert(chunk_done(ws0, fwd@, dst@, x0));
                        }
                    } else {
                        assert(chunk_state_ok(ws0, fwd@, dst@, scan as int, y));
                        assert(fwd_entry_ok(ws0, fwd@, dst@, y));
                        lemma_start_props(ws0, 0, sl, y);
                        assert(csize(dst@, scan as int) == s);
                        let ny = fwd@[y] - 1;
                        assert(csize(dst@, ny) == csize(ws0, y));
                        if ny < scan as int {
                            lemma_starts_disjoint(dst@, 0, dl as int, ny, scan as int);
                            assert(ny + csize(ws0, y) <= scan as int);
                        } else {
                            assert(fwd@[y] != 0 && fwd@[x0] != 0);
                            assert(fwd@[y] == fwd@[x0] ==> y == x0);
                            assert(ny != scan as int);
                            lemma_starts_disjoint(dst@, 0, dl as int, scan as int, ny);
                            assert(ny >= scan as int + s);
                        }
                    }
                }
            }
            scan = scan + s;
        }

        // Swap: the new block and the rewritten roots become current.
        self.words = dst;
        self.capacity = cap;
        self.gen = new_gen;
        *roots = new_roots;
        proof {
            let ws1 = self.heap();
            let dl_ = ws1.len() as int;
            assert forall|b: int, ii: int|
                is_start(ws1, 0, dl_, b) && !craw(ws1, b) && 0 <= ii < csize(ws1, b) - 1
                    && #[trigger] cell_word(ws1, b, ii) != 0 implies is_start(
                ws1,
                0,
                dl_,
                cell_word(ws1, b, ii) - 1,
            ) by {
                let x = choose|x: int| 0 <= x < sl && #[trigger] fwd3[x] != 0 && fwd3[x] - 1 == b;
                assert(fwd_entry_ok(ws0, fwd@, ws1, x));
                assert(chunk_state_ok(ws0, fwd@, ws1, dl_, x));
                lemma_start_props(ws1, 0, dl_, b);
                assert(!craw(ws0, x));
                assert(cell_forwarded(ws0, fwd@, ws1, x, ii));
                let w = cell_word(ws0, x, ii);
                assert(w != 0);
                assert(fwd_entry_ok(ws0, fwd@, ws1, w - 1));
            }
            assert(self.inv());
            let f = Map::<int, int>::new(
                |x: int| 0 <= x < sl && fwd3[x] != 0,
                |x: int| fwd3[x] - 1,
            );
            assert forall|a: int| #[trigger] f.dom().contains(a) implies copied_chunk(
                ws0,
                ws1,
                f,
                a,
            ) by {
                assert(fwd_entry_ok(ws0, fwd@, ws1, a));
                assert(chunk_state_ok(ws0, fwd@, ws1, dl_, a));
                lemma_start_props(ws1, 0, dl_, f[a]);
                if craw(ws0, a) {
                    assert(chunk_verbatim(ws0, fwd@, ws1, a));
                } else {
                    assert(chunk_done(ws0, fwd@, ws1, a));
                    assert forall|ii: int| 0 <= ii < csize(ws0, a) - 1 implies
                        #[trigger] cell_mapped(ws0, ws1, f, a, ii) by {
                        assert(cell_forwarded(ws0, fwd@, ws1, a, ii));
                    }
                }
            }
            assert forall|b: int| #[trigger] is_start(ws1, 0, dl_, b) implies exists|a: int|
                #[trigger] f.dom().contains(a) && f[a] == b by {
                let x = choose|x: int| 0 <= x < sl && #[trigger] fwd3[x] != 0 && fwd3[x] - 1 == b;
                assert(f.dom().contains(x) && f[x] == b);
            }
            assert forall|a: int| reachable(ws0, rset, a) implies #[trigger] f.dom().contains(
                a,
            ) by {
                assert forall|r_: int| rset.contains(r_) implies f.dom().contains(r_) by {
                    let ri = choose|ri: int|
                        0 <= ri < rs0.len() && (#[trigger] rs0[ri].addr_spec()) == r_;
                    assert(fwd3[rs0[ri].addr_spec()] != 0);
                    assert(is_start(ws0, 0, sl, rs0[ri].addr_spec()));
                    lemma_start_props(ws0, 0, sl, rs0[ri].addr_spec());
                }
                assert forall|x: int, y: int|
                    f.dom().contains(x) && edge(ws0, x, y) implies f.dom().contains(y) by {
                    assert(fwd@[x] != 0);
                    assert(cells_resolved(ws0, fwd@, x));
                    let ii = choose|ii: int|
                        0 <= ii < csize(ws0, x) - 1 && #[trigger] cell_word(ws0, x, ii) == y + 1;
                    assert(fwd3[cell_word(ws0, x, ii) - 1] != 0);
                    assert(is_start(ws0, 0, sl, cell_word(ws0, x, ii) - 1));
                    lemma_start_props(ws0, 0, sl, cell_word(ws0, x, ii) - 1);
                }
                lemma_reachable_in_closed_set(ws0, rset, f.dom(), a);
            }
            assert forall|i_: int| 0 <= i_ < rs0.len() implies #[trigger] f.dom().contains(
                rs0[i_].addr_spec(),
            ) && roots@[i_].addr_spec() == f[rs0[i_].addr_spec()] && roots@[i_].gen_spec()
                == gen1 by {
                assert(fwd3[rs0[i_].addr_spec()] != 0);
                assert(is_start(ws0, 0, sl, rs0[i_].addr_spec()));
                lemma_start_props(ws0, 0, sl, rs0[i_].addr_spec());
            }
            assert forall|a1: int, a2: int|
                f.dom().contains(a1) && f.dom().contains(a2) && f[a1] == f[a2] implies a1
                == a2 by {
                assert(fwd3[a1] != 0 && fwd3[a2] != 0);
                assert(fwd3[a1] == fwd3[a2]);
            }
            assert forall|a: int| #[trigger] f.dom().contains(a) implies reachable(
                ws0,
                rset,
                a,
            ) by {
                assert(fwd@[a] != 0);
            }
            assert(collected(ws0, rs0, ws1, gen1, roots@, f));
            assert(self.gen_spec() == gen1);
            assert forall|d: int| closure_words(ws0, f.dom()).contains(d) implies covered(
                ws0,
                fwd3,
            ).contains(d) by {
                let x = choose|x: int| #[trigger] f.dom().contains(x) && x <= d < x + csize(
                    ws0,
                    x,
                );
                assert(fwd3[x] != 0 && x <= d < x + csize(ws0, x));
            }
            assert forall|d: int| covered(ws0, fwd3).contains(d) implies closure_words(
                ws0,
                f.dom(),
            ).contains(d) by {
                let x = choose|x: int|
                    0 <= x < ws0.len() && #[trigger] fwd3[x] != 0 && x <= d < x + csize(ws0, x);
                assert(f.dom().contains(x) && x <= d < x + csize(ws0, x));
            }
            assert(closure_words(ws0, f.dom()) =~= covered(ws0, fwd3));
            assert(self.heap().len() == closure_words(ws0, f.dom()).len());
            assert(collected(old(self).heap(), old(roots)@, self.heap(), self.gen_spec(), roots@, f));
            assert forall|i_: int| 0 <= i_ < roots@.len() implies (
            #[trigger] roots@[i_]).valid_in(*self) by {
                assert(fwd3[rs0[i_].addr_spec()] != 0);
                assert(is_start(ws0, 0, sl, rs0[i_].addr_spec()));
                lemma_start_props(ws0, 0, sl, rs0[i_].addr_spec());
                assert(fwd@[rs0[i_].addr_spec()] != 0);
                assert(fwd_entry_ok(ws0, fwd@, ws1, rs0[i_].addr_spec()));
            }
        }
        Ok(())
    }
}

/// The chunk address an allocation result points at, for stating contracts
/// uniformly over differently typed handles.
pub open spec fn result_addr<T>(r: Result<Ptr<T>, MemError>) -> Result<int, MemError> {
    match r {
        Result::Ok(p) => Result::Ok(p.addr_spec()),
        Result::Err(e) => Result::Err(e),
    }
}

impl<T> Ptr<T> {
    /// Address equality: two handles are equal exactly when they reference
    /// the same chunk of the same arena generation.
    pub fn equal<S>(&self, that: &Ptr<S>) -> (r: bool)
        ensures
            r == (self.addr_spec() == that.addr_spec() && self.gen_spec() == that.gen_spec()),
    {
        self.addr == that.addr && self.gen == that.gen
    }

    /// Erase the static type while preserving the address.
    pub fn any(&self) -> (q: Ptr<Any>)
        ensures
            q.addr_spec() == self.addr_spec(),
            q.gen_spec() == self.gen_spec(),
    {
        Ptr { addr: self.addr, gen: self.gen, elem: PhantomData }
    }

    /// The tag stored in the chunk's header.
    pub fn tag(&self, mem: &Memory) -> (t: u64)
        requires
            mem.inv(),
            self.valid_in(*mem),
        ensures
            t == ctag(mem.heap(), self.addr_spec()),
    {
        proof {
            lemma_start_props(mem.heap(), 0, mem.heap().len() as int, self.addr_spec());
        }
        let w = self.read_header(mem);
        (w >> 1u64) & 0x7f
    }

    /// The decoded header of the chunk the handle addresses.
    pub fn chunk(&self, mem: &Memory) -> (c: Chunk)
        requires
            mem.inv(),
            self.valid_in(*mem),
        ensures
            c.hdr == decode(mem.heap()[self.addr_spec()]),
            c.hdr.tag == ctag(mem.heap(), self.addr_spec()),
            c.hdr.size == csize(mem.heap(), self.addr_spec()),
            c.hdr.is_raw == craw(mem.heap(), self.addr_spec()),
    {
        let w = self.read_header(mem);
        Chunk { hdr: Header::decode(w) }
    }

    fn read_header(&self, mem: &Memory) -> (w: u64)
        requires
            mem.inv(),
            self.valid_in(*mem),
        ensures
            w == mem.heap()[self.addr_spec()],
    {
        proof {
            lemma_start_props(mem.heap(), 0, mem.heap().len() as int, self.addr_spec());
        }
        mem.words[self.addr]
    }

    /// Runtime tag-checked cast: retypes the handle if and only if the
    /// chunk's stored tag equals `S`'s declared tag, and otherwise reports
    /// `TypeMismatch` so the caller decides whether that is fatal.
    pub fn cast<S: Element>(&self, mem: &Memory) -> (r: Result<Ptr<S>, MemError>)
        requires
            mem.inv(),
            self.valid_in(*mem),
        ensures
            r is Ok <==> ctag(mem.heap(), self.addr_spec()) == S::tag_spec(),
            r matches Result::Ok(q) ==> q.addr_spec() == self.addr_spec() && q.gen_spec()
                == self.gen_spec() && q.typed_in(*mem),
            r matches Result::Err(e) ==> e == MemError::TypeMismatch,
    {
        let t = self.tag(mem);
        if t == S::tag() {
            Ok(Ptr { addr: self.addr, gen: self.gen, elem: PhantomData })
        } else {
            Err(MemError::TypeMismatch)
        }
    }

    /// Read the `i`-th payload word of the handle's chunk.
    pub fn read(&self, mem: &Memory, i: usize) -> (v: u64)
        requires
            mem.inv(),
            self.valid_in(*mem),
            i < csize(mem.heap(), self.addr_spec()) - 1,
        ensures
            v == mem.heap()[self.addr_spec() + 1 + i],
    {
        proof {
            lemma_start_props(mem.heap(), 0, mem.heap().len() as int, self.addr_spec());
        }
        mem.words[self.addr + 1 + i]
    }

    /// Overwrite the `i`-th payload word of a raw chunk.  Raw payloads hold
    /// scalar data, never references, so this cannot disturb the graph.
    pub fn modify(&self, mem: &mut Memory, i: usize, v: u64)
        requires
            old(mem).inv(),
            self.valid_in(*old(mem)),
            craw(old(mem).heap(), self.addr_spec()),
            i < csize(old(mem).heap(), self.addr_spec()) - 1,
        ensures
            final (mem).inv(),
            final (mem).cap_spec() == old(mem).cap_spec(),
            final (mem).gen_spec() == old(mem).gen_spec(),
            final (mem).heap().len() == old(mem).heap().len(),
            final (mem).heap()[self.addr_spec() + 1 + i] == v,
            forall|x: int|
                0 <= x < old(mem).heap().len() && x != self.addr_spec() + 1 + i ==> final (mem).heap()[x] == old(mem).heap()[x],
            forall|a: int|
                is_start(final (mem).heap(), 0, final (mem).heap().len() as int, a) <==> is_start(
                    old(mem).heap(),
                    0,
                    old(mem).heap().len() as int,
                    a,
                ),
    {
        proof {
            lemma_start_props(mem.heap(), 0, mem.heap().len() as int, self.addr_spec());
        }
        let idx = self.addr + 1 + i;
        mem.words[idx] = v;
        proof {
            let h0 = old(mem).heap();
            let h1 = mem.heap();
            let len = h0.len() as int;
            lemma_payload_write(h0, h1, self.addr_spec(), idx as int);
            assert forall|a: int, j: int|
                is_start(h1, 0, len, a) && !craw(h1, a) && 0 <= j < csize(h1, a) - 1
                    && #[trigger] cell_word(h1, a, j) != 0 implies is_start(
                h1,
                0,
                len,
                cell_word(h1, a, j) - 1,
            ) by {
                assert(is_start(h0, 0, len, a));
                lemma_start_props(h0, 0, len, a);
                assert(h1[a] == h0[a]);
                if a + 1 + j == idx as int {
                    let sa = self.addr_spec();
                    lemma_start_props(h0, 0, len, sa);
                    if a < sa {
                        lemma_starts_disjoint(h0, 0, len, a, sa);
                    }
                    if a > sa {
                        lemma_starts_disjoint(h0, 0, len, sa, a);
                    }
                    assert(a == sa);
                    assert(false);
                } else {
                    assert(cell_word(h1, a, j) == cell_word(h0, a, j));
                    assert(is_start(h0, 0, len, cell_word(h0, a, j) - 1));
                }
            }
        }
    }

    /// Read the `i`-th cell of a traced chunk, decoded.
    pub fn cell_get(&self, mem: &Memory, i: usize) -> (c: Cell)
        requires
            mem.inv(),
            self.valid_in(*mem),
            !craw(mem.heap(), self.addr_spec()),
            i < csize(mem.heap(), self.addr_spec()) - 1,
        ensures
            c.word_spec() == cell_word(mem.heap(), self.addr_spec(), i as int) as int,
            c matches Cell::Holds(q) ==> q.valid_in(*mem) && q.gen_spec() == mem.gen_spec(),
    {
        let w = self.read(mem, i);
        if w == 0 {
            Cell::Empty
        } else {
            proof {
                assert(cell_word(mem.heap(), self.addr_spec(), i as int) == w);
                assert(is_start(mem.heap(), 0, mem.heap().len() as int, w - 1));
                lemma_start_props(mem.heap(), 0, mem.heap().len() as int, w - 1);
            }
            Cell::Holds(Ptr { addr: (w - 1) as usize, gen: mem.gen, elem: PhantomData })
        }
    }

    /// Overwrite the `i`-th cell of a traced chunk.  This is the only
    /// sanctioned way to introduce or replace an edge in the object graph:
    /// it is exactly what the collector's tracer observes.
    pub fn cell_set(&self, mem: &mut Memory, i: usize, c: &Cell)
        requires
            old(mem).inv(),
            self.valid_in(*old(mem)),
            !craw(old(mem).heap(), self.addr_spec()),
            i < csize(old(mem).heap(), self.addr_spec()) - 1,
            c matches Cell::Holds(q) ==> q.valid_in(*old(mem)),
        ensures
            final (mem).inv(),
            final (mem).cap_spec() == old(mem).cap_spec(),
            final (mem).gen_spec() == old(mem).gen_spec(),
            final (mem).heap().len() == old(mem).heap().len(),
            cell_word(final (mem).heap(), self.addr_spec(), i as int) as int == c.word_spec(),
            forall|x: int|
                0 <= x < old(mem).heap().len() && x != self.addr_spec() + 1 + i ==> final (mem).heap()[x] == old(mem).heap()[x],
            forall|a: int|
                is_start(final (mem).heap(), 0, final (mem).heap().len() as int, a) <==> is_start(
                    old(mem).heap(),
                    0,
                    old(mem).heap().len() as int,
                    a,
                ),
    {
        proof {
            lemma_start_props(mem.heap(), 0, mem.heap().len() as int, self.addr_spec());
            if let Cell::Holds(q) = c {
                lemma_start_props(mem.heap(), 0, mem.heap().len() as int, q.addr_spec());
            }
        }
        let w: u64 = match c {
            Cell::Empty => 0u64,
            Cell::Holds(q) => (q.addr as u64) + 1,
        };
        let idx = self.addr + 1 + i;
        mem.words[idx] = w;
        proof {
            let h0 = old(mem).heap();
            let h1 = mem.heap();
            let len = h0.len() as int;
            lemma_payload_write(h0, h1, self.addr_spec(), idx as int);
            assert forall|a: int, j: int|
                is_start(h1, 0, len, a) && !craw(h1, a) && 0 <= j < csize(h1, a) - 1
                    && #[trigger] cell_word(h1, a, j) != 0 implies is_start(
                h1,
                0,
                len,
                cell_word(h1, a, j) - 1,
            ) by {
                assert(is_start(h0, 0, len, a));
                lemma_start_props(h0, 0, len, a);
                assert(h1[a] == h0[a]);
                if a + 1 + j == idx as int {
                    match c {
                        Cell::Empty => {
                            assert(cell_word(h1, a, j) == 0);
                        },
                        Cell::Holds(q) => {
                            assert(cell_word(h1, a, j) - 1 == q.addr_spec());
                            assert(is_start(h0, 0, len, q.addr_spec()));
                        },
                    }
                } else {
                    assert(cell_word(h1, a, j) == cell_word(h0, a, j));
                    assert(is_start(h0, 0, len, cell_word(h0, a, j) - 1));
                }
            }
        }
    }
}

/// Law: a handle from `allocate::<T>` carries `T`'s declared tag.  A cast
/// back to `T` therefore succeeds, and a cast to any type whose declared tag
/// differs fails: `cast` succeeds exactly on the stored tag.
pub proof fn lemma_allocate_cast<T: Element, S: Element>(m: Memory, p: Ptr<T>)
    requires
        p.typed_in(m),
    ensures
        ctag(m.heap(), p.addr_spec()) == T::tag_spec(),
        (ctag(m.heap(), p.addr_spec()) == S::tag_spec() <==> S::tag_spec() == T::tag_spec()),
{
}

/// Every forwarding entry's source is a chunk start of the old heap.
proof fn lemma_fwd_sources(ws0: Seq<u64>, fwd: Seq<usize>, dst: Seq<u64>)
    requires
        fwd_map_ok(ws0, fwd, dst),
    ensures
        forall|x: int|
            0 <= x < fwd.len() && #[trigger] fwd[x] != 0 ==> is_start(ws0, 0, ws0.len() as int, x),
{
    assert forall|x: int| 0 <= x < fwd.len() && #[trigger] fwd[x] != 0 implies is_start(
        ws0,
        0,
        ws0.len() as int,
        x,
    ) by {
        assert(fwd_entry_ok(ws0, fwd, dst, x));
    }
}

/// When the old heap fits the target capacity, no copy can overflow it:
/// what the new block holds is a set of disjoint old chunks, so it never
/// outgrows the old heap itself.
proof fn lemma_no_overflow_when_heap_fits(
    ws0: Seq<u64>,
    fwd: Seq<usize>,
    dst: Seq<u64>,
    a: int,
    cap: int,
)
    requires
        fwd_map_ok(ws0, fwd, dst),
        parses(ws0, 0, ws0.len() as int),
        is_start(ws0, 0, ws0.len() as int, a),
        fwd[a] == 0,
        dst.len() == covered(ws0, fwd).len(),
        csize(ws0, a) > cap - dst.len(),
    ensures
        ws0.len() > cap,
{
    lemma_start_props(ws0, 0, ws0.len() as int, a);
    lemma_fwd_sources(ws0, fwd, dst);
    let fwd1 = fwd.update(a, 1usize);
    lemma_covered_extend(ws0, fwd, fwd1, a);
    lemma_covered_bound(ws0, fwd1);
}

/// Overwriting one payload-interior word leaves the chunk structure intact:
/// no header sits strictly inside a chunk, so every start survives with its
/// header word unchanged.
proof fn lemma_payload_write(h0: Seq<u64>, h1: Seq<u64>, a: int, idx: int)
    requires
        parses(h0, 0, h0.len() as int),
        h1.len() == h0.len(),
        is_start(h0, 0, h0.len() as int, a),
        a < idx < a + csize(h0, a),
        forall|x: int| 0 <= x < h0.len() && x != idx ==> h1[x] == h0[x],
    ensures
        parses(h1, 0, h1.len() as int),
        forall|b: int|
            is_start(h1, 0, h1.len() as int, b) <==> is_start(h0, 0, h0.len() as int, b),
        forall|b: int| is_start(h0, 0, h0.len() as int, b) ==> h1[b] == h0[b],
{
    let len = h0.len() as int;
    assert forall|b: int| is_start(h0, 0, len, b) implies h1[b] == h0[b] by {
        lemma_start_props(h0, 0, len, b);
        if b < a {
            lemma_starts_disjoint(h0, 0, len, b, a);
        } else if b > a {
            lemma_starts_disjoint(h0, 0, len, a, b);
        }
    }
    lemma_parse_frame(h0, h1, 0, len);
}

} // verus!
