//! The value types hosted on the heap: numbers and cons pairs.  Each only
//! declares its tag and payload size and builds on the arena's operations;
//! the allocator and the collector know nothing about them beyond that.

use vstd::prelude::*;
use crate::memory::{Any, Cell, Element, MemError, Memory, Ptr};
use crate::model::{cell_word, craw, csize};

verus! {

/// A scalar number.  Its chunk is raw — one opaque payload word holding the
/// value — so the collector copies it verbatim and never traces it.
#[derive(Debug)]
pub struct Number;

impl Element for Number {
    open spec fn tag_spec() -> u64 {
        0
    }

    open spec fn size_spec() -> u64 {
        1
    }

    fn tag() -> (t: u64)
        ensures
            t == Self::tag_spec(),
    {
        0
    }

    fn size() -> (s: u64)
        ensures
            s == Self::size_spec(),
    {
        1
    }
}

impl Number {
    /// Allocate a number chunk holding `n`.
    pub fn new(mem: &mut Memory, n: u64) -> (r: Result<Ptr<Number>, MemError>)
        requires
            old(mem).inv(),
        ensures
            final (mem).inv(),
            final (mem).gen_spec() == old(mem).gen_spec(),
            final (mem).cap_spec() == old(mem).cap_spec(),
            match r {
                Result::Ok(p) => {
                    &&& p.typed_in(*final (mem))
                    &&& p.addr_spec() == old(mem).heap().len()
                    &&& craw(final (mem).heap(), p.addr_spec())
                    &&& csize(final (mem).heap(), p.addr_spec()) == 2
                    &&& final (mem).heap().len() == old(mem).heap().len() + 2
                    &&& final (mem).heap().subrange(0, old(mem).heap().len() as int) == old(
                        mem,
                    ).heap()
                    &&& Number::value_spec(*final (mem), p) == n
                    &&& forall|a: int|
                        is_start_of(*final (mem), a) <==> (is_start_of(*old(mem), a) || a
                            == p.addr_spec())
                },
                Result::Err(e) => {
                    &&& *final (mem) == *old(mem)
                    &&& e == MemError::OutOfMemory
                    &&& old(mem).cap_spec() - old(mem).heap().len() < 2
                },
            },
    {
        let p = match mem.allocate_raw::<Number>(0) {
            Result::Ok(p) => p,
            Result::Err(e) => {
                proof {
                    assert(e == MemError::OutOfMemory);
                }
                return Err(e);
            },
        };
        p.modify(mem, 0, n);
        Ok(p)
    }

    /// The number a chunk holds.
    pub open spec fn value_spec(mem: Memory, p: Ptr<Number>) -> u64 {
        cell_word(mem.heap(), p.addr_spec(), 0)
    }

    /// Read the number back out of the heap.
    pub fn value(mem: &Memory, p: &Ptr<Number>) -> (n: u64)
        requires
            mem.inv(),
            p.valid_in(*mem),
            csize(mem.heap(), p.addr_spec()) == 2,
        ensures
            n == Number::value_spec(*mem, *p),
    {
        p.read(mem, 0)
    }
}

/// A start of the arena's chunk run, for stating how allocation extends it.
pub open spec fn is_start_of(mem: Memory, a: int) -> bool {
    crate::model::is_start(mem.heap(), 0, mem.heap().len() as int, a)
}

/// A cons pair.  Its chunk is traced: two cells, car and cdr, each starting
/// empty, through which the collector follows the object graph.
#[derive(Debug)]
pub struct Pair;

impl Element for Pair {
    open spec fn tag_spec() -> u64 {
        1
    }

    open spec fn size_spec() -> u64 {
        2
    }

    fn tag() -> (t: u64)
        ensures
            t == Self::tag_spec(),
    {
        1
    }

    fn size() -> (s: u64)
        ensures
            s == Self::size_spec(),
    {
        2
    }
}

impl Pair {
    /// Allocate a pair chunk with both cells empty.
    pub fn new(mem: &mut Memory) -> (r: Result<Ptr<Pair>, MemError>)
        requires
            old(mem).inv(),
        ensures
            final (mem).inv(),
            final (mem).gen_spec() == old(mem).gen_spec(),
            final (mem).cap_spec() == old(mem).cap_spec(),
            match r {
                Result::Ok(p) => {
                    &&& p.typed_in(*final (mem))
                    &&& p.addr_spec() == old(mem).heap().len()
                    &&& !craw(final (mem).heap(), p.addr_spec())
                    &&& csize(final (mem).heap(), p.addr_spec()) == 3
                    &&& final (mem).heap().len() == old(mem).heap().len() + 3
                    &&& final (mem).heap().subrange(0, old(mem).heap().len() as int) == old(
                        mem,
                    ).heap()
                    &&& cell_word(final (mem).heap(), p.addr_spec(), 0) == 0
                    &&& cell_word(final (mem).heap(), p.addr_spec(), 1) == 0
                    &&& forall|a: int|
                        is_start_of(*final (mem), a) <==> (is_start_of(*old(mem), a) || a
                            == p.addr_spec())
                },
                Result::Err(e) => {
                    &&& *final (mem) == *old(mem)
                    &&& e == MemError::OutOfMemory
                    &&& old(mem).cap_spec() - old(mem).heap().len() < 3
                },
            },
    {
        let p = match mem.allocate::<Pair>(0) {
            Result::Ok(p) => p,
            Result::Err(e) => {
                proof {
                    assert(e == MemError::OutOfMemory);
                }
                return Err(e);
            },
        };
        Ok(p)
    }

    /// The pair's first cell, decoded.
    pub fn car(mem: &Memory, p: &Ptr<Pair>) -> (c: Cell)
        requires
            mem.inv(),
            p.valid_in(*mem),
            !craw(mem.heap(), p.addr_spec()),
            csize(mem.heap(), p.addr_spec()) == 3,
        ensures
            c.word_spec() == cell_word(mem.heap(), p.addr_spec(), 0) as int,
            c matches Cell::Holds(q) ==> q.valid_in(*mem),
    {
        p.cell_get(mem, 0)
    }

    /// The pair's second cell, decoded.
    pub fn cdr(mem: &Memory, p: &Ptr<Pair>) -> (c: Cell)
        requires
            mem.inv(),
            p.valid_in(*mem),
            !craw(mem.heap(), p.addr_spec()),
            csize(mem.heap(), p.addr_spec()) == 3,
        ensures
            c.word_spec() == cell_word(mem.heap(), p.addr_spec(), 1) as int,
            c matches Cell::Holds(q) ==> q.valid_in(*mem),
    {
        p.cell_get(mem, 1)
    }

    /// Point the pair's first cell at `q`.
    pub fn set_car(mem: &mut Memory, p: &Ptr<Pair>, q: &Ptr<Any>)
        requires
            old(mem).inv(),
            p.valid_in(*old(mem)),
            q.valid_in(*old(mem)),
            !craw(old(mem).heap(), p.addr_spec()),
            csize(old(mem).heap(), p.addr_spec()) == 3,
        ensures
            final (mem).inv(),
            final (mem).gen_spec() == old(mem).gen_spec(),
            final (mem).cap_spec() == old(mem).cap_spec(),
            final (mem).heap().len() == old(mem).heap().len(),
            cell_word(final (mem).heap(), p.addr_spec(), 0) == q.addr_spec() + 1,
            forall|x: int|
                0 <= x < old(mem).heap().len() && x != p.addr_spec() + 1 ==> final (mem).heap()[x]
                    == old(mem).heap()[x],
            forall|a: int| is_start_of(*final (mem), a) <==> is_start_of(*old(mem), a),
    {
        p.cell_set(mem, 0, &Cell::Holds(*q));
    }

    /// Point the pair's second cell at `q`.
    pub fn set_cdr(mem: &mut Memory, p: &Ptr<Pair>, q: &Ptr<Any>)
        requires
            old(mem).inv(),
            p.valid_in(*old(mem)),
            q.valid_in(*old(mem)),
            !craw(old(mem).heap(), p.addr_spec()),
            csize(old(mem).heap(), p.addr_spec()) == 3,
        ensures
            final (mem).inv(),
            final (mem).gen_spec() == old(mem).gen_spec(),
            final (mem).cap_spec() == old(mem).cap_spec(),
            final (mem).heap().len() == old(mem).heap().len(),
            cell_word(final (mem).heap(), p.addr_spec(), 1) == q.addr_spec() + 1,
            forall|x: int|
                0 <= x < old(mem).heap().len() && x != p.addr_spec() + 2 ==> final (mem).heap()[x]
                    == old(mem).heap()[x],
            forall|a: int| is_start_of(*final (mem), a) <==> is_start_of(*old(mem), a),
    {
        p.cell_set(mem, 1, &Cell::Holds(*q));
    }
}

} // verus!
