//! A textual renderer for tagged object graphs: numbers print as decimals,
//! pairs as `(car . cdr)`.  The walk is bounded by a fuel budget so that a
//! cyclic graph renders an error instead of running forever; the heap core
//! does not depend on this module.

use vstd::prelude::*;
use crate::grammar::{Number, Pair};
use crate::memory::{Any, Element, MemError, Memory, Ptr};
use crate::model::{cell_word, craw, csize, ctag};

verus! {

/// The character for one decimal digit.
pub open spec fn digit_char(d: nat) -> char {
    if d == 0 {
        '0'
    } else if d == 1 {
        '1'
    } else if d == 2 {
        '2'
    } else if d == 3 {
        '3'
    } else if d == 4 {
        '4'
    } else if d == 5 {
        '5'
    } else if d == 6 {
        '6'
    } else if d == 7 {
        '7'
    } else if d == 8 {
        '8'
    } else {
        '9'
    }
}

/// The decimal digits of `n`, most significant first.
pub open spec fn dec_seq(n: nat) -> Seq<char>
    decreases n,
{
    if n < 10 {
        seq![digit_char(n)]
    } else {
        dec_seq(n / 10).push(digit_char(n % 10))
    }
}

/// What rendering the chunk at `a` yields with the given recursion budget:
/// a number's decimal digits, or `(car . cdr)` for a pair whose cells both
/// hold values — and nothing for an empty cell, an unknown tag, a malformed
/// chunk or an exhausted budget.
pub open spec fn render_spec(ws: Seq<u64>, a: int, fuel: nat) -> Option<Seq<char>>
    decreases fuel,
{
    if fuel == 0 {
        Option::None
    } else if ctag(ws, a) == Number::tag_spec() && craw(ws, a) && csize(ws, a) == 2 {
        Option::Some(dec_seq(cell_word(ws, a, 0) as nat))
    } else if ctag(ws, a) == Pair::tag_spec() && !craw(ws, a) && csize(ws, a) == 3 {
        let w0 = cell_word(ws, a, 0);
        let w1 = cell_word(ws, a, 1);
        if w0 == 0 || w1 == 0 {
            Option::None
        } else {
            match (render_spec(ws, w0 - 1, (fuel - 1) as nat), render_spec(
                ws,
                w1 - 1,
                (fuel - 1) as nat,
            )) {
                (Option::Some(s0), Option::Some(s1)) => Option::Some(
                    seq!['('] + s0 + seq![' ', '.', ' '] + s1 + seq![')'],
                ),
                _ => Option::None,
            }
        }
    } else {
        Option::None
    }
}

/// Append the decimal digits of `n`.
fn push_dec(s: &mut String, n: u64)
    ensures
        final (s)@ == old(s)@ + dec_seq(n as nat),
    decreases n,
{
    if n >= 10 {
        push_dec(s, n / 10);
    }
    let d = n % 10;
    if d == 0 {
        s.append("0");
        proof {
            reveal_strlit("0");
        }
    } else if d == 1 {
        s.append("1");
        proof {
            reveal_strlit("1");
        }
    } else if d == 2 {
        s.append("2");
        proof {
            reveal_strlit("2");
        }
    } else if d == 3 {
        s.append("3");
        proof {
            reveal_strlit("3");
        }
    } else if d == 4 {
        s.append("4");
        proof {
            reveal_strlit("4");
        }
    } else if d == 5 {
        s.append("5");
        proof {
            reveal_strlit("5");
        }
    } else if d == 6 {
        s.append("6");
        proof {
            reveal_strlit("6");
        }
    } else if d == 7 {
        s.append("7");
        proof {
            reveal_strlit("7");
        }
    } else if d == 8 {
        s.append("8");
        proof {
            reveal_strlit("8");
        }
    } else {
        s.append("9");
        proof {
            reveal_strlit("9");
        }
    }
    proof {
        if n < 10 {
            assert(final (s)@ =~= old(s)@ + dec_seq(n as nat));
        } else {
            assert(final (s)@ =~= old(s)@ + dec_seq(n as nat));
        }
    }
}

/// Render the object graph below a handle: decimals for numbers, `(a . b)`
/// for pairs, following cells up to `fuel` levels deep.  Fails — leaving
/// the heap untouched — on an empty cell (`EmptyCellAccess`), a chunk of
/// unknown or malformed shape (`TypeMismatch`), or an exhausted budget
/// (`OutOfMemory`), which is the fate of every cyclic graph.
pub fn render(mem: &Memory, p: &Ptr<Any>, fuel: u64) -> (r: Result<String, MemError>)
    requires
        mem.inv(),
        p.valid_in(*mem),
    ensures
        r matches Result::Ok(s) ==> render_spec(mem.heap(), p.addr_spec(), fuel as nat)
            == Option::Some(s@),
        r is Err ==> render_spec(mem.heap(), p.addr_spec(), fuel as nat) is None,
    decreases fuel,
{
    if fuel == 0 {
        return Err(MemError::OutOfMemory);
    }
    let c = p.chunk(mem);
    let t = c.hdr.tag;
    if t == Number::tag() && c.hdr.is_raw && c.hdr.size == 2 {
        let v = p.read(mem, 0);
        let mut s = String::new();
        push_dec(&mut s, v);
        proof {
            assert(s@ =~= dec_seq(v as nat));
            reveal_with_fuel(render_spec, 2);
            assert(render_spec(mem.heap(), p.addr_spec(), fuel as nat) == Option::Some(s@));
        }
        Ok(s)
    } else if t == Pair::tag() && !c.hdr.is_raw && c.hdr.size == 3 {
        let c0 = p.cell_get(mem, 0);
        let c1 = p.cell_get(mem, 1);
        let q0 = match c0.get() {
            Option::Some(q) => q,
            Option::None => {
                return Err(MemError::EmptyCellAccess);
            },
        };
        let q1 = match c1.get() {
            Option::Some(q) => q,
            Option::None => {
                return Err(MemError::EmptyCellAccess);
            },
        };
        let s0 = match render(mem, &q0, fuel - 1) {
            Result::Ok(s0) => s0,
            Result::Err(e) => {
                return Err(e);
            },
        };
        let s1 = match render(mem, &q1, fuel - 1) {
            Result::Ok(s1) => s1,
            Result::Err(e) => {
                return Err(e);
            },
        };
        let mut s = String::new();
        s.append("(");
        s.append(s0.as_str());
        s.append(" . ");
        s.append(s1.as_str());
        s.append(")");
        proof {
            reveal_strlit("(");
            reveal_strlit(" . ");
            reveal_strlit(")");
            assert(s@ =~= seq!['('] + s0@ + seq![' ', '.', ' '] + s1@ + seq![')']);
            reveal_with_fuel(render_spec, 2);
            assert(cell_word(mem.heap(), p.addr_spec(), 0) == q0.addr_spec() + 1);
            assert(cell_word(mem.heap(), p.addr_spec(), 1) == q1.addr_spec() + 1);
            assert(render_spec(mem.heap(), q0.addr_spec(), (fuel - 1) as nat) == Option::Some(
                s0@,
            ));
            assert(render_spec(mem.heap(), q1.addr_spec(), (fuel - 1) as nat) == Option::Some(
                s1@,
            ));
            let expect = seq!['('] + s0@ + seq![' ', '.', ' '] + s1@ + seq![')'];
            crate::model::lemma_start_props(
                mem.heap(),
                0,
                mem.heap().len() as int,
                q0.addr_spec(),
            );
            crate::model::lemma_start_props(
                mem.heap(),
                0,
                mem.heap().len() as int,
                q1.addr_spec(),
            );
            assert(cell_word(mem.heap(), p.addr_spec(), 0) != 0);
            assert(cell_word(mem.heap(), p.addr_spec(), 1) != 0);
            assert(render_spec(mem.heap(), p.addr_spec(), fuel as nat) == Option::Some(expect));
            assert(expect == s@);
            assert(render_spec(mem.heap(), p.addr_spec(), fuel as nat) == Option::Some(s@));
        }
        Ok(s)
    } else {
        Err(MemError::TypeMismatch)
    }
}

} // verus!
