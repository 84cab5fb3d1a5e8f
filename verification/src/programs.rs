//! A small language of user programs over read elements.
//!
//! A [`Prog`] describes a straight-line piece of a stream processor that may
//! read elements, remember them, compare them and write them back out, before
//! continuing as an arbitrary processor. Elements read so far are addressed
//! by de Bruijn indices: inside a [`Prog::Read`], index `0` names the element
//! that read binds, and each enclosing read is one index further out.
//! Feeding an element substitutes it for the freshly bound index, so a
//! program that is closed at the top level stays closed while it runs.

use vstd::prelude::*;

use crate::values::Value;
use crate::Cont;
use crate::StreamProcessor;
use crate::Thunk;

verus! {

/// A reference to an element: a previously read one, by de Bruijn index, or
/// a literal.
pub enum Expr {
    /// The element bound by the `i`-th enclosing read, counting from the
    /// innermost at `0`.
    Var(usize),
    /// A literal element.
    Lit(Value),
}

/// A user program: read, write, compare, or continue as a processor.
pub enum Prog {
    /// Read the next input element and bind it at index `0`.
    Read(Box<Prog>),
    /// Write the referenced element, then continue.
    Write(Expr, Box<Prog>),
    /// Continue with the first program if the first referenced element is an
    /// integer strictly less than the second, with the second program
    /// otherwise.
    IfLess(Expr, Expr, Box<Prog>, Box<Prog>),
    /// Continue as the given processor.
    Become(Box<StreamProcessor>),
}

/// Whether `a` is an integer strictly less than the integer `b`.
pub open spec fn value_lt(a: Value, b: Value) -> bool {
    match (a, b) {
        (Value::Int(m), Value::Int(n)) => m < n,
        _ => false,
    }
}

/// What an element reference means. An unbound index, which a closed
/// program never exhibits, falls back to the unit element.
pub open spec fn expr_value(e: Expr) -> Value {
    match e {
        Expr::Var(_) => Value::Unit,
        Expr::Lit(v) => v,
    }
}

/// Substitute `v` for the index `d` in an element reference.
pub open spec fn expr_subst(e: Expr, d: usize, v: Value) -> Expr {
    match e {
        Expr::Var(i) => if i == d {
            Expr::Lit(v)
        } else {
            Expr::Var(i)
        },
        Expr::Lit(w) => Expr::Lit(w),
    }
}

/// One index further out, capped at the largest index. The cap is
/// unreachable for any program a machine can hold, since the index never
/// exceeds the nesting depth of reads.
pub open spec fn deeper(d: usize) -> usize {
    if d < usize::MAX {
        (d + 1) as usize
    } else {
        d
    }
}

/// Substitute `v` for the index `d` in a program. Descending under a read
/// shifts the index by one; embedded processors are closed and are left
/// alone.
pub open spec fn prog_subst(p: Prog, d: usize, v: Value) -> Prog
    decreases p,
{
    match p {
        Prog::Read(body) => Prog::Read(Box::new(prog_subst(*body, deeper(d), v))),
        Prog::Write(e, rest) => Prog::Write(expr_subst(e, d, v), Box::new(prog_subst(*rest, d, v))),
        Prog::IfLess(e1, e2, p1, p2) => Prog::IfLess(
            expr_subst(e1, d, v),
            expr_subst(e2, d, v),
            Box::new(prog_subst(*p1, d, v)),
            Box::new(prog_subst(*p2, d, v)),
        ),
        Prog::Become(sp) => Prog::Become(sp),
    }
}

/// What a closed program means as a processor: reads suspend into a
/// continuation, writes expose a written element, comparisons choose a
/// branch at once.
pub open spec fn prog_unfold(p: Prog) -> StreamProcessor
    decreases p,
{
    match p {
        Prog::Read(body) => StreamProcessor::Get(Cont::Running(body)),
        Prog::Write(e, rest) => StreamProcessor::Put(expr_value(e), Thunk::RunAgain(rest)),
        Prog::IfLess(e1, e2, p1, p2) => if value_lt(expr_value(e1), expr_value(e2)) {
            prog_unfold(*p1)
        } else {
            prog_unfold(*p2)
        },
        Prog::Become(sp) => *sp,
    }
}

impl Expr {
    /// Executable twin of [`expr_subst`].
    pub fn subst(self, d: usize, v: Value) -> (r: Expr)
        ensures
            r == expr_subst(self, d, v),
    {
        match self {
            Expr::Var(i) => if i == d {
                Expr::Lit(v)
            } else {
                Expr::Var(i)
            },
            Expr::Lit(w) => Expr::Lit(w),
        }
    }

    /// Executable twin of [`expr_value`].
    pub fn value(self) -> (r: Value)
        ensures
            r == expr_value(self),
    {
        match self {
            Expr::Var(_) => Value::Unit,
            Expr::Lit(v) => v,
        }
    }
}

impl Prog {
    /// Executable twin of [`prog_subst`].
    pub fn subst(self, d: usize, v: Value) -> (r: Prog)
        ensures
            r == prog_subst(self, d, v),
        decreases self,
    {
        match self {
            Prog::Read(body) => {
                let d1 = if d < usize::MAX {
                    d + 1
                } else {
                    d
                };
                Prog::Read(Box::new(body.subst(d1, v)))
            },
            Prog::Write(e, rest) => Prog::Write(e.subst(d, v), Box::new(rest.subst(d, v))),
            Prog::IfLess(e1, e2, p1, p2) => Prog::IfLess(
                e1.subst(d, v),
                e2.subst(d, v),
                Box::new(p1.subst(d, v)),
                Box::new(p2.subst(d, v)),
            ),
            Prog::Become(sp) => Prog::Become(sp),
        }
    }

    /// Executable twin of [`prog_unfold`].
    pub fn unfold(self) -> (r: StreamProcessor)
        ensures
            r == prog_unfold(self),
        decreases self,
    {
        match self {
            Prog::Read(body) => StreamProcessor::Get(Cont::Running(body)),
            Prog::Write(e, rest) => StreamProcessor::Put(e.value(), Thunk::RunAgain(rest)),
            Prog::IfLess(e1, e2, p1, p2) => {
                let a = e1.value();
                let b = e2.value();
                let less = match (a, b) {
                    (Value::Int(m), Value::Int(n)) => m < n,
                    _ => false,
                };
                if less {
                    p1.unfold()
                } else {
                    p2.unfold()
                }
            },
            Prog::Become(sp) => *sp,
        }
    }
}

} // verus!
