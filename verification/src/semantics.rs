//! The small-step machine giving stream processors their meaning.
//!
//! A processor term is either in *head shape* — a read ([`StreamProcessor::Get`])
//! or a write ([`StreamProcessor::Put`]) — or one total, structural rewrite
//! [`sp_step`] brings it closer to one. The executable twin [`step`] performs
//! the same rewrite by moving the term, so every continuation is consumed at
//! most once.
//!
//! Two fueled runs of the machine are defined on top of the single step:
//! [`advance_fuel`] runs a term against a finite sequence of input elements
//! and is what the evaluator's contract speaks of, while [`next_output`] and
//! [`nth_output`] run a term against an unbounded input and are what the
//! stream-level laws in [`crate::combinators`] speak of.

use vstd::prelude::*;

use crate::programs::prog_subst;
use crate::programs::prog_unfold;
use crate::values::fun_value;
use crate::values::pred_value;
use crate::values::Value;
use crate::Cont;
use crate::fam_value;
use crate::StreamProcessor;
use crate::Thunk;

verus! {

/// Whether a term is in head shape: a read or a write, on which the
/// evaluator acts directly.
pub open spec fn is_head(sp: StreamProcessor) -> bool {
    match sp {
        StreamProcessor::Get(_) => true,
        StreamProcessor::Put(_, _) => true,
        _ => false,
    }
}

/// One head rewrite of a processor term. Terms in head shape are left
/// unchanged; every other term makes progress. The rules mirror how the
/// combinators behave:
///
/// - a composition is a read while its left side is one; a write of the left
///   side is fed to the right side, and a write of the right side is written
///   out with the left side's pending write held back;
/// - an interleaving is a read while its controlling side is one, and on a
///   write the two sides trade places;
/// - a bind probes its processor until the first write, whose element then
///   selects the replacement from the family;
/// - an applied continuation and a forced suspension unfold to the term they
///   stand for.
pub open spec fn sp_step(sp: StreamProcessor) -> StreamProcessor
    decreases sp,
{
    match sp {
        StreamProcessor::Get(c) => StreamProcessor::Get(c),
        StreamProcessor::Put(b, t) => StreamProcessor::Put(b, t),
        StreamProcessor::Compose(l, r) => match *l {
            StreamProcessor::Get(c) => StreamProcessor::Get(Cont::Composing(Box::new(c), r)),
            StreamProcessor::Put(b, t1) => match *r {
                StreamProcessor::Get(g) => StreamProcessor::Compose(
                    Box::new(StreamProcessor::Force(t1)),
                    Box::new(StreamProcessor::Apply(g, b)),
                ),
                StreamProcessor::Put(c2, t2) => StreamProcessor::Put(
                    c2,
                    Thunk::HoldPut(b, Box::new(t1), Box::new(t2)),
                ),
                rother => StreamProcessor::Compose(
                    Box::new(StreamProcessor::Put(b, t1)),
                    Box::new(sp_step(rother)),
                ),
            },
            lother => StreamProcessor::Compose(Box::new(sp_step(lother)), r),
        },
        StreamProcessor::Alternate(l, r) => match *l {
            StreamProcessor::Get(c) => StreamProcessor::Get(Cont::Alternating(Box::new(c), r)),
            StreamProcessor::Put(b, t) => StreamProcessor::Put(b, Thunk::SwapIn(r, Box::new(t))),
            lother => StreamProcessor::Alternate(Box::new(sp_step(lother)), r),
        },
        StreamProcessor::Bind(l, m) => match *l {
            StreamProcessor::Get(c) => StreamProcessor::Get(Cont::Binding(Box::new(c), m)),
            StreamProcessor::Put(b, _t) => fam_value(m, b),
            lother => StreamProcessor::Bind(Box::new(sp_step(lother)), m),
        },
        StreamProcessor::Apply(c, v) => match c {
            Cont::Mapping(f) => StreamProcessor::Put(fun_value(f, v), Thunk::MapAgain(f)),
            Cont::Filtering(p) => if pred_value(p, v) {
                StreamProcessor::Put(v, Thunk::FilterAgain(p))
            } else {
                StreamProcessor::Get(Cont::Filtering(p))
            },
            Cont::Running(p) => prog_unfold(prog_subst(*p, 0, v)),
            Cont::Composing(c1, s2) => StreamProcessor::Compose(
                Box::new(StreamProcessor::Apply(*c1, v)),
                s2,
            ),
            Cont::Alternating(c1, s2) => StreamProcessor::Alternate(
                Box::new(StreamProcessor::Apply(*c1, v)),
                s2,
            ),
            Cont::Binding(c1, m) => StreamProcessor::Bind(
                Box::new(StreamProcessor::Apply(*c1, v)),
                m,
            ),
        },
        StreamProcessor::Force(t) => match t {
            Thunk::Ready(sp1) => *sp1,
            Thunk::MapAgain(f) => StreamProcessor::Get(Cont::Mapping(f)),
            Thunk::FilterAgain(p) => StreamProcessor::Get(Cont::Filtering(p)),
            Thunk::SwapIn(s2, t1) => StreamProcessor::Alternate(
                s2,
                Box::new(StreamProcessor::Force(*t1)),
            ),
            Thunk::HoldPut(b, t1, t2) => StreamProcessor::Compose(
                Box::new(StreamProcessor::Put(b, *t1)),
                Box::new(StreamProcessor::Force(*t2)),
            ),
            Thunk::RunAgain(p) => prog_unfold(*p),
        },
    }
}

/// Executable twin of [`sp_step`]. The term is moved through the rewrite, so
/// a continuation or suspension inside it can never be used twice.
pub fn step(sp: StreamProcessor) -> (r: StreamProcessor)
    ensures
        r == sp_step(sp),
    decreases sp,
{
    match sp {
        StreamProcessor::Get(c) => StreamProcessor::Get(c),
        StreamProcessor::Put(b, t) => StreamProcessor::Put(b, t),
        StreamProcessor::Compose(l, r) => match *l {
            StreamProcessor::Get(c) => StreamProcessor::Get(Cont::Composing(Box::new(c), r)),
            StreamProcessor::Put(b, t1) => match *r {
                StreamProcessor::Get(g) => StreamProcessor::Compose(
                    Box::new(StreamProcessor::Force(t1)),
                    Box::new(StreamProcessor::Apply(g, b)),
                ),
                StreamProcessor::Put(c2, t2) => StreamProcessor::Put(
                    c2,
                    Thunk::HoldPut(b, Box::new(t1), Box::new(t2)),
                ),
                rother => StreamProcessor::Compose(
                    Box::new(StreamProcessor::Put(b, t1)),
                    Box::new(step(rother)),
                ),
            },
            lother => StreamProcessor::Compose(Box::new(step(lother)), r),
        },
        StreamProcessor::Alternate(l, r) => match *l {
            StreamProcessor::Get(c) => StreamProcessor::Get(Cont::Alternating(Box::new(c), r)),
            StreamProcessor::Put(b, t) => StreamProcessor::Put(b, Thunk::SwapIn(r, Box::new(t))),
            lother => StreamProcessor::Alternate(Box::new(step(lother)), r),
        },
        StreamProcessor::Bind(l, m) => match *l {
            StreamProcessor::Get(c) => StreamProcessor::Get(Cont::Binding(Box::new(c), m)),
            StreamProcessor::Put(b, _t) => m.select(b),
            lother => StreamProcessor::Bind(Box::new(step(lother)), m),
        },
        StreamProcessor::Apply(c, v) => match c {
            Cont::Mapping(f) => {
                let w = f.apply(v);
                StreamProcessor::Put(w, Thunk::MapAgain(f))
            },
            Cont::Filtering(p) => {
                let h = p.holds(v);
                if h {
                    StreamProcessor::Put(v, Thunk::FilterAgain(p))
                } else {
                    StreamProcessor::Get(Cont::Filtering(p))
                }
            },
            Cont::Running(p) => (*p).subst(0, v).unfold(),
            Cont::Composing(c1, s2) => StreamProcessor::Compose(
                Box::new(StreamProcessor::Apply(*c1, v)),
                s2,
            ),
            Cont::Alternating(c1, s2) => StreamProcessor::Alternate(
                Box::new(StreamProcessor::Apply(*c1, v)),
                s2,
            ),
            Cont::Binding(c1, m) => StreamProcessor::Bind(
                Box::new(StreamProcessor::Apply(*c1, v)),
                m,
            ),
        },
        StreamProcessor::Force(t) => match t {
            Thunk::Ready(sp1) => *sp1,
            Thunk::MapAgain(f) => StreamProcessor::Get(Cont::Mapping(f)),
            Thunk::FilterAgain(p) => StreamProcessor::Get(Cont::Filtering(p)),
            Thunk::SwapIn(s2, t1) => StreamProcessor::Alternate(
                s2,
                Box::new(StreamProcessor::Force(*t1)),
            ),
            Thunk::HoldPut(b, t1, t2) => StreamProcessor::Compose(
                Box::new(StreamProcessor::Put(b, *t1)),
                Box::new(StreamProcessor::Force(*t2)),
            ),
            Thunk::RunAgain(p) => (*p).unfold(),
        },
    }
}

/// Run the machine against a finite sequence of input elements for at most
/// `fuel` steps. A read consumes the front of `ins`; the run stops early at
/// a write, or at a read once `ins` is exhausted. Returns the term reached
/// and the input elements left over.
pub open spec fn advance_fuel(sp: StreamProcessor, ins: Seq<Value>, fuel: nat) -> (
    StreamProcessor,
    Seq<Value>,
)
    decreases fuel,
{
    if fuel == 0 {
        (sp, ins)
    } else {
        match sp {
            StreamProcessor::Put(b, t) => (StreamProcessor::Put(b, t), ins),
            StreamProcessor::Get(c) => if ins.len() > 0 {
                advance_fuel(
                    StreamProcessor::Apply(c, ins[0]),
                    ins.drop_first(),
                    (fuel - 1) as nat,
                )
            } else {
                (StreamProcessor::Get(c), ins)
            },
            _ => advance_fuel(sp_step(sp), ins, (fuel - 1) as nat),
        }
    }
}

/// A run that stopped for want of fuel at a term outside head shape goes on
/// with one more rewrite when given one more unit of fuel.
pub proof fn lemma_advance_more(sp: StreamProcessor, ins: Seq<Value>, fuel: nat)
    requires
        !is_head(advance_fuel(sp, ins, fuel).0),
    ensures
        advance_fuel(sp, ins, (fuel + 1) as nat) == (
            (sp_step(advance_fuel(sp, ins, fuel).0), advance_fuel(sp, ins, fuel).1)
        ),
    decreases fuel,
{
    reveal_with_fuel(advance_fuel, 3);
    if fuel == 0 {
    } else {
        match sp {
            StreamProcessor::Put(_b, _t) => {},
            StreamProcessor::Get(c) => {
                if ins.len() > 0 {
                    lemma_advance_more(
                        StreamProcessor::Apply(c, ins[0]),
                        ins.drop_first(),
                        (fuel - 1) as nat,
                    );
                }
            },
            _ => {
                lemma_advance_more(sp_step(sp), ins, (fuel - 1) as nat);
            },
        }
    }
}

/// A run that stopped for want of fuel at a read with input still left goes
/// on with the read consuming the front of that input when given one more
/// unit of fuel.
pub proof fn lemma_advance_read(sp: StreamProcessor, ins: Seq<Value>, fuel: nat, c: Cont)
    requires
        advance_fuel(sp, ins, fuel).0 == StreamProcessor::Get(c),
        advance_fuel(sp, ins, fuel).1.len() > 0,
    ensures
        advance_fuel(sp, ins, (fuel + 1) as nat) == (
            (
                StreamProcessor::Apply(c, advance_fuel(sp, ins, fuel).1[0]),
                advance_fuel(sp, ins, fuel).1.drop_first(),
            )
        ),
    decreases fuel,
{
    reveal_with_fuel(advance_fuel, 2);
    if fuel == 0 {
    } else {
        match sp {
            StreamProcessor::Put(_b, _t) => {},
            StreamProcessor::Get(c0) => {
                if ins.len() > 0 {
                    lemma_advance_read(
                        StreamProcessor::Apply(c0, ins[0]),
                        ins.drop_first(),
                        (fuel - 1) as nat,
                        c,
                    );
                }
            },
            _ => {
                lemma_advance_read(sp_step(sp), ins, (fuel - 1) as nat, c);
            },
        }
    }
}

/// Run the machine against an unbounded input until it exposes its next
/// write, given at most `fuel` machine steps. `k` indexes the next input
/// element to read. Returns the written element, the suspended rest and the
/// index of the next unread element.
pub open spec fn next_output(
    sp: StreamProcessor,
    inp: spec_fn(nat) -> Value,
    k: nat,
    fuel: nat,
) -> Option<(Value, Thunk, nat)>
    decreases fuel,
{
    if fuel == 0 {
        None
    } else {
        match sp {
            StreamProcessor::Put(b, t) => Some((b, t, k)),
            StreamProcessor::Get(c) => next_output(
                StreamProcessor::Apply(c, inp(k)),
                inp,
                k + 1,
                (fuel - 1) as nat,
            ),
            _ => next_output(sp_step(sp), inp, k, (fuel - 1) as nat),
        }
    }
}

/// The `n`-th element (counting from zero) that the machine writes when run
/// against an unbounded input, if `fuel` machine steps per output suffice to
/// reach it.
pub open spec fn nth_output(
    sp: StreamProcessor,
    inp: spec_fn(nat) -> Value,
    k: nat,
    n: nat,
    fuel: nat,
) -> Option<Value>
    decreases n,
{
    match next_output(sp, inp, k, fuel) {
        None => None,
        Some((b, t, k2)) => if n == 0 {
            Some(b)
        } else {
            nth_output(StreamProcessor::Force(t), inp, k2, (n - 1) as nat, fuel)
        },
    }
}

/// The processor writes `v` as its `n`-th output element on the input
/// `inp`, for some amount of fuel. This is the observable behaviour the
/// stream-level laws are stated over.
pub open spec fn produces(
    sp: StreamProcessor,
    inp: spec_fn(nat) -> Value,
    n: nat,
    v: Value,
) -> bool {
    exists|fuel: nat| nth_output(sp, inp, 0, n, fuel) == Some(v)
}

/// More fuel never changes a write the machine already reaches.
pub proof fn lemma_next_output_mono(
    sp: StreamProcessor,
    inp: spec_fn(nat) -> Value,
    k: nat,
    fuel1: nat,
    fuel2: nat,
)
    requires
        fuel1 <= fuel2,
        next_output(sp, inp, k, fuel1) is Some,
    ensures
        next_output(sp, inp, k, fuel2) == next_output(sp, inp, k, fuel1),
    decreases fuel1,
{
    if fuel1 == 0 {
    } else {
        match sp {
            StreamProcessor::Put(_b, _t) => {},
            StreamProcessor::Get(c) => {
                lemma_next_output_mono(
                    StreamProcessor::Apply(c, inp(k)),
                    inp,
                    k + 1,
                    (fuel1 - 1) as nat,
                    (fuel2 - 1) as nat,
                );
            },
            _ => {
                lemma_next_output_mono(sp_step(sp), inp, k, (fuel1 - 1) as nat, (fuel2 - 1) as nat);
            },
        }
    }
}

/// More fuel never changes an output the machine already reaches.
pub proof fn lemma_nth_output_mono(
    sp: StreamProcessor,
    inp: spec_fn(nat) -> Value,
    k: nat,
    n: nat,
    fuel1: nat,
    fuel2: nat,
)
    requires
        fuel1 <= fuel2,
        nth_output(sp, inp, k, n, fuel1) is Some,
    ensures
        nth_output(sp, inp, k, n, fuel2) == nth_output(sp, inp, k, n, fuel1),
    decreases n,
{
    lemma_next_output_mono(sp, inp, k, fuel1, fuel2);
    match next_output(sp, inp, k, fuel1) {
        None => {},
        Some((b, t, k2)) => {
            if n > 0 {
                lemma_nth_output_mono(
                    StreamProcessor::Force(t),
                    inp,
                    k2,
                    (n - 1) as nat,
                    fuel1,
                    fuel2,
                );
            }
        },
    }
}

/// Builds the fuel witness for an `n`-th output from a witness for the next
/// write and one for the remaining outputs: the larger of the two amounts of
/// fuel serves both, since more fuel never changes a reached write.
pub proof fn lemma_nth_segments(
    sp: StreamProcessor,
    inp: spec_fn(nat) -> Value,
    k: nat,
    n: nat,
    b: Value,
    t: Thunk,
    k2: nat,
    w: Value,
    f1: nat,
    f2: nat,
)
    requires
        next_output(sp, inp, k, f1) == Some((b, t, k2)),
        n > 0,
        nth_output(StreamProcessor::Force(t), inp, k2, (n - 1) as nat, f2) == Some(w),
    ensures
        exists|fuel: nat| nth_output(sp, inp, k, n, fuel) == Some(w),
{
    if f1 <= f2 {
        lemma_next_output_mono(sp, inp, k, f1, f2);
        assert(nth_output(sp, inp, k, n, f2) == Some(w));
    } else {
        lemma_nth_output_mono(StreamProcessor::Force(t), inp, k2, (n - 1) as nat, f2, f1);
        assert(nth_output(sp, inp, k, n, f1) == Some(w));
    }
}

/// An output reached from a term is reached from any term one rewrite
/// earlier, with one more unit of fuel.
pub proof fn lemma_nth_shift(
    a: StreamProcessor,
    inp: spec_fn(nat) -> Value,
    k: nat,
    n: nat,
    fuel: nat,
    v: Value,
)
    requires
        !is_head(a),
        nth_output(sp_step(a), inp, k, n, fuel) == Some(v),
    ensures
        nth_output(a, inp, k, n, (fuel + 1) as nat) == Some(v),
{
    let b = sp_step(a);
    assert(next_output(a, inp, k, (fuel + 1) as nat) == next_output(b, inp, k, fuel));
    let (b0, t0, k2) = next_output(b, inp, k, fuel)->Some_0;
    if n > 0 {
        lemma_nth_output_mono(
            StreamProcessor::Force(t0),
            inp,
            k2,
            (n - 1) as nat,
            fuel,
            (fuel + 1) as nat,
        );
    }
}

/// A machine that reaches its `n`-th output with some fuel reaches every
/// earlier output with the same fuel.
pub proof fn lemma_nth_earlier(
    sp: StreamProcessor,
    inp: spec_fn(nat) -> Value,
    k: nat,
    m: nat,
    n: nat,
    fuel: nat,
)
    requires
        m <= n,
        nth_output(sp, inp, k, n, fuel) is Some,
    ensures
        nth_output(sp, inp, k, m, fuel) is Some,
    decreases m,
{
    let (b, t, k2) = next_output(sp, inp, k, fuel)->Some_0;
    if m > 0 {
        lemma_nth_earlier(
            StreamProcessor::Force(t),
            inp,
            k2,
            (m - 1) as nat,
            (n - 1) as nat,
            fuel,
        );
    }
}

/// The machine is deterministic: a processor writes at most one `n`-th
/// output element on a given input.
pub proof fn lemma_produces_unique(
    sp: StreamProcessor,
    inp: spec_fn(nat) -> Value,
    n: nat,
    v1: Value,
    v2: Value,
)
    requires
        produces(sp, inp, n, v1),
        produces(sp, inp, n, v2),
    ensures
        v1 == v2,
{
    let fuel1 = choose|fuel: nat| nth_output(sp, inp, 0, n, fuel) == Some(v1);
    let fuel2 = choose|fuel: nat| nth_output(sp, inp, 0, n, fuel) == Some(v2);
    if fuel1 <= fuel2 {
        lemma_nth_output_mono(sp, inp, 0, n, fuel1, fuel2);
    } else {
        lemma_nth_output_mono(sp, inp, 0, n, fuel2, fuel1);
    }
}

} // verus!
