//! Functions that build stream processors from transforms, predicates and
//! other stream processors, together with the laws they satisfy.
//!
//! Each combinator returns the corresponding processor term; the machine in
//! [`crate::semantics`] gives the term its behaviour lazily, one head step
//! at a time, which keeps construction cheap and preserves the evaluator's
//! stack safety. The proof functions at the end of this module state the
//! algebraic laws of the combinators over the machine's output semantics.

use vstd::prelude::*;

use crate::semantics::lemma_next_output_mono;
use crate::semantics::lemma_nth_output_mono;
use crate::semantics::lemma_nth_segments;
use crate::semantics::lemma_nth_earlier;
use crate::semantics::lemma_nth_shift;
use crate::semantics::next_output;
use crate::semantics::nth_output;
use crate::semantics::produces;
use crate::semantics::sp_step;
use crate::no_write_in_budget;
use crate::semantics::advance_fuel;
use crate::values::fun_value;
use crate::values::pred_value;
use crate::values::Fun;
use crate::values::Pred;
use crate::values::Value;
use crate::Cont;
use crate::Fam;
use crate::StreamProcessor;
use crate::Thunk;

verus! {

/// The term [`map`] returns.
pub open spec fn map_term(f: Fun) -> StreamProcessor {
    StreamProcessor::Get(Cont::Mapping(f))
}

/// The term [`filter`] returns.
pub open spec fn filter_term(p: Pred) -> StreamProcessor {
    StreamProcessor::Get(Cont::Filtering(p))
}

/// The term [`compose`] returns.
pub open spec fn compose_term(sp1: StreamProcessor, sp2: StreamProcessor) -> StreamProcessor {
    StreamProcessor::Compose(Box::new(sp1), Box::new(sp2))
}

/// The term [`alternate`] returns.
pub open spec fn alternate_term(sp1: StreamProcessor, sp2: StreamProcessor) -> StreamProcessor {
    StreamProcessor::Alternate(Box::new(sp1), Box::new(sp2))
}

/// The processor applying a transform to each element of the input stream:
/// it reads an element, writes the transformed element, and continues the
/// same way.
pub fn map(f: Fun) -> (r: StreamProcessor)
    ensures
        r == StreamProcessor::Get(Cont::Mapping(f)),
{
    StreamProcessor::Get(Cont::Mapping(f))
}

/// The processor keeping exactly the elements of the input stream that
/// satisfy the predicate, in input order: it reads an element, writes it if
/// the predicate holds — and reads on without writing if not — then
/// continues the same way.
pub fn filter(p: Pred) -> (r: StreamProcessor)
    ensures
        r == StreamProcessor::Get(Cont::Filtering(p)),
{
    StreamProcessor::Get(Cont::Filtering(p))
}

/// The sequential composition of two processors: every element the first
/// writes is fed to the second, whose writes become the composite's output,
/// with no middle stream materialized.
pub fn compose(sp1: StreamProcessor, sp2: StreamProcessor) -> (r: StreamProcessor)
    ensures
        r == (StreamProcessor::Compose(Box::new(sp1), Box::new(sp2))),
{
    StreamProcessor::Compose(Box::new(sp1), Box::new(sp2))
}

/// The interleaving of two processors: the first is in control and reads
/// the input until it writes; that element is written out and the two trade
/// places, so control ping-pongs between them on every write.
pub fn alternate(sp1: StreamProcessor, sp2: StreamProcessor) -> (r: StreamProcessor)
    ensures
        r == (StreamProcessor::Alternate(Box::new(sp1), Box::new(sp2))),
{
    StreamProcessor::Alternate(Box::new(sp1), Box::new(sp2))
}

/// Run a processor until its first write, then discard it — its own
/// continuation included — and replace the whole remaining computation with
/// the processor the family picks for the written element. The discarding
/// is intentional: the probed processor is not resumed.
pub fn bind(sp: StreamProcessor, f: Fam) -> (r: StreamProcessor)
    ensures
        r == (StreamProcessor::Bind(Box::new(sp), f)),
{
    StreamProcessor::Bind(Box::new(sp), f)
}

/// A mapping processor's evaluation is never dead: whatever was drawn, one
/// further element and two rewrites reach a write, well within the budget.
pub proof fn lemma_map_write_reachable(f: Fun, fed: Seq<Value>)
    ensures
        !no_write_in_budget(map_term(f), fed),
{
    let ins = fed.push(Value::Unit);
    assert(fed.is_prefix_of(ins)) by {
        assert(fed =~= ins.subrange(0, fed.len() as int));
    }
    let a = StreamProcessor::Apply(Cont::Mapping(f), ins[0]);
    let p0 = StreamProcessor::Put(fun_value(f, ins[0]), Thunk::MapAgain(f));
    assert(sp_step(a) == p0);
    assert(ins.len() > 0);
    assert(advance_fuel(map_term(f), ins, 2) == advance_fuel(a, ins.drop_first(), 1));
    assert(advance_fuel(a, ins.drop_first(), 1) == advance_fuel(p0, ins.drop_first(), 0));
    assert(advance_fuel(map_term(f), ins, 2).0 is Put);
}

/// A mapping processor suspended after a write exposes its next write after
/// one read: the transformed element just read.
proof fn lemma_map_segment(f: Fun, inp: spec_fn(nat) -> Value, k: nat)
    ensures
        next_output(StreamProcessor::Force(Thunk::MapAgain(f)), inp, k, 13) == Some(
            (fun_value(f, inp(k)), Thunk::MapAgain(f), (k + 1) as nat),
        ),
{
    let t0 = StreamProcessor::Force(Thunk::MapAgain(f));
    let t1 = StreamProcessor::Get(Cont::Mapping(f));
    let t2 = StreamProcessor::Apply(Cont::Mapping(f), inp(k));
    let t3 = StreamProcessor::Put(fun_value(f, inp(k)), Thunk::MapAgain(f));
    assert(sp_step(t0) == t1);
    assert(next_output(t0, inp, k, 13) == next_output(t1, inp, k, 12));
    assert(next_output(t1, inp, k, 12) == next_output(t2, inp, (k + 1) as nat, 11));
    assert(sp_step(t2) == t3);
    assert(next_output(t2, inp, (k + 1) as nat, 11) == next_output(t3, inp, (k + 1) as nat, 10));
    assert(next_output(t3, inp, (k + 1) as nat, 10) == Some(
        (fun_value(f, inp(k)), Thunk::MapAgain(f), (k + 1) as nat),
    ));
}

/// A mapping processor suspended after a write goes on writing the
/// transform of each further input element, in order.
proof fn lemma_map_loop(f: Fun, inp: spec_fn(nat) -> Value, k: nat, n: nat)
    ensures
        nth_output(StreamProcessor::Force(Thunk::MapAgain(f)), inp, k, n, 13) == Some(
            fun_value(f, inp((k + n) as nat)),
        ),
    decreases n,
{
    lemma_map_segment(f, inp, k);
    if n > 0 {
        lemma_map_loop(f, inp, (k + 1) as nat, (n - 1) as nat);
    }
}

/// The mapping processor writes the transform of the `n`-th input element
/// as its `n`-th output element.
pub proof fn lemma_map_nth(f: Fun, inp: spec_fn(nat) -> Value, k: nat, n: nat)
    ensures
        nth_output(map_term(f), inp, k, n, 13) == Some(fun_value(f, inp((k + n) as nat))),
    decreases n,
{
    let t1 = map_term(f);
    let t2 = StreamProcessor::Apply(Cont::Mapping(f), inp(k));
    let t3 = StreamProcessor::Put(fun_value(f, inp(k)), Thunk::MapAgain(f));
    assert(next_output(t1, inp, k, 13) == next_output(t2, inp, (k + 1) as nat, 12));
    assert(sp_step(t2) == t3);
    assert(next_output(t2, inp, (k + 1) as nat, 12) == next_output(t3, inp, (k + 1) as nat, 11));
    assert(next_output(t1, inp, k, 13) == Some(
        (fun_value(f, inp(k)), Thunk::MapAgain(f), (k + 1) as nat),
    ));
    if n > 0 {
        lemma_map_loop(f, inp, (k + 1) as nat, (n - 1) as nat);
    }
}

/// A composition of two mapping stages suspended after a write exposes its
/// next write after one read: the twice-transformed element it was holding,
/// while it holds back the transform of the element just read.
proof fn lemma_comp_map_segment(f: Fun, g: Fun, x: Value, inp: spec_fn(nat) -> Value, k: nat)
    ensures
        next_output(
            StreamProcessor::Force(
                Thunk::HoldPut(x, Box::new(Thunk::MapAgain(f)), Box::new(Thunk::MapAgain(g))),
            ),
            inp,
            k,
            13,
        ) == Some(
            (
                fun_value(g, x),
                Thunk::HoldPut(
                    fun_value(f, inp(k)),
                    Box::new(Thunk::MapAgain(f)),
                    Box::new(Thunk::MapAgain(g)),
                ),
                (k + 1) as nat,
            ),
        ),
{
    let ma_f = Thunk::MapAgain(f);
    let ma_g = Thunk::MapAgain(g);
    let t0 = StreamProcessor::Force(Thunk::HoldPut(x, Box::new(ma_f), Box::new(ma_g)));
    let t1 = StreamProcessor::Compose(
        Box::new(StreamProcessor::Put(x, ma_f)),
        Box::new(StreamProcessor::Force(ma_g)),
    );
    let t2 = StreamProcessor::Compose(
        Box::new(StreamProcessor::Put(x, ma_f)),
        Box::new(StreamProcessor::Get(Cont::Mapping(g))),
    );
    let t3 = StreamProcessor::Compose(
        Box::new(StreamProcessor::Force(ma_f)),
        Box::new(StreamProcessor::Apply(Cont::Mapping(g), x)),
    );
    let t4 = StreamProcessor::Compose(
        Box::new(StreamProcessor::Get(Cont::Mapping(f))),
        Box::new(StreamProcessor::Apply(Cont::Mapping(g), x)),
    );
    let t5 = StreamProcessor::Get(
        Cont::Composing(
            Box::new(Cont::Mapping(f)),
            Box::new(StreamProcessor::Apply(Cont::Mapping(g), x)),
        ),
    );
    let v0 = inp(k);
    let t6 = StreamProcessor::Apply(
        Cont::Composing(
            Box::new(Cont::Mapping(f)),
            Box::new(StreamProcessor::Apply(Cont::Mapping(g), x)),
        ),
        v0,
    );
    let t7 = StreamProcessor::Compose(
        Box::new(StreamProcessor::Apply(Cont::Mapping(f), v0)),
        Box::new(StreamProcessor::Apply(Cont::Mapping(g), x)),
    );
    let t8 = StreamProcessor::Compose(
        Box::new(StreamProcessor::Put(fun_value(f, v0), ma_f)),
        Box::new(StreamProcessor::Apply(Cont::Mapping(g), x)),
    );
    let t9 = StreamProcessor::Compose(
        Box::new(StreamProcessor::Put(fun_value(f, v0), ma_f)),
        Box::new(StreamProcessor::Put(fun_value(g, x), ma_g)),
    );
    let t10 = StreamProcessor::Put(
        fun_value(g, x),
        Thunk::HoldPut(fun_value(f, v0), Box::new(ma_f), Box::new(ma_g)),
    );
    let k1 = (k + 1) as nat;
    assert(sp_step(t0) == t1);
    assert(next_output(t0, inp, k, 13) == next_output(t1, inp, k, 12));
    assert(sp_step(StreamProcessor::Force(ma_g)) == StreamProcessor::Get(Cont::Mapping(g)));
    assert(sp_step(t1) == t2);
    assert(next_output(t1, inp, k, 12) == next_output(t2, inp, k, 11));
    assert(sp_step(t2) == t3);
    assert(next_output(t2, inp, k, 11) == next_output(t3, inp, k, 10));
    assert(sp_step(StreamProcessor::Force(ma_f)) == StreamProcessor::Get(Cont::Mapping(f)));
    assert(sp_step(t3) == t4);
    assert(next_output(t3, inp, k, 10) == next_output(t4, inp, k, 9));
    assert(sp_step(t4) == t5);
    assert(next_output(t4, inp, k, 9) == next_output(t5, inp, k, 8));
    assert(next_output(t5, inp, k, 8) == next_output(t6, inp, k1, 7));
    assert(sp_step(t6) == t7);
    assert(next_output(t6, inp, k1, 7) == next_output(t7, inp, k1, 6));
    assert(sp_step(StreamProcessor::Apply(Cont::Mapping(f), v0)) == StreamProcessor::Put(
        fun_value(f, v0),
        ma_f,
    ));
    assert(sp_step(t7) == t8);
    assert(next_output(t7, inp, k1, 6) == next_output(t8, inp, k1, 5));
    assert(sp_step(StreamProcessor::Apply(Cont::Mapping(g), x)) == StreamProcessor::Put(
        fun_value(g, x),
        ma_g,
    ));
    assert(sp_step(t8) == t9);
    assert(next_output(t8, inp, k1, 5) == next_output(t9, inp, k1, 4));
    assert(sp_step(t9) == t10);
    assert(next_output(t9, inp, k1, 4) == next_output(t10, inp, k1, 3));
}

/// A composition of two mapping stages suspended after a write goes on
/// writing, one element behind its reads: first the element it holds, then
/// the twice-transformed further input elements in order.
proof fn lemma_comp_map_loop(
    f: Fun,
    g: Fun,
    x: Value,
    inp: spec_fn(nat) -> Value,
    k: nat,
    n: nat,
)
    ensures
        nth_output(
            StreamProcessor::Force(
                Thunk::HoldPut(x, Box::new(Thunk::MapAgain(f)), Box::new(Thunk::MapAgain(g))),
            ),
            inp,
            k,
            n,
            13,
        ) == Some(
            if n == 0 {
                fun_value(g, x)
            } else {
                fun_value(g, fun_value(f, inp((k + n - 1) as nat)))
            },
        ),
    decreases n,
{
    lemma_comp_map_segment(f, g, x, inp, k);
    if n > 0 {
        lemma_comp_map_loop(f, g, fun_value(f, inp(k)), inp, (k + 1) as nat, (n - 1) as nat);
    }
}

/// The composition of two mapping stages writes the twice-transformed
/// `n`-th input element as its `n`-th output element — reading one element
/// ahead, it consumes two elements before its first write.
pub proof fn lemma_comp_map_nth(f: Fun, g: Fun, inp: spec_fn(nat) -> Value, k: nat, n: nat)
    ensures
        nth_output(compose_term(map_term(f), map_term(g)), inp, k, n, 13) == Some(
            fun_value(g, fun_value(f, inp((k + n) as nat))),
        ),
{
    let ma_f = Thunk::MapAgain(f);
    let ma_g = Thunk::MapAgain(g);
    let t0 = compose_term(map_term(f), map_term(g));
    let t1 = StreamProcessor::Get(
        Cont::Composing(Box::new(Cont::Mapping(f)), Box::new(map_term(g))),
    );
    let v0 = inp(k);
    let k1 = (k + 1) as nat;
    let v1 = inp(k1);
    let k2 = (k + 2) as nat;
    let t2 = StreamProcessor::Apply(
        Cont::Composing(Box::new(Cont::Mapping(f)), Box::new(map_term(g))),
        v0,
    );
    let t3 = StreamProcessor::Compose(
        Box::new(StreamProcessor::Apply(Cont::Mapping(f), v0)),
        Box::new(map_term(g)),
    );
    let t4 = StreamProcessor::Compose(
        Box::new(StreamProcessor::Put(fun_value(f, v0), ma_f)),
        Box::new(map_term(g)),
    );
    let t5 = StreamProcessor::Compose(
        Box::new(StreamProcessor::Force(ma_f)),
        Box::new(StreamProcessor::Apply(Cont::Mapping(g), fun_value(f, v0))),
    );
    let t6 = StreamProcessor::Compose(
        Box::new(StreamProcessor::Get(Cont::Mapping(f))),
        Box::new(StreamProcessor::Apply(Cont::Mapping(g), fun_value(f, v0))),
    );
    let t7 = StreamProcessor::Get(
        Cont::Composing(
            Box::new(Cont::Mapping(f)),
            Box::new(StreamProcessor::Apply(Cont::Mapping(g), fun_value(f, v0))),
        ),
    );
    let t8 = StreamProcessor::Apply(
        Cont::Composing(
            Box::new(Cont::Mapping(f)),
            Box::new(StreamProcessor::Apply(Cont::Mapping(g), fun_value(f, v0))),
        ),
        v1,
    );
    let t9 = StreamProcessor::Compose(
        Box::new(StreamProcessor::Apply(Cont::Mapping(f), v1)),
        Box::new(StreamProcessor::Apply(Cont::Mapping(g), fun_value(f, v0))),
    );
    let t10 = StreamProcessor::Compose(
        Box::new(StreamProcessor::Put(fun_value(f, v1), ma_f)),
        Box::new(StreamProcessor::Apply(Cont::Mapping(g), fun_value(f, v0))),
    );
    let t11 = StreamProcessor::Compose(
        Box::new(StreamProcessor::Put(fun_value(f, v1), ma_f)),
        Box::new(StreamProcessor::Put(fun_value(g, fun_value(f, v0)), ma_g)),
    );
    let t12 = StreamProcessor::Put(
        fun_value(g, fun_value(f, v0)),
        Thunk::HoldPut(fun_value(f, v1), Box::new(ma_f), Box::new(ma_g)),
    );
    assert(sp_step(t0) == t1);
    assert(next_output(t0, inp, k, 13) == next_output(t1, inp, k, 12));
    assert(next_output(t1, inp, k, 12) == next_output(t2, inp, k1, 11));
    assert(sp_step(t2) == t3);
    assert(next_output(t2, inp, k1, 11) == next_output(t3, inp, k1, 10));
    assert(sp_step(StreamProcessor::Apply(Cont::Mapping(f), v0)) == StreamProcessor::Put(
        fun_value(f, v0),
        ma_f,
    ));
    assert(sp_step(t3) == t4);
    assert(next_output(t3, inp, k1, 10) == next_output(t4, inp, k1, 9));
    assert(sp_step(t4) == t5);
    assert(next_output(t4, inp, k1, 9) == next_output(t5, inp, k1, 8));
    assert(sp_step(StreamProcessor::Force(ma_f)) == StreamProcessor::Get(Cont::Mapping(f)));
    assert(sp_step(t5) == t6);
    assert(next_output(t5, inp, k1, 8) == next_output(t6, inp, k1, 7));
    assert(sp_step(t6) == t7);
    assert(next_output(t6, inp, k1, 7) == next_output(t7, inp, k1, 6));
    assert(next_output(t7, inp, k1, 6) == next_output(t8, inp, k2, 5));
    assert(sp_step(t8) == t9);
    assert(next_output(t8, inp, k2, 5) == next_output(t9, inp, k2, 4));
    assert(sp_step(StreamProcessor::Apply(Cont::Mapping(f), v1)) == StreamProcessor::Put(
        fun_value(f, v1),
        ma_f,
    ));
    assert(sp_step(t9) == t10);
    assert(next_output(t9, inp, k2, 4) == next_output(t10, inp, k2, 3));
    assert(sp_step(StreamProcessor::Apply(Cont::Mapping(g), fun_value(f, v0)))
        == StreamProcessor::Put(fun_value(g, fun_value(f, v0)), ma_g));
    assert(sp_step(t10) == t11);
    assert(next_output(t10, inp, k2, 3) == next_output(t11, inp, k2, 2));
    assert(sp_step(t11) == t12);
    assert(next_output(t11, inp, k2, 2) == next_output(t12, inp, k2, 1));
    assert(next_output(t0, inp, k, 13) == Some(
        (fun_value(g, fun_value(f, v0)), Thunk::HoldPut(
            fun_value(f, v1),
            Box::new(ma_f),
            Box::new(ma_g),
        ), k2),
    ));
    if n > 0 {
        lemma_comp_map_loop(f, g, fun_value(f, v1), inp, k2, (n - 1) as nat);
        if n == 1 {
            assert(fun_value(g, fun_value(f, inp((k + 1) as nat))) == fun_value(
                g,
                fun_value(f, inp((k + n) as nat)),
            ));
        } else {
            assert((k2 + (n - 1) - 1) as nat == (k + n) as nat);
        }
    }
}

/// Mapping one transform and then another over a stream is the same as
/// mapping their composition: both processors write the same `n`-th output
/// element on every input, for every `n`.
pub proof fn lemma_map_fusion(
    f: Fun,
    g: Fun,
    inp: spec_fn(nat) -> Value,
    n: nat,
    v: Value,
)
    ensures
        produces(compose_term(map_term(f), map_term(g)), inp, n, v) <==> produces(
            map_term(Fun::Then(Box::new(f), Box::new(g))),
            inp,
            n,
            v,
        ),
{
    let lhs = compose_term(map_term(f), map_term(g));
    let rhs = map_term(Fun::Then(Box::new(f), Box::new(g)));
    let w = fun_value(g, fun_value(f, inp(n)));
    lemma_comp_map_nth(f, g, inp, 0, n);
    lemma_map_nth(Fun::Then(Box::new(f), Box::new(g)), inp, 0, n);
    assert(fun_value(Fun::Then(Box::new(f), Box::new(g)), inp(n)) == w);
    lemma_produces_exactly(lhs, inp, n, w);
    lemma_produces_exactly(rhs, inp, n, w);
}

/// The identity transform is a two-sided identity of sequential composition
/// on pointwise stages: a mapping stage composed with the identity stage, on
/// either side, writes the same `n`-th output element as the mapping stage
/// alone, for every input and every `n`.
pub proof fn lemma_map_identity(f: Fun, inp: spec_fn(nat) -> Value, n: nat, v: Value)
    ensures
        produces(compose_term(map_term(Fun::Id), map_term(f)), inp, n, v) <==> produces(
            map_term(f),
            inp,
            n,
            v,
        ),
        produces(compose_term(map_term(f), map_term(Fun::Id)), inp, n, v) <==> produces(
            map_term(f),
            inp,
            n,
            v,
        ),
{
    let w = fun_value(f, inp(n));
    lemma_comp_map_nth(Fun::Id, f, inp, 0, n);
    lemma_comp_map_nth(f, Fun::Id, inp, 0, n);
    lemma_map_nth(f, inp, 0, n);
    lemma_produces_exactly(compose_term(map_term(Fun::Id), map_term(f)), inp, n, w);
    lemma_produces_exactly(compose_term(map_term(f), map_term(Fun::Id)), inp, n, w);
    lemma_produces_exactly(map_term(f), inp, n, w);
}

/// How many positions `i` with `a <= i < b` hold an element satisfying the
/// predicate.
pub open spec fn matches_between(p: Pred, inp: spec_fn(nat) -> Value, a: nat, b: nat) -> nat
    decreases b - a,
{
    if a >= b {
        0
    } else {
        (if pred_value(p, inp(a)) {
            1nat
        } else {
            0nat
        }) + matches_between(p, inp, (a + 1) as nat, b)
    }
}

/// Counting satisfying positions splits at any position in between.
proof fn lemma_matches_split(p: Pred, inp: spec_fn(nat) -> Value, a: nat, m: nat, b: nat)
    requires
        a <= m <= b,
    ensures
        matches_between(p, inp, a, b) == matches_between(p, inp, a, m) + matches_between(
            p,
            inp,
            m,
            b,
        ),
    decreases m - a,
{
    if a < m {
        lemma_matches_split(p, inp, (a + 1) as nat, m, b);
    }
}

/// A stretch without satisfying positions counts zero, and the other way
/// around.
proof fn lemma_matches_zero(p: Pred, inp: spec_fn(nat) -> Value, a: nat, b: nat)
    requires
        a <= b,
    ensures
        matches_between(p, inp, a, b) == 0 <==> (forall|i: nat|
            a <= i < b ==> !(#[trigger] pred_value(p, inp(i)))),
    decreases b - a,
{
    if a < b {
        lemma_matches_zero(p, inp, (a + 1) as nat, b);
    }
}

/// Ahead of any satisfying position there is a first one.
proof fn lemma_first_match(p: Pred, inp: spec_fn(nat) -> Value, k: nat, j: nat)
    requires
        k <= j,
        pred_value(p, inp(j)),
    ensures
        exists|j0: nat|
            k <= j0 <= j && #[trigger] pred_value(p, inp(j0)) && (forall|i: nat|
                k <= i < j0 ==> !(#[trigger] pred_value(p, inp(i)))),
    decreases j - k,
{
    if pred_value(p, inp(k)) {
        assert(k <= k <= j && pred_value(p, inp(k)) && (forall|i: nat|
            k <= i < k ==> !(#[trigger] pred_value(p, inp(i)))));
    } else {
        lemma_first_match(p, inp, (k + 1) as nat, j);
        let j0 = choose|j0: nat|
            k + 1 <= j0 <= j && #[trigger] pred_value(p, inp(j0)) && (forall|i: nat|
                k + 1 <= i < j0 ==> !(#[trigger] pred_value(p, inp(i))));
        assert(k <= j0 <= j && #[trigger] pred_value(p, inp(j0)) && (forall|i: nat|
            k <= i < j0 ==> !(#[trigger] pred_value(p, inp(i)))));
    }
}

/// A filtering processor scanning from position `k`, where `j` is the first
/// satisfying position at or past `k`, writes the element at `j` next and
/// reads on from `j + 1`.
proof fn lemma_filter_scan(p: Pred, inp: spec_fn(nat) -> Value, k: nat, j: nat)
    requires
        k <= j,
        pred_value(p, inp(j)),
        forall|i: nat| k <= i < j ==> !(#[trigger] pred_value(p, inp(i))),
    ensures
        exists|fuel: nat|
            next_output(filter_term(p), inp, k, fuel) == Some(
                (inp(j), Thunk::FilterAgain(p), (j + 1) as nat),
            ),
    decreases j - k,
{
    let c = Cont::Filtering(p);
    let a0 = StreamProcessor::Apply(c, inp(k));
    if j == k {
        assert(sp_step(a0) == StreamProcessor::Put(inp(k), Thunk::FilterAgain(p)));
        assert(next_output(filter_term(p), inp, k, 3) == next_output(a0, inp, (k + 1) as nat, 2));
        assert(next_output(a0, inp, (k + 1) as nat, 2) == next_output(
            StreamProcessor::Put(inp(k), Thunk::FilterAgain(p)),
            inp,
            (k + 1) as nat,
            1,
        ));
        assert(next_output(filter_term(p), inp, k, 3) == Some(
            (inp(j), Thunk::FilterAgain(p), (j + 1) as nat),
        ));
    } else {
        assert(!pred_value(p, inp(k)));
        assert(sp_step(a0) == filter_term(p));
        let k1 = (k + 1) as nat;
        let j1 = (j + 1) as nat;
        lemma_filter_scan(p, inp, k1, j);
        let f0 = choose|fuel: nat|
            next_output(filter_term(p), inp, k1, fuel) == Some(
                (inp(j), Thunk::FilterAgain(p), j1),
            );
        assert(next_output(filter_term(p), inp, k, (f0 + 2) as nat) == next_output(
            a0,
            inp,
            (k + 1) as nat,
            (f0 + 1) as nat,
        ));
        assert(next_output(a0, inp, (k + 1) as nat, (f0 + 1) as nat) == next_output(
            filter_term(p),
            inp,
            (k + 1) as nat,
            f0,
        ));
    }
}

/// The resumed form of the scanning processor behaves the same way.
proof fn lemma_filter_scan_resume(p: Pred, inp: spec_fn(nat) -> Value, k: nat, j: nat)
    requires
        k <= j,
        pred_value(p, inp(j)),
        forall|i: nat| k <= i < j ==> !(#[trigger] pred_value(p, inp(i))),
    ensures
        exists|fuel: nat|
            next_output(StreamProcessor::Force(Thunk::FilterAgain(p)), inp, k, fuel) == Some(
                (inp(j), Thunk::FilterAgain(p), (j + 1) as nat),
            ),
{
    lemma_filter_scan(p, inp, k, j);
    let f0 = choose|fuel: nat|
        next_output(filter_term(p), inp, k, fuel) == Some(
            (inp(j), Thunk::FilterAgain(p), (j + 1) as nat),
        );
    let r0 = StreamProcessor::Force(Thunk::FilterAgain(p));
    assert(sp_step(r0) == filter_term(p));
    assert(next_output(r0, inp, k, (f0 + 1) as nat) == next_output(filter_term(p), inp, k, f0));
}

/// Whatever a filtering processor writes next is the element of the first
/// satisfying position at or past where it reads, and it reads on right
/// after it.
proof fn lemma_filter_next_inv(
    p: Pred,
    inp: spec_fn(nat) -> Value,
    k: nat,
    fuel: nat,
    b: Value,
    t: Thunk,
    k2: nat,
)
    requires
        next_output(filter_term(p), inp, k, fuel) == Some((b, t, k2)),
    ensures
        exists|j: nat|
            k <= j && #[trigger] pred_value(p, inp(j)) && b == inp(j) && t == Thunk::FilterAgain(p) && k2 == j
                + 1 && (forall|i: nat| k <= i < j ==> !(#[trigger] pred_value(p, inp(i)))),
    decreases fuel,
{
    let c = Cont::Filtering(p);
    let a0 = StreamProcessor::Apply(c, inp(k));
    assert(fuel >= 1);
    assert(next_output(filter_term(p), inp, k, fuel) == next_output(
        a0,
        inp,
        (k + 1) as nat,
        (fuel - 1) as nat,
    ));
    assert((fuel - 1) as nat >= 1);
    if pred_value(p, inp(k)) {
        assert(sp_step(a0) == StreamProcessor::Put(inp(k), Thunk::FilterAgain(p)));
        assert(next_output(a0, inp, (k + 1) as nat, (fuel - 1) as nat) == next_output(
            StreamProcessor::Put(inp(k), Thunk::FilterAgain(p)),
            inp,
            (k + 1) as nat,
            (fuel - 2) as nat,
        ));
        let j = k;
        assert(k <= j && #[trigger] pred_value(p, inp(j)) && b == inp(j) && t == Thunk::FilterAgain(p) && k2
            == j + 1 && (forall|i: nat| k <= i < j ==> !(#[trigger] pred_value(p, inp(i)))));
    } else {
        assert(sp_step(a0) == filter_term(p));
        assert(next_output(a0, inp, (k + 1) as nat, (fuel - 1) as nat) == next_output(
            filter_term(p),
            inp,
            (k + 1) as nat,
            (fuel - 2) as nat,
        ));
        lemma_filter_next_inv(p, inp, (k + 1) as nat, (fuel - 2) as nat, b, t, k2);
        let j = choose|j: nat|
            k + 1 <= j && #[trigger] pred_value(p, inp(j)) && b == inp(j) && t == Thunk::FilterAgain(p) && k2
                == j + 1 && (forall|i: nat| k + 1 <= i < j ==> !(#[trigger] pred_value(p, inp(i))));
        assert(k <= j && #[trigger] pred_value(p, inp(j)) && b == inp(j) && t == Thunk::FilterAgain(p) && k2
            == j + 1 && (forall|i: nat| k <= i < j ==> !(#[trigger] pred_value(p, inp(i)))));
    }
}

/// The resumed form of the scanning processor allows the same conclusion.
proof fn lemma_filter_next_inv_resume(
    p: Pred,
    inp: spec_fn(nat) -> Value,
    k: nat,
    fuel: nat,
    b: Value,
    t: Thunk,
    k2: nat,
)
    requires
        next_output(StreamProcessor::Force(Thunk::FilterAgain(p)), inp, k, fuel) == Some(
            (b, t, k2),
        ),
    ensures
        exists|j: nat|
            k <= j && #[trigger] pred_value(p, inp(j)) && b == inp(j) && t == Thunk::FilterAgain(p) && k2 == j
                + 1 && (forall|i: nat| k <= i < j ==> !(#[trigger] pred_value(p, inp(i)))),
{
    let r0 = StreamProcessor::Force(Thunk::FilterAgain(p));
    assert(fuel >= 1);
    assert(sp_step(r0) == filter_term(p));
    assert(next_output(r0, inp, k, fuel) == next_output(
        filter_term(p),
        inp,
        k,
        (fuel - 1) as nat,
    ));
    lemma_filter_next_inv(p, inp, k, (fuel - 1) as nat, b, t, k2);
}

/// Resumed at position `k`, the filtering processor writes as its `n`-th
/// further output the element of the satisfying position `j` that has
/// exactly `n` satisfying positions between `k` and it.
proof fn lemma_filter_nth_resume(p: Pred, inp: spec_fn(nat) -> Value, k: nat, n: nat, j: nat)
    requires
        k <= j,
        pred_value(p, inp(j)),
        matches_between(p, inp, k, j) == n,
    ensures
        exists|fuel: nat|
            nth_output(StreamProcessor::Force(Thunk::FilterAgain(p)), inp, k, n, fuel) == Some(
                inp(j),
            ),
    decreases n,
{
    let r0 = StreamProcessor::Force(Thunk::FilterAgain(p));
    lemma_matches_zero(p, inp, k, j);
    if n == 0 {
        lemma_filter_scan_resume(p, inp, k, j);
        let f0 = choose|fuel: nat|
            next_output(r0, inp, k, fuel) == Some((inp(j), Thunk::FilterAgain(p), (j + 1) as nat));
        assert(nth_output(r0, inp, k, 0, f0) == Some(inp(j)));
    } else {
        lemma_first_match(p, inp, k, j);
        let j0 = choose|j0: nat|
            k <= j0 <= j && #[trigger] pred_value(p, inp(j0)) && (forall|i: nat|
                k <= i < j0 ==> !(#[trigger] pred_value(p, inp(i))));
        lemma_matches_zero(p, inp, k, j0);
        lemma_matches_split(p, inp, k, j0, j);
        assert(j0 < j);
        assert(matches_between(p, inp, j0, j) == n);
        assert(matches_between(p, inp, (j0 + 1) as nat, j) == (n - 1) as nat);
        lemma_filter_scan_resume(p, inp, k, j0);
        let f1 = choose|fuel: nat|
            next_output(r0, inp, k, fuel) == Some(
                (inp(j0), Thunk::FilterAgain(p), (j0 + 1) as nat),
            );
        let j01 = (j0 + 1) as nat;
        let n1 = (n - 1) as nat;
        lemma_filter_nth_resume(p, inp, j01, n1, j);
        let f2 = choose|fuel: nat| nth_output(r0, inp, j01, n1, fuel) == Some(inp(j));
        lemma_nth_segments(
            r0,
            inp,
            k,
            n,
            inp(j0),
            Thunk::FilterAgain(p),
            (j0 + 1) as nat,
            inp(j),
            f1,
            f2,
        );
    }
}

/// Resumed at position `k`, whatever the filtering processor writes as its
/// `n`-th further output is the element of a satisfying position with
/// exactly `n` satisfying positions between `k` and it.
proof fn lemma_filter_nth_resume_inv(
    p: Pred,
    inp: spec_fn(nat) -> Value,
    k: nat,
    n: nat,
    fuel: nat,
    v: Value,
)
    requires
        nth_output(StreamProcessor::Force(Thunk::FilterAgain(p)), inp, k, n, fuel) == Some(v),
    ensures
        exists|j: nat|
            k <= j && #[trigger] pred_value(p, inp(j)) && v == inp(j) && matches_between(p, inp, k, j) == n,
    decreases n,
{
    let r0 = StreamProcessor::Force(Thunk::FilterAgain(p));
    let (b, t, k2) = next_output(r0, inp, k, fuel)->Some_0;
    lemma_filter_next_inv_resume(p, inp, k, fuel, b, t, k2);
    let j0 = choose|j0: nat|
        k <= j0 && #[trigger] pred_value(p, inp(j0)) && b == inp(j0) && t == Thunk::FilterAgain(p) && k2 == j0
            + 1 && (forall|i: nat| k <= i < j0 ==> !(#[trigger] pred_value(p, inp(i))));
    lemma_matches_zero(p, inp, k, j0);
    lemma_matches_split(p, inp, k, j0, (j0 + 1) as nat);
    if n == 0 {
        assert(v == inp(j0) && matches_between(p, inp, k, j0) == 0);
    } else {
        lemma_filter_nth_resume_inv(p, inp, (j0 + 1) as nat, (n - 1) as nat, fuel, v);
        let j = choose|j: nat|
            j0 + 1 <= j && #[trigger] pred_value(p, inp(j)) && v == inp(j) && matches_between(
                p,
                inp,
                (j0 + 1) as nat,
                j,
            ) == (n - 1) as nat;
        lemma_matches_split(p, inp, k, (j0 + 1) as nat, j);
        assert(matches_between(p, inp, (j0 + 1) as nat, (j0 + 1) as nat) == 0);
        assert(matches_between(p, inp, j0, (j0 + 1) as nat) == 1);
        assert(matches_between(p, inp, k, (j0 + 1) as nat) == 1);
        assert(matches_between(p, inp, k, j) == n);
    }
}

/// The filtering law: the `n`-th element the filtering processor writes is
/// exactly the element of the `n`-th satisfying position of the input — so
/// every written element satisfies the predicate, the satisfying elements
/// are written in input order, and none of them is omitted.
pub proof fn lemma_filter_law(p: Pred, inp: spec_fn(nat) -> Value, n: nat, v: Value)
    ensures
        produces(filter_term(p), inp, n, v) <==> exists|j: nat|
            #[trigger] pred_value(p, inp(j)) && matches_between(p, inp, 0, j) == n && v == inp(j),
{
    let sp = filter_term(p);
    let r0 = StreamProcessor::Force(Thunk::FilterAgain(p));
    assert(sp_step(r0) == sp);
    if produces(sp, inp, n, v) {
        let fuel = choose|fuel: nat| nth_output(sp, inp, 0, n, fuel) == Some(v);
        let f1 = (fuel + 1) as nat;
        assert(next_output(r0, inp, 0, f1) == next_output(sp, inp, 0, fuel));
        let (b, t, k2) = next_output(sp, inp, 0, fuel)->Some_0;
        if n == 0 {
            assert(nth_output(r0, inp, 0, n, f1) == Some(v));
        } else {
            assert(nth_output(StreamProcessor::Force(t), inp, k2, (n - 1) as nat, fuel) == Some(
                v,
            ));
            lemma_nth_output_mono(StreamProcessor::Force(t), inp, k2, (n - 1) as nat, fuel, f1);
            assert(nth_output(r0, inp, 0, n, f1) == Some(v));
        }
        lemma_filter_nth_resume_inv(p, inp, 0, n, f1, v);
    }
    if exists|j: nat| #[trigger] pred_value(p, inp(j)) && matches_between(p, inp, 0, j) == n && v == inp(j) {
        let j = choose|j: nat|
            #[trigger] pred_value(p, inp(j)) && matches_between(p, inp, 0, j) == n && v == inp(j);
        lemma_filter_nth_resume(p, inp, 0, n, j);
        let fuel = choose|fuel: nat| nth_output(r0, inp, 0, n, fuel) == Some(v);
        assert(fuel >= 1);
        assert(next_output(r0, inp, 0, fuel) == next_output(sp, inp, 0, (fuel - 1) as nat));
        let (b, t, k2) = next_output(r0, inp, 0, fuel)->Some_0;
        lemma_next_output_mono(sp, inp, 0, (fuel - 1) as nat, fuel);
        assert(next_output(sp, inp, 0, fuel) == Some((b, t, k2)));
        if n == 0 {
            assert(nth_output(sp, inp, 0, n, fuel) == Some(v));
        } else {
            assert(nth_output(StreamProcessor::Force(t), inp, k2, (n - 1) as nat, fuel) == Some(
                v,
            ));
            assert(nth_output(sp, inp, 0, n, fuel) == Some(v));
        }
        assert(produces(sp, inp, n, v));
    }
}

/// `j` is the first position at or past `a` whose element satisfies the
/// predicate.
pub open spec fn first_match_from(r: Pred, inp: spec_fn(nat) -> Value, a: nat, j: nat) -> bool {
    a <= j && pred_value(r, inp(j)) && (forall|i: nat|
        a <= i < j ==> !(#[trigger] pred_value(r, inp(i))))
}

/// `j` is the position of the `n`-th element written by an interleaving of
/// two scans that starts reading at `k` and scans for `a` first: the
/// positions of matches of `a` and `b` in turns, each sought strictly after
/// the one before.
pub open spec fn alt_index_from(
    a: Pred,
    b: Pred,
    inp: spec_fn(nat) -> Value,
    k: nat,
    n: nat,
    j: nat,
) -> bool
    decreases n,
{
    if n == 0 {
        first_match_from(a, inp, k, j)
    } else {
        exists|j9: nat|
            #[trigger] first_match_from(a, inp, k, j9) && alt_index_from(
                b,
                a,
                inp,
                (j9 + 1) as nat,
                (n - 1) as nat,
                j,
            )
    }
}

/// The scanning state of an interleaving whose controlling side filters
/// with `r`, carrying the waiting side `z`.
pub open spec fn alt_scan_state(r: Pred, z: StreamProcessor) -> StreamProcessor {
    StreamProcessor::Get(Cont::Alternating(Box::new(Cont::Filtering(r)), Box::new(z)))
}

/// An interleaving scanning for `r` from position `k`, where `j` is the
/// first satisfying position at or past `k`, writes the element at `j` next
/// and suspends with the sides traded.
proof fn lemma_alt_scan(r: Pred, z: StreamProcessor, inp: spec_fn(nat) -> Value, k: nat, j: nat)
    requires
        first_match_from(r, inp, k, j),
    ensures
        exists|fuel: nat|
            next_output(alt_scan_state(r, z), inp, k, fuel) == Some(
                (inp(j), Thunk::SwapIn(Box::new(z), Box::new(Thunk::FilterAgain(r))), (j
                    + 1) as nat),
            ),
    decreases j - k,
{
    let w = alt_scan_state(r, z);
    let v = inp(k);
    let k1 = (k + 1) as nat;
    let a0 = StreamProcessor::Apply(Cont::Alternating(Box::new(Cont::Filtering(r)), Box::new(z)), v);
    let a1 = StreamProcessor::Alternate(
        Box::new(StreamProcessor::Apply(Cont::Filtering(r), v)),
        Box::new(z),
    );
    assert(next_output(w, inp, k, 5) == next_output(a0, inp, k1, 4));
    assert(sp_step(a0) == a1);
    if j == k {
        let a2 = StreamProcessor::Alternate(
            Box::new(StreamProcessor::Put(v, Thunk::FilterAgain(r))),
            Box::new(z),
        );
        let a3 = StreamProcessor::Put(
            v,
            Thunk::SwapIn(Box::new(z), Box::new(Thunk::FilterAgain(r))),
        );
        assert(sp_step(StreamProcessor::Apply(Cont::Filtering(r), v)) == StreamProcessor::Put(
            v,
            Thunk::FilterAgain(r),
        ));
        assert(sp_step(a1) == a2);
        assert(sp_step(a2) == a3);
        assert(next_output(a0, inp, k1, 4) == next_output(a1, inp, k1, 3));
        assert(next_output(a1, inp, k1, 3) == next_output(a2, inp, k1, 2));
        assert(next_output(a2, inp, k1, 2) == next_output(a3, inp, k1, 1));
        assert(next_output(w, inp, k, 5) == Some(
            (inp(j), Thunk::SwapIn(Box::new(z), Box::new(Thunk::FilterAgain(r))), (j + 1) as nat),
        ));
    } else {
        assert(!pred_value(r, inp(k)));
        let a2 = StreamProcessor::Alternate(
            Box::new(StreamProcessor::Get(Cont::Filtering(r))),
            Box::new(z),
        );
        assert(sp_step(StreamProcessor::Apply(Cont::Filtering(r), v)) == StreamProcessor::Get(
            Cont::Filtering(r),
        ));
        assert(sp_step(a1) == a2);
        assert(sp_step(a2) == w);
        lemma_alt_scan(r, z, inp, k1, j);
        let f0 = choose|fuel: nat|
            next_output(alt_scan_state(r, z), inp, k1, fuel) == Some(
                (inp(j), Thunk::SwapIn(Box::new(z), Box::new(Thunk::FilterAgain(r))), (j
                    + 1) as nat),
            );
        assert(next_output(w, inp, k, (f0 + 4) as nat) == next_output(
            a0,
            inp,
            k1,
            (f0 + 3) as nat,
        ));
        assert(next_output(a0, inp, k1, (f0 + 3) as nat) == next_output(
            a1,
            inp,
            k1,
            (f0 + 2) as nat,
        ));
        assert(next_output(a1, inp, k1, (f0 + 2) as nat) == next_output(
            a2,
            inp,
            k1,
            (f0 + 1) as nat,
        ));
        assert(next_output(a2, inp, k1, (f0 + 1) as nat) == next_output(w, inp, k1, f0));
    }
}

/// Whatever an interleaving scanning for `r` writes next is the element of
/// the first satisfying position at or past where it reads, and it suspends
/// with the sides traded.
proof fn lemma_alt_next_inv(
    r: Pred,
    z: StreamProcessor,
    inp: spec_fn(nat) -> Value,
    k: nat,
    fuel: nat,
    b: Value,
    t: Thunk,
    k2: nat,
)
    requires
        next_output(alt_scan_state(r, z), inp, k, fuel) == Some((b, t, k2)),
    ensures
        exists|j: nat|
            #[trigger] first_match_from(r, inp, k, j) && b == inp(j) && t == Thunk::SwapIn(
                Box::new(z),
                Box::new(Thunk::FilterAgain(r)),
            ) && k2 == j + 1,
    decreases fuel,
{
    let w = alt_scan_state(r, z);
    let v = inp(k);
    let k1 = (k + 1) as nat;
    let a0 = StreamProcessor::Apply(Cont::Alternating(Box::new(Cont::Filtering(r)), Box::new(z)), v);
    let a1 = StreamProcessor::Alternate(
        Box::new(StreamProcessor::Apply(Cont::Filtering(r), v)),
        Box::new(z),
    );
    assert(fuel >= 1);
    assert(next_output(w, inp, k, fuel) == next_output(a0, inp, k1, (fuel - 1) as nat));
    assert((fuel - 1) as nat >= 1);
    assert(sp_step(a0) == a1);
    assert(next_output(a0, inp, k1, (fuel - 1) as nat) == next_output(
        a1,
        inp,
        k1,
        (fuel - 2) as nat,
    ));
    assert((fuel - 2) as nat >= 1);
    if pred_value(r, v) {
        let a2 = StreamProcessor::Alternate(
            Box::new(StreamProcessor::Put(v, Thunk::FilterAgain(r))),
            Box::new(z),
        );
        let a3 = StreamProcessor::Put(
            v,
            Thunk::SwapIn(Box::new(z), Box::new(Thunk::FilterAgain(r))),
        );
        assert(sp_step(StreamProcessor::Apply(Cont::Filtering(r), v)) == StreamProcessor::Put(
            v,
            Thunk::FilterAgain(r),
        ));
        assert(sp_step(a1) == a2);
        assert(sp_step(a2) == a3);
        assert(next_output(a1, inp, k1, (fuel - 2) as nat) == next_output(
            a2,
            inp,
            k1,
            (fuel - 3) as nat,
        ));
        assert(next_output(a2, inp, k1, (fuel - 3) as nat) == next_output(
            a3,
            inp,
            k1,
            (fuel - 4) as nat,
        ));
        assert(first_match_from(r, inp, k, k));
    } else {
        let a2 = StreamProcessor::Alternate(
            Box::new(StreamProcessor::Get(Cont::Filtering(r))),
            Box::new(z),
        );
        assert(sp_step(StreamProcessor::Apply(Cont::Filtering(r), v)) == StreamProcessor::Get(
            Cont::Filtering(r),
        ));
        assert(sp_step(a1) == a2);
        assert(sp_step(a2) == w);
        assert(next_output(a1, inp, k1, (fuel - 2) as nat) == next_output(
            a2,
            inp,
            k1,
            (fuel - 3) as nat,
        ));
        assert(next_output(a2, inp, k1, (fuel - 3) as nat) == next_output(
            w,
            inp,
            k1,
            (fuel - 4) as nat,
        ));
        lemma_alt_next_inv(r, z, inp, k1, (fuel - 4) as nat, b, t, k2);
        let j = choose|j: nat|
            #[trigger] first_match_from(r, inp, k1, j) && b == inp(j) && t == Thunk::SwapIn(
                Box::new(z),
                Box::new(Thunk::FilterAgain(r)),
            ) && k2 == j + 1;
        assert(first_match_from(r, inp, k, j));
    }
}

/// The suspension left behind once both sides of an interleaving of two
/// scans have written: scan for `a` next, with the `b` scan waiting.
pub open spec fn alt_swap_state(a: Pred, b: Pred) -> StreamProcessor {
    StreamProcessor::Force(
        Thunk::SwapIn(
            Box::new(StreamProcessor::Force(Thunk::FilterAgain(a))),
            Box::new(Thunk::FilterAgain(b)),
        ),
    )
}

/// Resuming the traded sides reaches the scanning state in three rewrites.
proof fn lemma_alt_swap_unwind(a: Pred, b: Pred, inp: spec_fn(nat) -> Value, k: nat, fuel: nat)
    ensures
        next_output(alt_swap_state(a, b), inp, k, (fuel + 3) as nat) == next_output(
            alt_scan_state(a, StreamProcessor::Force(Thunk::FilterAgain(b))),
            inp,
            k,
            fuel,
        ),
{
    let zb = StreamProcessor::Force(Thunk::FilterAgain(b));
    let s0 = alt_swap_state(a, b);
    let s1 = StreamProcessor::Alternate(
        Box::new(StreamProcessor::Force(Thunk::FilterAgain(a))),
        Box::new(StreamProcessor::Force(Thunk::FilterAgain(b))),
    );
    let s2 = StreamProcessor::Alternate(
        Box::new(StreamProcessor::Get(Cont::Filtering(a))),
        Box::new(zb),
    );
    assert(sp_step(s0) == s1);
    assert(sp_step(StreamProcessor::Force(Thunk::FilterAgain(a))) == StreamProcessor::Get(
        Cont::Filtering(a),
    ));
    assert(sp_step(s1) == s2);
    assert(sp_step(s2) == alt_scan_state(a, zb));
    assert(next_output(s0, inp, k, (fuel + 3) as nat) == next_output(
        s1,
        inp,
        k,
        (fuel + 2) as nat,
    ));
    assert(next_output(s1, inp, k, (fuel + 2) as nat) == next_output(
        s2,
        inp,
        k,
        (fuel + 1) as nat,
    ));
    assert(next_output(s2, inp, k, (fuel + 1) as nat) == next_output(
        alt_scan_state(a, zb),
        inp,
        k,
        fuel,
    ));
}

/// From the traded-sides suspension, the interleaving writes as its `n`-th
/// further element exactly the element at the `n`-th alternating match
/// position, scanning for `a` first.
proof fn lemma_alt_nth_swap(a: Pred, b: Pred, inp: spec_fn(nat) -> Value, k: nat, n: nat, j: nat)
    requires
        alt_index_from(a, b, inp, k, n, j),
    ensures
        exists|fuel: nat| nth_output(alt_swap_state(a, b), inp, k, n, fuel) == Some(inp(j)),
    decreases n,
{
    let zb = StreamProcessor::Force(Thunk::FilterAgain(b));
    let s0 = alt_swap_state(a, b);
    if n == 0 {
        lemma_alt_scan(a, zb, inp, k, j);
        let f0 = choose|fuel: nat|
            next_output(alt_scan_state(a, zb), inp, k, fuel) == Some(
                (inp(j), Thunk::SwapIn(Box::new(zb), Box::new(Thunk::FilterAgain(a))), (j
                    + 1) as nat),
            );
        lemma_alt_swap_unwind(a, b, inp, k, f0);
        assert(nth_output(s0, inp, k, 0, (f0 + 3) as nat) == Some(inp(j)));
    } else {
        let j9 = choose|j9: nat|
            #[trigger] first_match_from(a, inp, k, j9) && alt_index_from(
                b,
                a,
                inp,
                (j9 + 1) as nat,
                (n - 1) as nat,
                j,
            );
        lemma_alt_scan(a, zb, inp, k, j9);
        let f1 = choose|fuel: nat|
            next_output(alt_scan_state(a, zb), inp, k, fuel) == Some(
                (inp(j9), Thunk::SwapIn(Box::new(zb), Box::new(Thunk::FilterAgain(a))), (j9
                    + 1) as nat),
            );
        lemma_alt_swap_unwind(a, b, inp, k, f1);
        let j91 = (j9 + 1) as nat;
        let n1 = (n - 1) as nat;
        lemma_alt_nth_swap(b, a, inp, j91, n1, j);
        let f2 = choose|fuel: nat| nth_output(alt_swap_state(b, a), inp, j91, n1, fuel) == Some(
            inp(j),
        );
        assert(StreamProcessor::Force(
            Thunk::SwapIn(Box::new(zb), Box::new(Thunk::FilterAgain(a))),
        ) == alt_swap_state(b, a));
        lemma_nth_segments(
            s0,
            inp,
            k,
            n,
            inp(j9),
            Thunk::SwapIn(Box::new(zb), Box::new(Thunk::FilterAgain(a))),
            j91,
            inp(j),
            (f1 + 3) as nat,
            f2,
        );
    }
}

/// From the traded-sides suspension, whatever the interleaving writes as
/// its `n`-th further element sits at the `n`-th alternating match position.
proof fn lemma_alt_nth_swap_inv(
    a: Pred,
    b: Pred,
    inp: spec_fn(nat) -> Value,
    k: nat,
    n: nat,
    fuel: nat,
    v: Value,
)
    requires
        nth_output(alt_swap_state(a, b), inp, k, n, fuel) == Some(v),
    ensures
        exists|j: nat| #[trigger] alt_index_from(a, b, inp, k, n, j) && v == inp(j),
    decreases n,
{
    let zb = StreamProcessor::Force(Thunk::FilterAgain(b));
    let s0 = alt_swap_state(a, b);
    let (b0, t0, k2) = next_output(s0, inp, k, fuel)->Some_0;
    assert(fuel >= 3 && next_output(alt_scan_state(a, zb), inp, k, (fuel - 3) as nat) == Some(
        (b0, t0, k2),
    )) by {
        if fuel >= 3 {
            lemma_alt_swap_unwind(a, b, inp, k, (fuel - 3) as nat);
        } else {
            let s1 = StreamProcessor::Alternate(
                Box::new(StreamProcessor::Force(Thunk::FilterAgain(a))),
                Box::new(zb),
            );
            let s2 = StreamProcessor::Alternate(
                Box::new(StreamProcessor::Get(Cont::Filtering(a))),
                Box::new(zb),
            );
            assert(sp_step(s0) == s1);
            assert(sp_step(StreamProcessor::Force(Thunk::FilterAgain(a)))
                == StreamProcessor::Get(Cont::Filtering(a)));
            assert(sp_step(s1) == s2);
            if fuel == 1 {
                assert(next_output(s0, inp, k, 1) == next_output(s1, inp, k, 0));
            } else if fuel == 2 {
                assert(next_output(s0, inp, k, 2) == next_output(s1, inp, k, 1));
                assert(next_output(s1, inp, k, 1) == next_output(s2, inp, k, 0));
            }
        }
    }
    lemma_alt_next_inv(a, zb, inp, k, (fuel - 3) as nat, b0, t0, k2);
    let j0 = choose|j0: nat|
        #[trigger] first_match_from(a, inp, k, j0) && b0 == inp(j0) && t0 == Thunk::SwapIn(
            Box::new(zb),
            Box::new(Thunk::FilterAgain(a)),
        ) && k2 == j0 + 1;
    if n == 0 {
        assert(alt_index_from(a, b, inp, k, 0, j0) && v == inp(j0));
    } else {
        assert(StreamProcessor::Force(t0) == alt_swap_state(b, a));
        lemma_alt_nth_swap_inv(b, a, inp, k2, (n - 1) as nat, fuel, v);
        let j = choose|j: nat|
            #[trigger] alt_index_from(b, a, inp, k2, (n - 1) as nat, j) && v == inp(j);
        assert(alt_index_from(a, b, inp, k, n, j));
    }
}

/// The suspension left behind after the first write of an interleaving of
/// two scans: the `a` scan has not run yet, the `b` scan just wrote.
pub open spec fn alt_init_state(a: Pred, b: Pred) -> StreamProcessor {
    StreamProcessor::Force(
        Thunk::SwapIn(Box::new(filter_term(a)), Box::new(Thunk::FilterAgain(b))),
    )
}

/// Resuming after the interleaving's first write reaches the scanning state
/// in two rewrites.
proof fn lemma_alt_init_unwind(a: Pred, b: Pred, inp: spec_fn(nat) -> Value, k: nat, fuel: nat)
    ensures
        next_output(alt_init_state(a, b), inp, k, (fuel + 2) as nat) == next_output(
            alt_scan_state(a, StreamProcessor::Force(Thunk::FilterAgain(b))),
            inp,
            k,
            fuel,
        ),
{
    let zb = StreamProcessor::Force(Thunk::FilterAgain(b));
    let s0 = alt_init_state(a, b);
    let s1 = StreamProcessor::Alternate(Box::new(filter_term(a)), Box::new(zb));
    assert(sp_step(s0) == s1);
    assert(sp_step(s1) == alt_scan_state(a, zb));
    assert(next_output(s0, inp, k, (fuel + 2) as nat) == next_output(
        s1,
        inp,
        k,
        (fuel + 1) as nat,
    ));
    assert(next_output(s1, inp, k, (fuel + 1) as nat) == next_output(
        alt_scan_state(a, zb),
        inp,
        k,
        fuel,
    ));
}

/// After the interleaving's first write, it writes as its `m`-th further
/// element exactly the element at the `m`-th alternating match position,
/// scanning for `a` first.
proof fn lemma_alt_nth_init(a: Pred, b: Pred, inp: spec_fn(nat) -> Value, k: nat, m: nat, j: nat)
    requires
        alt_index_from(a, b, inp, k, m, j),
    ensures
        exists|fuel: nat| nth_output(alt_init_state(a, b), inp, k, m, fuel) == Some(inp(j)),
{
    let zb = StreamProcessor::Force(Thunk::FilterAgain(b));
    let s0 = alt_init_state(a, b);
    if m == 0 {
        lemma_alt_scan(a, zb, inp, k, j);
        let f0 = choose|fuel: nat|
            next_output(alt_scan_state(a, zb), inp, k, fuel) == Some(
                (inp(j), Thunk::SwapIn(Box::new(zb), Box::new(Thunk::FilterAgain(a))), (j
                    + 1) as nat),
            );
        lemma_alt_init_unwind(a, b, inp, k, f0);
        assert(nth_output(s0, inp, k, 0, (f0 + 2) as nat) == Some(inp(j)));
    } else {
        let j9 = choose|j9: nat|
            #[trigger] first_match_from(a, inp, k, j9) && alt_index_from(
                b,
                a,
                inp,
                (j9 + 1) as nat,
                (m - 1) as nat,
                j,
            );
        lemma_alt_scan(a, zb, inp, k, j9);
        let f1 = choose|fuel: nat|
            next_output(alt_scan_state(a, zb), inp, k, fuel) == Some(
                (inp(j9), Thunk::SwapIn(Box::new(zb), Box::new(Thunk::FilterAgain(a))), (j9
                    + 1) as nat),
            );
        lemma_alt_init_unwind(a, b, inp, k, f1);
        let j91 = (j9 + 1) as nat;
        let m1 = (m - 1) as nat;
        lemma_alt_nth_swap(b, a, inp, j91, m1, j);
        let f2 = choose|fuel: nat| nth_output(alt_swap_state(b, a), inp, j91, m1, fuel) == Some(
            inp(j),
        );
        assert(StreamProcessor::Force(
            Thunk::SwapIn(Box::new(zb), Box::new(Thunk::FilterAgain(a))),
        ) == alt_swap_state(b, a));
        lemma_nth_segments(
            s0,
            inp,
            k,
            m,
            inp(j9),
            Thunk::SwapIn(Box::new(zb), Box::new(Thunk::FilterAgain(a))),
            j91,
            inp(j),
            (f1 + 2) as nat,
            f2,
        );
    }
}

/// After the interleaving's first write, whatever it writes as its `m`-th
/// further element sits at the `m`-th alternating match position.
proof fn lemma_alt_nth_init_inv(
    a: Pred,
    b: Pred,
    inp: spec_fn(nat) -> Value,
    k: nat,
    m: nat,
    fuel: nat,
    v: Value,
)
    requires
        nth_output(alt_init_state(a, b), inp, k, m, fuel) == Some(v),
    ensures
        exists|j: nat| #[trigger] alt_index_from(a, b, inp, k, m, j) && v == inp(j),
{
    let zb = StreamProcessor::Force(Thunk::FilterAgain(b));
    let s0 = alt_init_state(a, b);
    let (b0, t0, k2) = next_output(s0, inp, k, fuel)->Some_0;
    assert(fuel >= 2 && next_output(alt_scan_state(a, zb), inp, k, (fuel - 2) as nat) == Some(
        (b0, t0, k2),
    )) by {
        if fuel >= 2 {
            lemma_alt_init_unwind(a, b, inp, k, (fuel - 2) as nat);
        } else {
            let s1 = StreamProcessor::Alternate(Box::new(filter_term(a)), Box::new(zb));
            assert(sp_step(s0) == s1);
            if fuel == 1 {
                assert(next_output(s0, inp, k, 1) == next_output(s1, inp, k, 0));
            }
        }
    }
    lemma_alt_next_inv(a, zb, inp, k, (fuel - 2) as nat, b0, t0, k2);
    let j0 = choose|j0: nat|
        #[trigger] first_match_from(a, inp, k, j0) && b0 == inp(j0) && t0 == Thunk::SwapIn(
            Box::new(zb),
            Box::new(Thunk::FilterAgain(a)),
        ) && k2 == j0 + 1;
    if m == 0 {
        assert(alt_index_from(a, b, inp, k, 0, j0) && v == inp(j0));
    } else {
        assert(StreamProcessor::Force(t0) == alt_swap_state(b, a));
        lemma_alt_nth_swap_inv(b, a, inp, k2, (m - 1) as nat, fuel, v);
        let j = choose|j: nat|
            #[trigger] alt_index_from(b, a, inp, k2, (m - 1) as nat, j) && v == inp(j);
        assert(alt_index_from(a, b, inp, k, m, j));
    }
}

/// The interleaving law: the `n`-th element written by the interleaving of
/// two filters is exactly the element at the `n`-th alternating match
/// position — the matches of the two predicates in turns, each strictly
/// after the one before, starting with the first processor's predicate — so
/// matches are interleaved strictly in input order.
pub proof fn lemma_alternate_law(p: Pred, q: Pred, inp: spec_fn(nat) -> Value, n: nat, v: Value)
    ensures
        produces(alternate_term(filter_term(p), filter_term(q)), inp, n, v) <==> exists|j: nat|
            #[trigger] alt_index_from(p, q, inp, 0, n, j) && v == inp(j),
{
    let t0 = alternate_term(filter_term(p), filter_term(q));
    let zq = filter_term(q);
    let w0 = alt_scan_state(p, zq);
    assert(sp_step(t0) == w0);
    if produces(t0, inp, n, v) {
        let fuel = choose|fuel: nat| nth_output(t0, inp, 0, n, fuel) == Some(v);
        let (b0, tk0, k2) = next_output(t0, inp, 0, fuel)->Some_0;
        assert(fuel >= 1);
        assert(next_output(t0, inp, 0, fuel) == next_output(w0, inp, 0, (fuel - 1) as nat));
        lemma_alt_next_inv(p, zq, inp, 0, (fuel - 1) as nat, b0, tk0, k2);
        let j0 = choose|j0: nat|
            #[trigger] first_match_from(p, inp, 0, j0) && b0 == inp(j0) && tk0 == Thunk::SwapIn(
                Box::new(zq),
                Box::new(Thunk::FilterAgain(p)),
            ) && k2 == j0 + 1;
        if n == 0 {
            assert(alt_index_from(p, q, inp, 0, 0, j0) && v == inp(j0));
        } else {
            assert(StreamProcessor::Force(tk0) == alt_init_state(q, p));
            lemma_alt_nth_init_inv(q, p, inp, k2, (n - 1) as nat, fuel, v);
            let j = choose|j: nat|
                #[trigger] alt_index_from(q, p, inp, k2, (n - 1) as nat, j) && v == inp(j);
            assert(alt_index_from(p, q, inp, 0, n, j));
        }
    }
    if exists|j: nat| #[trigger] alt_index_from(p, q, inp, 0, n, j) && v == inp(j) {
        let j = choose|j: nat| #[trigger] alt_index_from(p, q, inp, 0, n, j) && v == inp(j);
        if n == 0 {
            lemma_alt_scan(p, zq, inp, 0, j);
            let f0 = choose|fuel: nat|
                next_output(alt_scan_state(p, zq), inp, 0, fuel) == Some(
                    (inp(j), Thunk::SwapIn(Box::new(zq), Box::new(Thunk::FilterAgain(p))), (j
                        + 1) as nat),
                );
            assert(next_output(t0, inp, 0, (f0 + 1) as nat) == next_output(w0, inp, 0, f0));
            assert(nth_output(t0, inp, 0, n, (f0 + 1) as nat) == Some(v));
            assert(produces(t0, inp, n, v));
        } else {
            let j9 = choose|j9: nat|
                #[trigger] first_match_from(p, inp, 0, j9) && alt_index_from(
                    q,
                    p,
                    inp,
                    (j9 + 1) as nat,
                    (n - 1) as nat,
                    j,
                );
            lemma_alt_scan(p, zq, inp, 0, j9);
            let f1 = choose|fuel: nat|
                next_output(alt_scan_state(p, zq), inp, 0, fuel) == Some(
                    (inp(j9), Thunk::SwapIn(Box::new(zq), Box::new(Thunk::FilterAgain(p))), (j9
                        + 1) as nat),
                );
            assert(next_output(t0, inp, 0, (f1 + 1) as nat) == next_output(w0, inp, 0, f1));
            let j91 = (j9 + 1) as nat;
            let n1 = (n - 1) as nat;
            lemma_alt_nth_init(q, p, inp, j91, n1, j);
            let f2 = choose|fuel: nat|
                nth_output(alt_init_state(q, p), inp, j91, n1, fuel) == Some(inp(j));
            assert(StreamProcessor::Force(
                Thunk::SwapIn(Box::new(zq), Box::new(Thunk::FilterAgain(p))),
            ) == alt_init_state(q, p));
            lemma_nth_segments(
                t0,
                inp,
                0,
                n,
                inp(j9),
                Thunk::SwapIn(Box::new(zq), Box::new(Thunk::FilterAgain(p))),
                j91,
                inp(j),
                (f1 + 1) as nat,
                f2,
            );
            assert(produces(t0, inp, n, v));
        }
    }
}

/// The reading state a right-associated three-stage mapping pipeline
/// returns to, holding the first stage's output `x` and the second stage's
/// output `y`.
spec fn assoc_right_read_state(f: Fun, g: Fun, h: Fun, x: Value, y: Value) -> StreamProcessor {
    StreamProcessor::Get(
        Cont::Composing(
            Box::new(Cont::Mapping(f)),
            Box::new(
                StreamProcessor::Apply(
                    Cont::Composing(
                        Box::new(Cont::Mapping(g)),
                        Box::new(StreamProcessor::Apply(Cont::Mapping(h), y)),
                    ),
                    x,
                ),
            ),
        ),
    )
}

/// The suspension a right-associated three-stage mapping pipeline leaves
/// after each write.
spec fn assoc_right_thunk(f: Fun, g: Fun, h: Fun, x: Value, y: Value) -> Thunk {
    Thunk::HoldPut(
        x,
        Box::new(Thunk::MapAgain(f)),
        Box::new(Thunk::HoldPut(y, Box::new(Thunk::MapAgain(g)), Box::new(Thunk::MapAgain(h)))),
    )
}

/// From its reading state, the right-associated pipeline reads one element
/// and writes the thrice-transformed element it was holding.
proof fn lemma_assoc_right_read(
    f: Fun,
    g: Fun,
    h: Fun,
    x: Value,
    y: Value,
    inp: spec_fn(nat) -> Value,
    k: nat,
)
    ensures
        next_output(assoc_right_read_state(f, g, h, x, y), inp, k, 21) == Some(
            (
                fun_value(h, y),
                assoc_right_thunk(f, g, h, fun_value(f, inp(k)), fun_value(g, x)),
                (k + 1) as nat,
            ),
        ),
{
    let ma_f = Thunk::MapAgain(f);
    let ma_g = Thunk::MapAgain(g);
    let ma_h = Thunk::MapAgain(h);
    let v = inp(k);
    let k1 = (k + 1) as nat;
    let inner = StreamProcessor::Apply(
        Cont::Composing(
            Box::new(Cont::Mapping(g)),
            Box::new(StreamProcessor::Apply(Cont::Mapping(h), y)),
        ),
        x,
    );
    let w0 = StreamProcessor::Apply(
        Cont::Composing(Box::new(Cont::Mapping(f)), Box::new(inner)),
        v,
    );
    let w1 = StreamProcessor::Compose(
        Box::new(StreamProcessor::Apply(Cont::Mapping(f), v)),
        Box::new(inner),
    );
    let w2 = StreamProcessor::Compose(
        Box::new(StreamProcessor::Put(fun_value(f, v), ma_f)),
        Box::new(inner),
    );
    let inner3 = StreamProcessor::Compose(
        Box::new(StreamProcessor::Apply(Cont::Mapping(g), x)),
        Box::new(StreamProcessor::Apply(Cont::Mapping(h), y)),
    );
    let w3 = StreamProcessor::Compose(
        Box::new(StreamProcessor::Put(fun_value(f, v), ma_f)),
        Box::new(inner3),
    );
    let inner4 = StreamProcessor::Compose(
        Box::new(StreamProcessor::Put(fun_value(g, x), ma_g)),
        Box::new(StreamProcessor::Apply(Cont::Mapping(h), y)),
    );
    let w4 = StreamProcessor::Compose(
        Box::new(StreamProcessor::Put(fun_value(f, v), ma_f)),
        Box::new(inner4),
    );
    let inner5 = StreamProcessor::Compose(
        Box::new(StreamProcessor::Put(fun_value(g, x), ma_g)),
        Box::new(StreamProcessor::Put(fun_value(h, y), ma_h)),
    );
    let w5 = StreamProcessor::Compose(
        Box::new(StreamProcessor::Put(fun_value(f, v), ma_f)),
        Box::new(inner5),
    );
    let inner6 = StreamProcessor::Put(
        fun_value(h, y),
        Thunk::HoldPut(fun_value(g, x), Box::new(ma_g), Box::new(ma_h)),
    );
    let w6 = StreamProcessor::Compose(
        Box::new(StreamProcessor::Put(fun_value(f, v), ma_f)),
        Box::new(inner6),
    );
    let w7 = StreamProcessor::Put(
        fun_value(h, y),
        assoc_right_thunk(f, g, h, fun_value(f, v), fun_value(g, x)),
    );
    assert(next_output(assoc_right_read_state(f, g, h, x, y), inp, k, 21) == next_output(
        w0,
        inp,
        k1,
        20,
    ));
    assert(sp_step(StreamProcessor::Apply(Cont::Mapping(f), v)) == StreamProcessor::Put(
        fun_value(f, v),
        ma_f,
    ));
    assert(sp_step(w0) == w1);
    assert(next_output(w0, inp, k1, 20) == next_output(w1, inp, k1, 19));
    assert(sp_step(w1) == w2);
    assert(next_output(w1, inp, k1, 19) == next_output(w2, inp, k1, 18));
    assert(sp_step(inner) == inner3);
    assert(sp_step(w2) == w3);
    assert(next_output(w2, inp, k1, 18) == next_output(w3, inp, k1, 17));
    assert(sp_step(StreamProcessor::Apply(Cont::Mapping(g), x)) == StreamProcessor::Put(
        fun_value(g, x),
        ma_g,
    ));
    assert(sp_step(inner3) == inner4);
    assert(sp_step(w3) == w4);
    assert(next_output(w3, inp, k1, 17) == next_output(w4, inp, k1, 16));
    assert(sp_step(StreamProcessor::Apply(Cont::Mapping(h), y)) == StreamProcessor::Put(
        fun_value(h, y),
        ma_h,
    ));
    assert(sp_step(inner4) == inner5);
    assert(sp_step(w4) == w5);
    assert(next_output(w4, inp, k1, 16) == next_output(w5, inp, k1, 15));
    assert(sp_step(inner5) == inner6);
    assert(sp_step(w5) == w6);
    assert(next_output(w5, inp, k1, 15) == next_output(w6, inp, k1, 14));
    assert(sp_step(w6) == w7);
    assert(next_output(w6, inp, k1, 14) == next_output(w7, inp, k1, 13));
}

/// Resuming the right-associated pipeline reaches its reading state in nine
/// rewrites.
proof fn lemma_assoc_right_resume(
    f: Fun,
    g: Fun,
    h: Fun,
    x: Value,
    y: Value,
    inp: spec_fn(nat) -> Value,
    k: nat,
)
    ensures
        next_output(StreamProcessor::Force(assoc_right_thunk(f, g, h, x, y)), inp, k, 30)
            == next_output(assoc_right_read_state(f, g, h, x, y), inp, k, 21),
{
    let ma_f = Thunk::MapAgain(f);
    let ma_g = Thunk::MapAgain(g);
    let ma_h = Thunk::MapAgain(h);
    let hp_gh = Thunk::HoldPut(y, Box::new(ma_g), Box::new(ma_h));
    let u0 = StreamProcessor::Force(assoc_right_thunk(f, g, h, x, y));
    let u1 = StreamProcessor::Compose(
        Box::new(StreamProcessor::Put(x, ma_f)),
        Box::new(StreamProcessor::Force(hp_gh)),
    );
    let r1 = StreamProcessor::Compose(
        Box::new(StreamProcessor::Put(y, ma_g)),
        Box::new(StreamProcessor::Force(ma_h)),
    );
    let u2 = StreamProcessor::Compose(Box::new(StreamProcessor::Put(x, ma_f)), Box::new(r1));
    let r2 = StreamProcessor::Compose(
        Box::new(StreamProcessor::Put(y, ma_g)),
        Box::new(StreamProcessor::Get(Cont::Mapping(h))),
    );
    let u3 = StreamProcessor::Compose(Box::new(StreamProcessor::Put(x, ma_f)), Box::new(r2));
    let r3 = StreamProcessor::Compose(
        Box::new(StreamProcessor::Force(ma_g)),
        Box::new(StreamProcessor::Apply(Cont::Mapping(h), y)),
    );
    let u4 = StreamProcessor::Compose(Box::new(StreamProcessor::Put(x, ma_f)), Box::new(r3));
    let r4 = StreamProcessor::Compose(
        Box::new(StreamProcessor::Get(Cont::Mapping(g))),
        Box::new(StreamProcessor::Apply(Cont::Mapping(h), y)),
    );
    let u5 = StreamProcessor::Compose(Box::new(StreamProcessor::Put(x, ma_f)), Box::new(r4));
    let r5 = StreamProcessor::Get(
        Cont::Composing(
            Box::new(Cont::Mapping(g)),
            Box::new(StreamProcessor::Apply(Cont::Mapping(h), y)),
        ),
    );
    let u6 = StreamProcessor::Compose(Box::new(StreamProcessor::Put(x, ma_f)), Box::new(r5));
    let u7 = StreamProcessor::Compose(
        Box::new(StreamProcessor::Force(ma_f)),
        Box::new(
            StreamProcessor::Apply(
                Cont::Composing(
                    Box::new(Cont::Mapping(g)),
                    Box::new(StreamProcessor::Apply(Cont::Mapping(h), y)),
                ),
                x,
            ),
        ),
    );
    let u8 = StreamProcessor::Compose(
        Box::new(StreamProcessor::Get(Cont::Mapping(f))),
        Box::new(
            StreamProcessor::Apply(
                Cont::Composing(
                    Box::new(Cont::Mapping(g)),
                    Box::new(StreamProcessor::Apply(Cont::Mapping(h), y)),
                ),
                x,
            ),
        ),
    );
    assert(sp_step(u0) == u1);
    assert(next_output(u0, inp, k, 30) == next_output(u1, inp, k, 29));
    assert(sp_step(StreamProcessor::Force(hp_gh)) == r1);
    assert(sp_step(u1) == u2);
    assert(next_output(u1, inp, k, 29) == next_output(u2, inp, k, 28));
    assert(sp_step(StreamProcessor::Force(ma_h)) == StreamProcessor::Get(Cont::Mapping(h)));
    assert(sp_step(r1) == r2);
    assert(sp_step(u2) == u3);
    assert(next_output(u2, inp, k, 28) == next_output(u3, inp, k, 27));
    assert(sp_step(r2) == r3);
    assert(sp_step(u3) == u4);
    assert(next_output(u3, inp, k, 27) == next_output(u4, inp, k, 26));
    assert(sp_step(StreamProcessor::Force(ma_g)) == StreamProcessor::Get(Cont::Mapping(g)));
    assert(sp_step(r3) == r4);
    assert(sp_step(u4) == u5);
    assert(next_output(u4, inp, k, 26) == next_output(u5, inp, k, 25));
    assert(sp_step(r4) == r5);
    assert(sp_step(u5) == u6);
    assert(next_output(u5, inp, k, 25) == next_output(u6, inp, k, 24));
    assert(sp_step(u6) == u7);
    assert(next_output(u6, inp, k, 24) == next_output(u7, inp, k, 23));
    assert(sp_step(StreamProcessor::Force(ma_f)) == StreamProcessor::Get(Cont::Mapping(f)));
    assert(sp_step(u7) == u8);
    assert(next_output(u7, inp, k, 23) == next_output(u8, inp, k, 22));
    assert(sp_step(u8) == assoc_right_read_state(f, g, h, x, y));
    assert(next_output(u8, inp, k, 22) == next_output(
        assoc_right_read_state(f, g, h, x, y),
        inp,
        k,
        21,
    ));
}

/// What a three-stage mapping pipeline that holds back a first-stage output
/// `x` and a second-stage output `y` writes as its `n`-th further element.
spec fn assoc_held_value(
    f: Fun,
    g: Fun,
    h: Fun,
    x: Value,
    y: Value,
    inp: spec_fn(nat) -> Value,
    k: nat,
    n: nat,
) -> Value {
    if n == 0 {
        fun_value(h, y)
    } else if n == 1 {
        fun_value(h, fun_value(g, x))
    } else {
        fun_value(h, fun_value(g, fun_value(f, inp((k + n - 2) as nat))))
    }
}

/// Resumed after a write, the right-associated pipeline writes its held
/// elements and then the thrice-transformed further input elements, each one
/// write behind its reads.
proof fn lemma_assoc_right_loop(
    f: Fun,
    g: Fun,
    h: Fun,
    x: Value,
    y: Value,
    inp: spec_fn(nat) -> Value,
    k: nat,
    n: nat,
)
    ensures
        nth_output(StreamProcessor::Force(assoc_right_thunk(f, g, h, x, y)), inp, k, n, 40)
            == Some(assoc_held_value(f, g, h, x, y, inp, k, n)),
    decreases n,
{
    let u0 = StreamProcessor::Force(assoc_right_thunk(f, g, h, x, y));
    lemma_assoc_right_resume(f, g, h, x, y, inp, k);
    lemma_assoc_right_read(f, g, h, x, y, inp, k);
    lemma_next_output_mono(u0, inp, k, 30, 40);
    assert(next_output(u0, inp, k, 40) == Some(
        (
            fun_value(h, y),
            assoc_right_thunk(f, g, h, fun_value(f, inp(k)), fun_value(g, x)),
            (k + 1) as nat,
        ),
    ));
    if n > 0 {
        lemma_assoc_right_loop(
            f,
            g,
            h,
            fun_value(f, inp(k)),
            fun_value(g, x),
            inp,
            (k + 1) as nat,
            (n - 1) as nat,
        );
        if n >= 3 {
            assert(((k + 1) + (n - 1) - 2) as nat == (k + n - 2) as nat);
        }
    }
}

/// The right-associated pipeline writes the thrice-transformed `n`-th input
/// element as its `n`-th output element.
proof fn lemma_assoc_right_nth(f: Fun, g: Fun, h: Fun, inp: spec_fn(nat) -> Value, k: nat, n: nat)
    ensures
        nth_output(
            compose_term(map_term(f), compose_term(map_term(g), map_term(h))),
            inp,
            k,
            n,
            40,
        ) == Some(fun_value(h, fun_value(g, fun_value(f, inp((k + n) as nat))))),
{
    let ma_f = Thunk::MapAgain(f);
    let r0 = compose_term(map_term(f), compose_term(map_term(g), map_term(h)));
    let v0 = inp(k);
    let k1 = (k + 1) as nat;
    let v1 = inp(k1);
    let k2 = (k + 2) as nat;
    let k3 = (k + 3) as nat;
    let inner0 = compose_term(map_term(g), map_term(h));
    let r1 = StreamProcessor::Get(Cont::Composing(Box::new(Cont::Mapping(f)), Box::new(inner0)));
    assert(sp_step(r0) == r1);
    assert(next_output(r0, inp, k, 40) == next_output(r1, inp, k, 39));
    let a0 = StreamProcessor::Apply(
        Cont::Composing(Box::new(Cont::Mapping(f)), Box::new(inner0)),
        v0,
    );
    assert(next_output(r1, inp, k, 39) == next_output(a0, inp, k1, 38));
    let t1 = StreamProcessor::Compose(
        Box::new(StreamProcessor::Apply(Cont::Mapping(f), v0)),
        Box::new(inner0),
    );
    let t2 = StreamProcessor::Compose(
        Box::new(StreamProcessor::Put(fun_value(f, v0), ma_f)),
        Box::new(inner0),
    );
    let inner_g = StreamProcessor::Get(
        Cont::Composing(Box::new(Cont::Mapping(g)), Box::new(map_term(h))),
    );
    let t3 = StreamProcessor::Compose(
        Box::new(StreamProcessor::Put(fun_value(f, v0), ma_f)),
        Box::new(inner_g),
    );
    let t4 = StreamProcessor::Compose(
        Box::new(StreamProcessor::Force(ma_f)),
        Box::new(
            StreamProcessor::Apply(
                Cont::Composing(Box::new(Cont::Mapping(g)), Box::new(map_term(h))),
                fun_value(f, v0),
            ),
        ),
    );
    let t5 = StreamProcessor::Compose(
        Box::new(StreamProcessor::Get(Cont::Mapping(f))),
        Box::new(
            StreamProcessor::Apply(
                Cont::Composing(Box::new(Cont::Mapping(g)), Box::new(map_term(h))),
                fun_value(f, v0),
            ),
        ),
    );
    let t6 = StreamProcessor::Get(
        Cont::Composing(
            Box::new(Cont::Mapping(f)),
            Box::new(
                StreamProcessor::Apply(
                    Cont::Composing(Box::new(Cont::Mapping(g)), Box::new(map_term(h))),
                    fun_value(f, v0),
                ),
            ),
        ),
    );
    assert(sp_step(StreamProcessor::Apply(Cont::Mapping(f), v0)) == StreamProcessor::Put(
        fun_value(f, v0),
        ma_f,
    ));
    assert(sp_step(a0) == t1);
    assert(next_output(a0, inp, k1, 38) == next_output(t1, inp, k1, 37));
    assert(sp_step(t1) == t2);
    assert(next_output(t1, inp, k1, 37) == next_output(t2, inp, k1, 36));
    assert(sp_step(inner0) == inner_g);
    assert(sp_step(t2) == t3);
    assert(next_output(t2, inp, k1, 36) == next_output(t3, inp, k1, 35));
    assert(sp_step(t3) == t4);
    assert(next_output(t3, inp, k1, 35) == next_output(t4, inp, k1, 34));
    assert(sp_step(StreamProcessor::Force(ma_f)) == StreamProcessor::Get(Cont::Mapping(f)));
    assert(sp_step(t4) == t5);
    assert(next_output(t4, inp, k1, 34) == next_output(t5, inp, k1, 33));
    assert(sp_step(t5) == t6);
    assert(next_output(t5, inp, k1, 33) == next_output(t6, inp, k1, 32));
    let a1 = StreamProcessor::Apply(
        Cont::Composing(
            Box::new(Cont::Mapping(f)),
            Box::new(
                StreamProcessor::Apply(
                    Cont::Composing(Box::new(Cont::Mapping(g)), Box::new(map_term(h))),
                    fun_value(f, v0),
                ),
            ),
        ),
        v1,
    );
    assert(next_output(t6, inp, k1, 32) == next_output(a1, inp, k2, 31));
    let inner_a = StreamProcessor::Apply(
        Cont::Composing(Box::new(Cont::Mapping(g)), Box::new(map_term(h))),
        fun_value(f, v0),
    );
    let s1 = StreamProcessor::Compose(
        Box::new(StreamProcessor::Apply(Cont::Mapping(f), v1)),
        Box::new(inner_a),
    );
    let s2 = StreamProcessor::Compose(
        Box::new(StreamProcessor::Put(fun_value(f, v1), ma_f)),
        Box::new(inner_a),
    );
    let inner_b = StreamProcessor::Compose(
        Box::new(StreamProcessor::Apply(Cont::Mapping(g), fun_value(f, v0))),
        Box::new(map_term(h)),
    );
    let s3 = StreamProcessor::Compose(
        Box::new(StreamProcessor::Put(fun_value(f, v1), ma_f)),
        Box::new(inner_b),
    );
    let gfv0 = fun_value(g, fun_value(f, v0));
    let ma_g = Thunk::MapAgain(g);
    let inner_c = StreamProcessor::Compose(
        Box::new(StreamProcessor::Put(gfv0, ma_g)),
        Box::new(map_term(h)),
    );
    let s4 = StreamProcessor::Compose(
        Box::new(StreamProcessor::Put(fun_value(f, v1), ma_f)),
        Box::new(inner_c),
    );
    let inner_d = StreamProcessor::Compose(
        Box::new(StreamProcessor::Force(ma_g)),
        Box::new(StreamProcessor::Apply(Cont::Mapping(h), gfv0)),
    );
    let s5 = StreamProcessor::Compose(
        Box::new(StreamProcessor::Put(fun_value(f, v1), ma_f)),
        Box::new(inner_d),
    );
    let inner_e = StreamProcessor::Compose(
        Box::new(StreamProcessor::Get(Cont::Mapping(g))),
        Box::new(StreamProcessor::Apply(Cont::Mapping(h), gfv0)),
    );
    let s6 = StreamProcessor::Compose(
        Box::new(StreamProcessor::Put(fun_value(f, v1), ma_f)),
        Box::new(inner_e),
    );
    let inner_f2 = StreamProcessor::Get(
        Cont::Composing(
            Box::new(Cont::Mapping(g)),
            Box::new(StreamProcessor::Apply(Cont::Mapping(h), gfv0)),
        ),
    );
    let s7 = StreamProcessor::Compose(
        Box::new(StreamProcessor::Put(fun_value(f, v1), ma_f)),
        Box::new(inner_f2),
    );
    let s8 = StreamProcessor::Compose(
        Box::new(StreamProcessor::Force(ma_f)),
        Box::new(
            StreamProcessor::Apply(
                Cont::Composing(
                    Box::new(Cont::Mapping(g)),
                    Box::new(StreamProcessor::Apply(Cont::Mapping(h), gfv0)),
                ),
                fun_value(f, v1),
            ),
        ),
    );
    let s9 = StreamProcessor::Compose(
        Box::new(StreamProcessor::Get(Cont::Mapping(f))),
        Box::new(
            StreamProcessor::Apply(
                Cont::Composing(
                    Box::new(Cont::Mapping(g)),
                    Box::new(StreamProcessor::Apply(Cont::Mapping(h), gfv0)),
                ),
                fun_value(f, v1),
            ),
        ),
    );
    let s10 = assoc_right_read_state(f, g, h, fun_value(f, v1), gfv0);
    assert(sp_step(StreamProcessor::Apply(Cont::Mapping(f), v1)) == StreamProcessor::Put(
        fun_value(f, v1),
        ma_f,
    ));
    assert(sp_step(a1) == s1);
    assert(next_output(a1, inp, k2, 31) == next_output(s1, inp, k2, 30));
    assert(sp_step(s1) == s2);
    assert(next_output(s1, inp, k2, 30) == next_output(s2, inp, k2, 29));
    assert(sp_step(inner_a) == inner_b);
    assert(sp_step(s2) == s3);
    assert(next_output(s2, inp, k2, 29) == next_output(s3, inp, k2, 28));
    assert(sp_step(StreamProcessor::Apply(Cont::Mapping(g), fun_value(f, v0)))
        == StreamProcessor::Put(gfv0, ma_g));
    assert(sp_step(inner_b) == inner_c);
    assert(sp_step(s3) == s4);
    assert(next_output(s3, inp, k2, 28) == next_output(s4, inp, k2, 27));
    assert(sp_step(inner_c) == inner_d);
    assert(sp_step(s4) == s5);
    assert(next_output(s4, inp, k2, 27) == next_output(s5, inp, k2, 26));
    assert(sp_step(StreamProcessor::Force(ma_g)) == StreamProcessor::Get(Cont::Mapping(g)));
    assert(sp_step(inner_d) == inner_e);
    assert(sp_step(s5) == s6);
    assert(next_output(s5, inp, k2, 26) == next_output(s6, inp, k2, 25));
    assert(sp_step(inner_e) == inner_f2);
    assert(sp_step(s6) == s7);
    assert(next_output(s6, inp, k2, 25) == next_output(s7, inp, k2, 24));
    assert(sp_step(s7) == s8);
    assert(next_output(s7, inp, k2, 24) == next_output(s8, inp, k2, 23));
    assert(sp_step(s8) == s9);
    assert(next_output(s8, inp, k2, 23) == next_output(s9, inp, k2, 22));
    assert(sp_step(s9) == s10);
    assert(next_output(s9, inp, k2, 22) == next_output(s10, inp, k2, 21));
    lemma_assoc_right_read(f, g, h, fun_value(f, v1), gfv0, inp, k2);
    assert(next_output(r0, inp, k, 40) == Some(
        (
            fun_value(h, gfv0),
            assoc_right_thunk(f, g, h, fun_value(f, inp(k2)), fun_value(g, fun_value(f, v1))),
            k3,
        ),
    ));
    if n > 0 {
        lemma_assoc_right_loop(
            f,
            g,
            h,
            fun_value(f, inp(k2)),
            fun_value(g, fun_value(f, v1)),
            inp,
            k3,
            (n - 1) as nat,
        );
        if n == 1 {
            assert(assoc_held_value(
                f,
                g,
                h,
                fun_value(f, inp(k2)),
                fun_value(g, fun_value(f, v1)),
                inp,
                k3,
                0,
            ) == fun_value(h, fun_value(g, fun_value(f, inp((k + n) as nat)))));
        } else if n == 2 {
            assert(assoc_held_value(
                f,
                g,
                h,
                fun_value(f, inp(k2)),
                fun_value(g, fun_value(f, v1)),
                inp,
                k3,
                1,
            ) == fun_value(h, fun_value(g, fun_value(f, inp((k + n) as nat)))));
        } else {
            assert((k3 + (n - 1) - 2) as nat == (k + n) as nat);
        }
    }
}

/// The reading state a left-associated three-stage mapping pipeline returns
/// to, holding the first stage's output `x` and the second stage's output
/// `y`.
spec fn assoc_left_read_state(f: Fun, g: Fun, h: Fun, x: Value, y: Value) -> StreamProcessor {
    StreamProcessor::Get(
        Cont::Composing(
            Box::new(
                Cont::Composing(
                    Box::new(Cont::Mapping(f)),
                    Box::new(StreamProcessor::Apply(Cont::Mapping(g), x)),
                ),
            ),
            Box::new(StreamProcessor::Apply(Cont::Mapping(h), y)),
        ),
    )
}

/// The suspension a left-associated three-stage mapping pipeline leaves
/// after each write.
spec fn assoc_left_thunk(f: Fun, g: Fun, h: Fun, x: Value, y: Value) -> Thunk {
    Thunk::HoldPut(
        y,
        Box::new(Thunk::HoldPut(x, Box::new(Thunk::MapAgain(f)), Box::new(Thunk::MapAgain(g)))),
        Box::new(Thunk::MapAgain(h)),
    )
}

/// From its reading state, the left-associated pipeline reads one element
/// and writes the thrice-transformed element it was holding.
proof fn lemma_assoc_left_read(
    f: Fun,
    g: Fun,
    h: Fun,
    x: Value,
    y: Value,
    inp: spec_fn(nat) -> Value,
    k: nat,
    fuel: nat,
)
    requires
        fuel >= 9,
    ensures
        next_output(assoc_left_read_state(f, g, h, x, y), inp, k, fuel) == Some(
            (
                fun_value(h, y),
                assoc_left_thunk(f, g, h, fun_value(f, inp(k)), fun_value(g, x)),
                (k + 1) as nat,
            ),
        ),
{
    let ma_f = Thunk::MapAgain(f);
    let ma_g = Thunk::MapAgain(g);
    let ma_h = Thunk::MapAgain(h);
    let v = inp(k);
    let k1 = (k + 1) as nat;
    let inner_c = Cont::Composing(
        Box::new(Cont::Mapping(f)),
        Box::new(StreamProcessor::Apply(Cont::Mapping(g), x)),
    );
    let a0 = StreamProcessor::Apply(
        Cont::Composing(
            Box::new(inner_c),
            Box::new(StreamProcessor::Apply(Cont::Mapping(h), y)),
        ),
        v,
    );
    let s1 = StreamProcessor::Compose(
        Box::new(StreamProcessor::Apply(inner_c, v)),
        Box::new(StreamProcessor::Apply(Cont::Mapping(h), y)),
    );
    let l2 = StreamProcessor::Compose(
        Box::new(StreamProcessor::Apply(Cont::Mapping(f), v)),
        Box::new(StreamProcessor::Apply(Cont::Mapping(g), x)),
    );
    let s2 = StreamProcessor::Compose(
        Box::new(l2),
        Box::new(StreamProcessor::Apply(Cont::Mapping(h), y)),
    );
    let l3 = StreamProcessor::Compose(
        Box::new(StreamProcessor::Put(fun_value(f, v), ma_f)),
        Box::new(StreamProcessor::Apply(Cont::Mapping(g), x)),
    );
    let s3 = StreamProcessor::Compose(
        Box::new(l3),
        Box::new(StreamProcessor::Apply(Cont::Mapping(h), y)),
    );
    let l4 = StreamProcessor::Compose(
        Box::new(StreamProcessor::Put(fun_value(f, v), ma_f)),
        Box::new(StreamProcessor::Put(fun_value(g, x), ma_g)),
    );
    let s4 = StreamProcessor::Compose(
        Box::new(l4),
        Box::new(StreamProcessor::Apply(Cont::Mapping(h), y)),
    );
    let l5 = StreamProcessor::Put(
        fun_value(g, x),
        Thunk::HoldPut(fun_value(f, v), Box::new(ma_f), Box::new(ma_g)),
    );
    let s5 = StreamProcessor::Compose(
        Box::new(l5),
        Box::new(StreamProcessor::Apply(Cont::Mapping(h), y)),
    );
    let s6 = StreamProcessor::Compose(
        Box::new(l5),
        Box::new(StreamProcessor::Put(fun_value(h, y), ma_h)),
    );
    let s7 = StreamProcessor::Put(
        fun_value(h, y),
        assoc_left_thunk(f, g, h, fun_value(f, v), fun_value(g, x)),
    );
    assert(next_output(assoc_left_read_state(f, g, h, x, y), inp, k, fuel) == next_output(
        a0,
        inp,
        k1,
        (fuel - 1) as nat,
    ));
    assert(sp_step(a0) == s1);
    assert(next_output(a0, inp, k1, (fuel - 1) as nat) == next_output(
        s1,
        inp,
        k1,
        (fuel - 2) as nat,
    ));
    assert(sp_step(StreamProcessor::Apply(inner_c, v)) == l2);
    assert(sp_step(s1) == s2);
    assert(next_output(s1, inp, k1, (fuel - 2) as nat) == next_output(
        s2,
        inp,
        k1,
        (fuel - 3) as nat,
    ));
    assert(sp_step(StreamProcessor::Apply(Cont::Mapping(f), v)) == StreamProcessor::Put(
        fun_value(f, v),
        ma_f,
    ));
    assert(sp_step(l2) == l3);
    assert(sp_step(s2) == s3);
    assert(next_output(s2, inp, k1, (fuel - 3) as nat) == next_output(
        s3,
        inp,
        k1,
        (fuel - 4) as nat,
    ));
    assert(sp_step(StreamProcessor::Apply(Cont::Mapping(g), x)) == StreamProcessor::Put(
        fun_value(g, x),
        ma_g,
    ));
    assert(sp_step(l3) == l4);
    assert(sp_step(s3) == s4);
    assert(next_output(s3, inp, k1, (fuel - 4) as nat) == next_output(
        s4,
        inp,
        k1,
        (fuel - 5) as nat,
    ));
    assert(sp_step(l4) == l5);
    assert(sp_step(s4) == s5);
    assert(next_output(s4, inp, k1, (fuel - 5) as nat) == next_output(
        s5,
        inp,
        k1,
        (fuel - 6) as nat,
    ));
    assert(sp_step(StreamProcessor::Apply(Cont::Mapping(h), y)) == StreamProcessor::Put(
        fun_value(h, y),
        ma_h,
    ));
    assert(sp_step(s5) == s6);
    assert(next_output(s5, inp, k1, (fuel - 6) as nat) == next_output(
        s6,
        inp,
        k1,
        (fuel - 7) as nat,
    ));
    assert(sp_step(s6) == s7);
    assert(next_output(s6, inp, k1, (fuel - 7) as nat) == next_output(
        s7,
        inp,
        k1,
        (fuel - 8) as nat,
    ));
}

/// Resuming the left-associated pipeline reaches its reading state in nine
/// rewrites.
proof fn lemma_assoc_left_resume(
    f: Fun,
    g: Fun,
    h: Fun,
    x: Value,
    y: Value,
    inp: spec_fn(nat) -> Value,
    k: nat,
    fuel: nat,
)
    ensures
        next_output(StreamProcessor::Force(assoc_left_thunk(f, g, h, x, y)), inp, k, (fuel
            + 9) as nat) == next_output(assoc_left_read_state(f, g, h, x, y), inp, k, fuel),
{
    let ma_f = Thunk::MapAgain(f);
    let ma_g = Thunk::MapAgain(g);
    let ma_h = Thunk::MapAgain(h);
    let hp_fg = Thunk::HoldPut(x, Box::new(ma_f), Box::new(ma_g));
    let u0 = StreamProcessor::Force(assoc_left_thunk(f, g, h, x, y));
    let u1 = StreamProcessor::Compose(
        Box::new(StreamProcessor::Put(y, hp_fg)),
        Box::new(StreamProcessor::Force(ma_h)),
    );
    let u2 = StreamProcessor::Compose(
        Box::new(StreamProcessor::Put(y, hp_fg)),
        Box::new(StreamProcessor::Get(Cont::Mapping(h))),
    );
    let u3 = StreamProcessor::Compose(
        Box::new(StreamProcessor::Force(hp_fg)),
        Box::new(StreamProcessor::Apply(Cont::Mapping(h), y)),
    );
    let l4 = StreamProcessor::Compose(
        Box::new(StreamProcessor::Put(x, ma_f)),
        Box::new(StreamProcessor::Force(ma_g)),
    );
    let u4 = StreamProcessor::Compose(
        Box::new(l4),
        Box::new(StreamProcessor::Apply(Cont::Mapping(h), y)),
    );
    let l5 = StreamProcessor::Compose(
        Box::new(StreamProcessor::Put(x, ma_f)),
        Box::new(StreamProcessor::Get(Cont::Mapping(g))),
    );
    let u5 = StreamProcessor::Compose(
        Box::new(l5),
        Box::new(StreamProcessor::Apply(Cont::Mapping(h), y)),
    );
    let l6 = StreamProcessor::Compose(
        Box::new(StreamProcessor::Force(ma_f)),
        Box::new(StreamProcessor::Apply(Cont::Mapping(g), x)),
    );
    let u6 = StreamProcessor::Compose(
        Box::new(l6),
        Box::new(StreamProcessor::Apply(Cont::Mapping(h), y)),
    );
    let l7 = StreamProcessor::Compose(
        Box::new(StreamProcessor::Get(Cont::Mapping(f))),
        Box::new(StreamProcessor::Apply(Cont::Mapping(g), x)),
    );
    let u7 = StreamProcessor::Compose(
        Box::new(l7),
        Box::new(StreamProcessor::Apply(Cont::Mapping(h), y)),
    );
    let l8 = StreamProcessor::Get(
        Cont::Composing(
            Box::new(Cont::Mapping(f)),
            Box::new(StreamProcessor::Apply(Cont::Mapping(g), x)),
        ),
    );
    let u8 = StreamProcessor::Compose(
        Box::new(l8),
        Box::new(StreamProcessor::Apply(Cont::Mapping(h), y)),
    );
    assert(sp_step(u0) == u1);
    assert(next_output(u0, inp, k, (fuel + 9) as nat) == next_output(
        u1,
        inp,
        k,
        (fuel + 8) as nat,
    ));
    assert(sp_step(StreamProcessor::Force(ma_h)) == StreamProcessor::Get(Cont::Mapping(h)));
    assert(sp_step(u1) == u2);
    assert(next_output(u1, inp, k, (fuel + 8) as nat) == next_output(
        u2,
        inp,
        k,
        (fuel + 7) as nat,
    ));
    assert(sp_step(u2) == u3);
    assert(next_output(u2, inp, k, (fuel + 7) as nat) == next_output(
        u3,
        inp,
        k,
        (fuel + 6) as nat,
    ));
    assert(sp_step(StreamProcessor::Force(hp_fg)) == l4);
    assert(sp_step(u3) == u4);
    assert(next_output(u3, inp, k, (fuel + 6) as nat) == next_output(
        u4,
        inp,
        k,
        (fuel + 5) as nat,
    ));
    assert(sp_step(StreamProcessor::Force(ma_g)) == StreamProcessor::Get(Cont::Mapping(g)));
    assert(sp_step(l4) == l5);
    assert(sp_step(u4) == u5);
    assert(next_output(u4, inp, k, (fuel + 5) as nat) == next_output(
        u5,
        inp,
        k,
        (fuel + 4) as nat,
    ));
    assert(sp_step(l5) == l6);
    assert(sp_step(u5) == u6);
    assert(next_output(u5, inp, k, (fuel + 4) as nat) == next_output(
        u6,
        inp,
        k,
        (fuel + 3) as nat,
    ));
    assert(sp_step(StreamProcessor::Force(ma_f)) == StreamProcessor::Get(Cont::Mapping(f)));
    assert(sp_step(l6) == l7);
    assert(sp_step(u6) == u7);
    assert(next_output(u6, inp, k, (fuel + 3) as nat) == next_output(
        u7,
        inp,
        k,
        (fuel + 2) as nat,
    ));
    assert(sp_step(l7) == l8);
    assert(sp_step(u7) == u8);
    assert(next_output(u7, inp, k, (fuel + 2) as nat) == next_output(
        u8,
        inp,
        k,
        (fuel + 1) as nat,
    ));
    assert(sp_step(u8) == assoc_left_read_state(f, g, h, x, y));
    assert(next_output(u8, inp, k, (fuel + 1) as nat) == next_output(
        assoc_left_read_state(f, g, h, x, y),
        inp,
        k,
        fuel,
    ));
}

/// Resumed after a write, the left-associated pipeline writes its held
/// elements and then the thrice-transformed further input elements, each one
/// write behind its reads — the same closed form as the right-associated
/// pipeline.
proof fn lemma_assoc_left_loop(
    f: Fun,
    g: Fun,
    h: Fun,
    x: Value,
    y: Value,
    inp: spec_fn(nat) -> Value,
    k: nat,
    n: nat,
)
    ensures
        nth_output(StreamProcessor::Force(assoc_left_thunk(f, g, h, x, y)), inp, k, n, 40)
            == Some(assoc_held_value(f, g, h, x, y, inp, k, n)),
    decreases n,
{
    let u0 = StreamProcessor::Force(assoc_left_thunk(f, g, h, x, y));
    lemma_assoc_left_resume(f, g, h, x, y, inp, k, 9);
    lemma_assoc_left_read(f, g, h, x, y, inp, k, 9);
    lemma_next_output_mono(u0, inp, k, 18, 40);
    assert(next_output(u0, inp, k, 40) == Some(
        (
            fun_value(h, y),
            assoc_left_thunk(f, g, h, fun_value(f, inp(k)), fun_value(g, x)),
            (k + 1) as nat,
        ),
    ));
    if n > 0 {
        lemma_assoc_left_loop(
            f,
            g,
            h,
            fun_value(f, inp(k)),
            fun_value(g, x),
            inp,
            (k + 1) as nat,
            (n - 1) as nat,
        );
        if n >= 3 {
            assert(((k + 1) + (n - 1) - 2) as nat == (k + n - 2) as nat);
        }
    }
}

/// The left-associated pipeline writes the thrice-transformed `n`-th input
/// element as its `n`-th output element.
proof fn lemma_assoc_left_nth(f: Fun, g: Fun, h: Fun, inp: spec_fn(nat) -> Value, k: nat, n: nat)
    ensures
        nth_output(
            compose_term(compose_term(map_term(f), map_term(g)), map_term(h)),
            inp,
            k,
            n,
            40,
        ) == Some(fun_value(h, fun_value(g, fun_value(f, inp((k + n) as nat))))),
{
    let ma_f = Thunk::MapAgain(f);
    let ma_g = Thunk::MapAgain(g);
    let r0 = compose_term(compose_term(map_term(f), map_term(g)), map_term(h));
    let v0 = inp(k);
    let k1 = (k + 1) as nat;
    let v1 = inp(k1);
    let k2 = (k + 2) as nat;
    let k3 = (k + 3) as nat;
    let r1 = StreamProcessor::Compose(
        Box::new(
            StreamProcessor::Get(
                Cont::Composing(Box::new(Cont::Mapping(f)), Box::new(map_term(g))),
            ),
        ),
        Box::new(map_term(h)),
    );
    let r2 = StreamProcessor::Get(
        Cont::Composing(
            Box::new(Cont::Composing(Box::new(Cont::Mapping(f)), Box::new(map_term(g)))),
            Box::new(map_term(h)),
        ),
    );
    assert(sp_step(compose_term(map_term(f), map_term(g))) == StreamProcessor::Get(
        Cont::Composing(Box::new(Cont::Mapping(f)), Box::new(map_term(g))),
    ));
    assert(sp_step(r0) == r1);
    assert(next_output(r0, inp, k, 40) == next_output(r1, inp, k, 39));
    assert(sp_step(r1) == r2);
    assert(next_output(r1, inp, k, 39) == next_output(r2, inp, k, 38));
    let a0 = StreamProcessor::Apply(
        Cont::Composing(
            Box::new(Cont::Composing(Box::new(Cont::Mapping(f)), Box::new(map_term(g)))),
            Box::new(map_term(h)),
        ),
        v0,
    );
    assert(next_output(r2, inp, k, 38) == next_output(a0, inp, k1, 37));
    let t1 = StreamProcessor::Compose(
        Box::new(
            StreamProcessor::Apply(
                Cont::Composing(Box::new(Cont::Mapping(f)), Box::new(map_term(g))),
                v0,
            ),
        ),
        Box::new(map_term(h)),
    );
    let l2 = StreamProcessor::Compose(
        Box::new(StreamProcessor::Apply(Cont::Mapping(f), v0)),
        Box::new(map_term(g)),
    );
    let t2 = StreamProcessor::Compose(Box::new(l2), Box::new(map_term(h)));
    let l3 = StreamProcessor::Compose(
        Box::new(StreamProcessor::Put(fun_value(f, v0), ma_f)),
        Box::new(map_term(g)),
    );
    let t3 = StreamProcessor::Compose(Box::new(l3), Box::new(map_term(h)));
    let l4 = StreamProcessor::Compose(
        Box::new(StreamProcessor::Force(ma_f)),
        Box::new(StreamProcessor::Apply(Cont::Mapping(g), fun_value(f, v0))),
    );
    let t4 = StreamProcessor::Compose(Box::new(l4), Box::new(map_term(h)));
    let l5 = StreamProcessor::Compose(
        Box::new(StreamProcessor::Get(Cont::Mapping(f))),
        Box::new(StreamProcessor::Apply(Cont::Mapping(g), fun_value(f, v0))),
    );
    let t5 = StreamProcessor::Compose(Box::new(l5), Box::new(map_term(h)));
    let l6 = StreamProcessor::Get(
        Cont::Composing(
            Box::new(Cont::Mapping(f)),
            Box::new(StreamProcessor::Apply(Cont::Mapping(g), fun_value(f, v0))),
        ),
    );
    let t6 = StreamProcessor::Compose(Box::new(l6), Box::new(map_term(h)));
    let t7 = StreamProcessor::Get(
        Cont::Composing(
            Box::new(
                Cont::Composing(
                    Box::new(Cont::Mapping(f)),
                    Box::new(StreamProcessor::Apply(Cont::Mapping(g), fun_value(f, v0))),
                ),
            ),
            Box::new(map_term(h)),
        ),
    );
    assert(sp_step(StreamProcessor::Apply(Cont::Mapping(f), v0)) == StreamProcessor::Put(
        fun_value(f, v0),
        ma_f,
    ));
    assert(sp_step(a0) == t1);
    assert(next_output(a0, inp, k1, 37) == next_output(t1, inp, k1, 36));
    assert(sp_step(
        StreamProcessor::Apply(
            Cont::Composing(Box::new(Cont::Mapping(f)), Box::new(map_term(g))),
            v0,
        ),
    ) == l2);
    assert(sp_step(t1) == t2);
    assert(next_output(t1, inp, k1, 36) == next_output(t2, inp, k1, 35));
    assert(sp_step(l2) == l3);
    assert(sp_step(t2) == t3);
    assert(next_output(t2, inp, k1, 35) == next_output(t3, inp, k1, 34));
    assert(sp_step(l3) == l4);
    assert(sp_step(t3) == t4);
    assert(next_output(t3, inp, k1, 34) == next_output(t4, inp, k1, 33));
    assert(sp_step(StreamProcessor::Force(ma_f)) == StreamProcessor::Get(Cont::Mapping(f)));
    assert(sp_step(l4) == l5);
    assert(sp_step(t4) == t5);
    assert(next_output(t4, inp, k1, 33) == next_output(t5, inp, k1, 32));
    assert(sp_step(l5) == l6);
    assert(sp_step(t5) == t6);
    assert(next_output(t5, inp, k1, 32) == next_output(t6, inp, k1, 31));
    assert(sp_step(t6) == t7);
    assert(next_output(t6, inp, k1, 31) == next_output(t7, inp, k1, 30));
    let a1 = StreamProcessor::Apply(
        Cont::Composing(
            Box::new(
                Cont::Composing(
                    Box::new(Cont::Mapping(f)),
                    Box::new(StreamProcessor::Apply(Cont::Mapping(g), fun_value(f, v0))),
                ),
            ),
            Box::new(map_term(h)),
        ),
        v1,
    );
    assert(next_output(t7, inp, k1, 30) == next_output(a1, inp, k2, 29));
    let gfv0 = fun_value(g, fun_value(f, v0));
    let q1 = StreamProcessor::Compose(
        Box::new(
            StreamProcessor::Apply(
                Cont::Composing(
                    Box::new(Cont::Mapping(f)),
                    Box::new(StreamProcessor::Apply(Cont::Mapping(g), fun_value(f, v0))),
                ),
                v1,
            ),
        ),
        Box::new(map_term(h)),
    );
    let m2 = StreamProcessor::Compose(
        Box::new(StreamProcessor::Apply(Cont::Mapping(f), v1)),
        Box::new(StreamProcessor::Apply(Cont::Mapping(g), fun_value(f, v0))),
    );
    let q2 = StreamProcessor::Compose(Box::new(m2), Box::new(map_term(h)));
    let m3 = StreamProcessor::Compose(
        Box::new(StreamProcessor::Put(fun_value(f, v1), ma_f)),
        Box::new(StreamProcessor::Apply(Cont::Mapping(g), fun_value(f, v0))),
    );
    let q3 = StreamProcessor::Compose(Box::new(m3), Box::new(map_term(h)));
    let m4 = StreamProcessor::Compose(
        Box::new(StreamProcessor::Put(fun_value(f, v1), ma_f)),
        Box::new(StreamProcessor::Put(gfv0, ma_g)),
    );
    let q4 = StreamProcessor::Compose(Box::new(m4), Box::new(map_term(h)));
    let m5 = StreamProcessor::Put(
        gfv0,
        Thunk::HoldPut(fun_value(f, v1), Box::new(ma_f), Box::new(ma_g)),
    );
    let q5 = StreamProcessor::Compose(Box::new(m5), Box::new(map_term(h)));
    let q6 = StreamProcessor::Compose(
        Box::new(
            StreamProcessor::Force(
                Thunk::HoldPut(fun_value(f, v1), Box::new(ma_f), Box::new(ma_g)),
            ),
        ),
        Box::new(StreamProcessor::Apply(Cont::Mapping(h), gfv0)),
    );
    let m7 = StreamProcessor::Compose(
        Box::new(StreamProcessor::Put(fun_value(f, v1), ma_f)),
        Box::new(StreamProcessor::Force(ma_g)),
    );
    let q7 = StreamProcessor::Compose(
        Box::new(m7),
        Box::new(StreamProcessor::Apply(Cont::Mapping(h), gfv0)),
    );
    let m8 = StreamProcessor::Compose(
        Box::new(StreamProcessor::Put(fun_value(f, v1), ma_f)),
        Box::new(StreamProcessor::Get(Cont::Mapping(g))),
    );
    let q8 = StreamProcessor::Compose(
        Box::new(m8),
        Box::new(StreamProcessor::Apply(Cont::Mapping(h), gfv0)),
    );
    let m9 = StreamProcessor::Compose(
        Box::new(StreamProcessor::Force(ma_f)),
        Box::new(StreamProcessor::Apply(Cont::Mapping(g), fun_value(f, v1))),
    );
    let q9 = StreamProcessor::Compose(
        Box::new(m9),
        Box::new(StreamProcessor::Apply(Cont::Mapping(h), gfv0)),
    );
    let m10 = StreamProcessor::Compose(
        Box::new(StreamProcessor::Get(Cont::Mapping(f))),
        Box::new(StreamProcessor::Apply(Cont::Mapping(g), fun_value(f, v1))),
    );
    let q10 = StreamProcessor::Compose(
        Box::new(m10),
        Box::new(StreamProcessor::Apply(Cont::Mapping(h), gfv0)),
    );
    let m11 = StreamProcessor::Get(
        Cont::Composing(
            Box::new(Cont::Mapping(f)),
            Box::new(StreamProcessor::Apply(Cont::Mapping(g), fun_value(f, v1))),
        ),
    );
    let q11 = StreamProcessor::Compose(
        Box::new(m11),
        Box::new(StreamProcessor::Apply(Cont::Mapping(h), gfv0)),
    );
    let q12 = assoc_left_read_state(f, g, h, fun_value(f, v1), gfv0);
    assert(sp_step(StreamProcessor::Apply(Cont::Mapping(f), v1)) == StreamProcessor::Put(
        fun_value(f, v1),
        ma_f,
    ));
    assert(sp_step(a1) == q1);
    assert(next_output(a1, inp, k2, 29) == next_output(q1, inp, k2, 28));
    assert(sp_step(
        StreamProcessor::Apply(
            Cont::Composing(
                Box::new(Cont::Mapping(f)),
                Box::new(StreamProcessor::Apply(Cont::Mapping(g), fun_value(f, v0))),
            ),
            v1,
        ),
    ) == m2);
    assert(sp_step(q1) == q2);
    assert(next_output(q1, inp, k2, 28) == next_output(q2, inp, k2, 27));
    assert(sp_step(m2) == m3);
    assert(sp_step(q2) == q3);
    assert(next_output(q2, inp, k2, 27) == next_output(q3, inp, k2, 26));
    assert(sp_step(StreamProcessor::Apply(Cont::Mapping(g), fun_value(f, v0)))
        == StreamProcessor::Put(gfv0, ma_g));
    assert(sp_step(m3) == m4);
    assert(sp_step(q3) == q4);
    assert(next_output(q3, inp, k2, 26) == next_output(q4, inp, k2, 25));
    assert(sp_step(m4) == m5);
    assert(sp_step(q4) == q5);
    assert(next_output(q4, inp, k2, 25) == next_output(q5, inp, k2, 24));
    assert(sp_step(q5) == q6);
    assert(next_output(q5, inp, k2, 24) == next_output(q6, inp, k2, 23));
    assert(sp_step(
        StreamProcessor::Force(Thunk::HoldPut(fun_value(f, v1), Box::new(ma_f), Box::new(ma_g))),
    ) == m7);
    assert(sp_step(q6) == q7);
    assert(next_output(q6, inp, k2, 23) == next_output(q7, inp, k2, 22));
    assert(sp_step(StreamProcessor::Force(ma_g)) == StreamProcessor::Get(Cont::Mapping(g)));
    assert(sp_step(m7) == m8);
    assert(sp_step(q7) == q8);
    assert(next_output(q7, inp, k2, 22) == next_output(q8, inp, k2, 21));
    assert(sp_step(m8) == m9);
    assert(sp_step(q8) == q9);
    assert(next_output(q8, inp, k2, 21) == next_output(q9, inp, k2, 20));
    assert(sp_step(StreamProcessor::Force(ma_f)) == StreamProcessor::Get(Cont::Mapping(f)));
    assert(sp_step(m9) == m10);
    assert(sp_step(q9) == q10);
    assert(next_output(q9, inp, k2, 20) == next_output(q10, inp, k2, 19));
    assert(sp_step(m10) == m11);
    assert(sp_step(q10) == q11);
    assert(next_output(q10, inp, k2, 19) == next_output(q11, inp, k2, 18));
    assert(sp_step(q11) == q12);
    assert(next_output(q11, inp, k2, 18) == next_output(q12, inp, k2, 17));
    lemma_assoc_left_read(f, g, h, fun_value(f, v1), gfv0, inp, k2, 17);
    assert(next_output(r0, inp, k, 40) == Some(
        (
            fun_value(h, gfv0),
            assoc_left_thunk(f, g, h, fun_value(f, inp(k2)), fun_value(g, fun_value(f, v1))),
            k3,
        ),
    ));
    if n > 0 {
        lemma_assoc_left_loop(
            f,
            g,
            h,
            fun_value(f, inp(k2)),
            fun_value(g, fun_value(f, v1)),
            inp,
            k3,
            (n - 1) as nat,
        );
        if n == 1 {
            assert(assoc_held_value(
                f,
                g,
                h,
                fun_value(f, inp(k2)),
                fun_value(g, fun_value(f, v1)),
                inp,
                k3,
                0,
            ) == fun_value(h, fun_value(g, fun_value(f, inp((k + n) as nat)))));
        } else if n == 2 {
            assert(assoc_held_value(
                f,
                g,
                h,
                fun_value(f, inp(k2)),
                fun_value(g, fun_value(f, v1)),
                inp,
                k3,
                1,
            ) == fun_value(h, fun_value(g, fun_value(f, inp((k + n) as nat)))));
        } else {
            assert((k3 + (n - 1) - 2) as nat == (k + n) as nat);
        }
    }
}

/// Sequential composition of pointwise stages is associative: both
/// associations of a three-stage mapping pipeline write the same `n`-th
/// output element on every input, for every `n` — the thrice-transformed
/// `n`-th input element.
pub proof fn lemma_compose_assoc_maps(
    f: Fun,
    g: Fun,
    h: Fun,
    inp: spec_fn(nat) -> Value,
    n: nat,
    v: Value,
)
    ensures
        produces(
            compose_term(compose_term(map_term(f), map_term(g)), map_term(h)),
            inp,
            n,
            v,
        ) <==> produces(
            compose_term(map_term(f), compose_term(map_term(g), map_term(h))),
            inp,
            n,
            v,
        ),
{
    let lhs = compose_term(compose_term(map_term(f), map_term(g)), map_term(h));
    let rhs = compose_term(map_term(f), compose_term(map_term(g), map_term(h)));
    let w = fun_value(h, fun_value(g, fun_value(f, inp(n))));
    lemma_assoc_left_nth(f, g, h, inp, 0, n);
    lemma_assoc_right_nth(f, g, h, inp, 0, n);
    lemma_produces_exactly(lhs, inp, n, w);
    lemma_produces_exactly(rhs, inp, n, w);
}

/// The recurring state of an identity stage composed before an arbitrary
/// processor: the element just read sits buffered in the stage's pending
/// write, awaiting the processor.
pub open spec fn lid_state(sp: StreamProcessor, x: Value) -> StreamProcessor {
    StreamProcessor::Compose(
        Box::new(StreamProcessor::Put(x, Thunk::MapAgain(Fun::Id))),
        Box::new(sp),
    )
}

/// The suspension the identity stage leaves around the processor's own
/// suspension after a write.
pub open spec fn lid_thunk(t: Thunk, x: Value) -> Thunk {
    Thunk::HoldPut(x, Box::new(Thunk::MapAgain(Fun::Id)), Box::new(t))
}

/// Whatever write the processor reaches, the identity stage buffering its
/// reads reaches the same write one position later, with the stage's buffer
/// refilled.
proof fn lemma_lid_next(
    sp: StreamProcessor,
    inp: spec_fn(nat) -> Value,
    k: nat,
    f: nat,
    b: Value,
    t: Thunk,
    k2: nat,
)
    requires
        next_output(sp, inp, k, f) == Some((b, t, k2)),
    ensures
        exists|f2: nat|
            #[trigger] next_output(lid_state(sp, inp(k)), inp, (k + 1) as nat, f2) == Some(
                (b, lid_thunk(t, inp(k2)), (k2 + 1) as nat),
            ),
    decreases f,
{
    let x = inp(k);
    let t0 = lid_state(sp, x);
    let ma = Thunk::MapAgain(Fun::Id);
    let k1 = (k + 1) as nat;
    match sp {
        StreamProcessor::Put(b9, t9) => {
            let t1 = StreamProcessor::Put(b9, lid_thunk(t9, x));
            assert(sp_step(t0) == t1);
            assert(next_output(t0, inp, k1, 2) == next_output(t1, inp, k1, 1));
            assert(next_output(t0, inp, k1, 2) == Some((b, lid_thunk(t, inp(k2)), (k2 + 1) as nat)));
        },
        StreamProcessor::Get(g) => {
            let spg = StreamProcessor::Apply(g, inp(k));
            assert(next_output(sp, inp, k, f) == next_output(spg, inp, k1, (f - 1) as nat));
            lemma_lid_next(spg, inp, k1, (f - 1) as nat, b, t, k2);
            let f2 = choose|f2: nat|
                #[trigger] next_output(lid_state(spg, inp(k1)), inp, (k1 + 1) as nat, f2) == Some(
                    (b, lid_thunk(t, inp(k2)), (k2 + 1) as nat),
                );
            let u1 = StreamProcessor::Compose(
                Box::new(StreamProcessor::Force(ma)),
                Box::new(spg),
            );
            let u2 = StreamProcessor::Compose(
                Box::new(StreamProcessor::Get(Cont::Mapping(Fun::Id))),
                Box::new(spg),
            );
            let u3 = StreamProcessor::Get(
                Cont::Composing(Box::new(Cont::Mapping(Fun::Id)), Box::new(spg)),
            );
            let v1 = inp(k1);
            let a4 = StreamProcessor::Apply(
                Cont::Composing(Box::new(Cont::Mapping(Fun::Id)), Box::new(spg)),
                v1,
            );
            let u4 = StreamProcessor::Compose(
                Box::new(StreamProcessor::Apply(Cont::Mapping(Fun::Id), v1)),
                Box::new(spg),
            );
            assert(sp_step(t0) == u1);
            assert(next_output(t0, inp, k1, (f2 + 6) as nat) == next_output(
                u1,
                inp,
                k1,
                (f2 + 5) as nat,
            ));
            assert(sp_step(StreamProcessor::Force(ma)) == StreamProcessor::Get(
                Cont::Mapping(Fun::Id),
            ));
            assert(sp_step(u1) == u2);
            assert(next_output(u1, inp, k1, (f2 + 5) as nat) == next_output(
                u2,
                inp,
                k1,
                (f2 + 4) as nat,
            ));
            assert(sp_step(u2) == u3);
            assert(next_output(u2, inp, k1, (f2 + 4) as nat) == next_output(
                u3,
                inp,
                k1,
                (f2 + 3) as nat,
            ));
            assert(next_output(u3, inp, k1, (f2 + 3) as nat) == next_output(
                a4,
                inp,
                (k1 + 1) as nat,
                (f2 + 2) as nat,
            ));
            assert(sp_step(a4) == u4);
            assert(next_output(a4, inp, (k1 + 1) as nat, (f2 + 2) as nat) == next_output(
                u4,
                inp,
                (k1 + 1) as nat,
                (f2 + 1) as nat,
            ));
            assert(sp_step(StreamProcessor::Apply(Cont::Mapping(Fun::Id), v1))
                == StreamProcessor::Put(v1, ma));
            assert(sp_step(u4) == lid_state(spg, v1));
            assert(next_output(u4, inp, (k1 + 1) as nat, (f2 + 1) as nat) == next_output(
                lid_state(spg, v1),
                inp,
                (k1 + 1) as nat,
                f2,
            ));
        },
        _ => {
            assert(next_output(sp, inp, k, f) == next_output(sp_step(sp), inp, k, (f - 1) as nat));
            lemma_lid_next(sp_step(sp), inp, k, (f - 1) as nat, b, t, k2);
            let f2 = choose|f2: nat|
                #[trigger] next_output(lid_state(sp_step(sp), inp(k)), inp, k1, f2) == Some(
                    (b, lid_thunk(t, inp(k2)), (k2 + 1) as nat),
                );
            assert(sp_step(t0) == lid_state(sp_step(sp), x));
            assert(next_output(t0, inp, k1, (f2 + 1) as nat) == next_output(
                lid_state(sp_step(sp), x),
                inp,
                k1,
                f2,
            ));
        },
    }
}

/// Whatever `n`-th element the processor writes, the identity stage
/// buffering its reads writes the same `n`-th element.
proof fn lemma_lid_nth(
    sp: StreamProcessor,
    inp: spec_fn(nat) -> Value,
    k: nat,
    n: nat,
    f: nat,
    v: Value,
)
    requires
        nth_output(sp, inp, k, n, f) == Some(v),
    ensures
        exists|f2: nat|
            #[trigger] nth_output(lid_state(sp, inp(k)), inp, (k + 1) as nat, n, f2) == Some(v),
    decreases n,
{
    let (b, t, k2) = next_output(sp, inp, k, f)->Some_0;
    lemma_lid_next(sp, inp, k, f, b, t, k2);
    let hp = lid_thunk(t, inp(k2));
    let f1 = choose|f2: nat|
        #[trigger] next_output(lid_state(sp, inp(k)), inp, (k + 1) as nat, f2) == Some(
            (b, hp, (k2 + 1) as nat),
        );
    if n == 0 {
        assert(nth_output(lid_state(sp, inp(k)), inp, (k + 1) as nat, 0, f1) == Some(v));
    } else {
        assert(nth_output(StreamProcessor::Force(t), inp, k2, (n - 1) as nat, f) == Some(v));
        lemma_lid_nth(StreamProcessor::Force(t), inp, k2, (n - 1) as nat, f, v);
        let f3 = choose|f2: nat|
            #[trigger] nth_output(
                lid_state(StreamProcessor::Force(t), inp(k2)),
                inp,
                (k2 + 1) as nat,
                (n - 1) as nat,
                f2,
            ) == Some(v);
        assert(sp_step(StreamProcessor::Force(hp)) == lid_state(
            StreamProcessor::Force(t),
            inp(k2),
        ));
        lemma_nth_shift(
            StreamProcessor::Force(hp),
            inp,
            (k2 + 1) as nat,
            (n - 1) as nat,
            f3,
            v,
        );
        lemma_nth_segments(
            lid_state(sp, inp(k)),
            inp,
            (k + 1) as nat,
            n,
            b,
            hp,
            (k2 + 1) as nat,
            v,
            f1,
            (f3 + 1) as nat,
        );
    }
}

/// Whatever write the identity stage's composite reaches, the processor
/// alone reaches the same write one position earlier, and the composite's
/// suspension is the stage's buffer around the processor's own.
proof fn lemma_lid_next_inv(
    sp: StreamProcessor,
    inp: spec_fn(nat) -> Value,
    k: nat,
    f2: nat,
    b: Value,
    tc: Thunk,
    j: nat,
) -> (w: (nat, Thunk))
    requires
        next_output(lid_state(sp, inp(k)), inp, (k + 1) as nat, f2) == Some((b, tc, j)),
    ensures
        j >= 1,
        next_output(sp, inp, k, w.0) == Some((b, w.1, (j - 1) as nat)),
        tc == lid_thunk(w.1, inp((j - 1) as nat)),
    decreases f2,
{
    let x = inp(k);
    let t0 = lid_state(sp, x);
    let ma = Thunk::MapAgain(Fun::Id);
    let k1 = (k + 1) as nat;
    assert(f2 >= 1);
    match sp {
        StreamProcessor::Put(b9, t9) => {
            let t1 = StreamProcessor::Put(b9, lid_thunk(t9, x));
            assert(sp_step(t0) == t1);
            assert(next_output(t0, inp, k1, f2) == next_output(t1, inp, k1, (f2 - 1) as nat));
            assert((f2 - 1) as nat >= 1);
            assert(b == b9 && tc == lid_thunk(t9, x) && j == k1);
            assert(next_output(sp, inp, k, 1) == Some((b, t9, (j - 1) as nat)));
            (1, t9)
        },
        StreamProcessor::Get(g) => {
            let spg = StreamProcessor::Apply(g, inp(k));
            let u1 = StreamProcessor::Compose(
                Box::new(StreamProcessor::Force(ma)),
                Box::new(spg),
            );
            let u2 = StreamProcessor::Compose(
                Box::new(StreamProcessor::Get(Cont::Mapping(Fun::Id))),
                Box::new(spg),
            );
            let u3 = StreamProcessor::Get(
                Cont::Composing(Box::new(Cont::Mapping(Fun::Id)), Box::new(spg)),
            );
            let v1 = inp(k1);
            let a4 = StreamProcessor::Apply(
                Cont::Composing(Box::new(Cont::Mapping(Fun::Id)), Box::new(spg)),
                v1,
            );
            let u4 = StreamProcessor::Compose(
                Box::new(StreamProcessor::Apply(Cont::Mapping(Fun::Id), v1)),
                Box::new(spg),
            );
            assert(sp_step(t0) == u1);
            assert(next_output(t0, inp, k1, f2) == next_output(u1, inp, k1, (f2 - 1) as nat));
            assert((f2 - 1) as nat >= 1);
            assert(sp_step(StreamProcessor::Force(ma)) == StreamProcessor::Get(
                Cont::Mapping(Fun::Id),
            ));
            assert(sp_step(u1) == u2);
            assert(next_output(u1, inp, k1, (f2 - 1) as nat) == next_output(
                u2,
                inp,
                k1,
                (f2 - 2) as nat,
            ));
            assert((f2 - 2) as nat >= 1);
            assert(sp_step(u2) == u3);
            assert(next_output(u2, inp, k1, (f2 - 2) as nat) == next_output(
                u3,
                inp,
                k1,
                (f2 - 3) as nat,
            ));
            assert((f2 - 3) as nat >= 1);
            assert(next_output(u3, inp, k1, (f2 - 3) as nat) == next_output(
                a4,
                inp,
                (k1 + 1) as nat,
                (f2 - 4) as nat,
            ));
            assert((f2 - 4) as nat >= 1);
            assert(sp_step(a4) == u4);
            assert(next_output(a4, inp, (k1 + 1) as nat, (f2 - 4) as nat) == next_output(
                u4,
                inp,
                (k1 + 1) as nat,
                (f2 - 5) as nat,
            ));
            assert((f2 - 5) as nat >= 1);
            assert(sp_step(StreamProcessor::Apply(Cont::Mapping(Fun::Id), v1))
                == StreamProcessor::Put(v1, ma));
            assert(sp_step(u4) == lid_state(spg, v1));
            assert(next_output(u4, inp, (k1 + 1) as nat, (f2 - 5) as nat) == next_output(
                lid_state(spg, v1),
                inp,
                (k1 + 1) as nat,
                (f2 - 6) as nat,
            ));
            let (f, t) = lemma_lid_next_inv(spg, inp, k1, (f2 - 6) as nat, b, tc, j);
            assert(next_output(sp, inp, k, (f + 1) as nat) == next_output(spg, inp, k1, f));
            ((f + 1) as nat, t)
        },
        _ => {
            assert(sp_step(t0) == lid_state(sp_step(sp), x));
            assert(next_output(t0, inp, k1, f2) == next_output(
                lid_state(sp_step(sp), x),
                inp,
                k1,
                (f2 - 1) as nat,
            ));
            let (f, t) = lemma_lid_next_inv(sp_step(sp), inp, k, (f2 - 1) as nat, b, tc, j);
            assert(next_output(sp, inp, k, (f + 1) as nat) == next_output(sp_step(sp), inp, k, f));
            ((f + 1) as nat, t)
        },
    }
}

/// Whatever `n`-th element the identity stage's composite writes, the
/// processor alone writes the same `n`-th element.
proof fn lemma_lid_nth_inv(
    sp: StreamProcessor,
    inp: spec_fn(nat) -> Value,
    k: nat,
    n: nat,
    f2: nat,
    v: Value,
)
    requires
        nth_output(lid_state(sp, inp(k)), inp, (k + 1) as nat, n, f2) == Some(v),
    ensures
        exists|f: nat| #[trigger] nth_output(sp, inp, k, n, f) == Some(v),
    decreases n,
{
    let (b, tc, j) = next_output(lid_state(sp, inp(k)), inp, (k + 1) as nat, f2)->Some_0;
    let (f, t) = lemma_lid_next_inv(sp, inp, k, f2, b, tc, j);
    let k2 = (j - 1) as nat;
    if n == 0 {
        assert(nth_output(sp, inp, k, 0, f) == Some(v));
    } else {
        assert(nth_output(StreamProcessor::Force(tc), inp, j, (n - 1) as nat, f2) == Some(v));
        assert(f2 >= 1);
        let lidf = lid_state(StreamProcessor::Force(t), inp(k2));
        assert(sp_step(StreamProcessor::Force(tc)) == lidf);
        assert(next_output(StreamProcessor::Force(tc), inp, j, f2) == next_output(
            lidf,
            inp,
            j,
            (f2 - 1) as nat,
        ));
        let (b2, t2, j2) = next_output(StreamProcessor::Force(tc), inp, j, f2)->Some_0;
        lemma_next_output_mono(lidf, inp, j, (f2 - 1) as nat, f2);
        assert(next_output(lidf, inp, j, f2) == Some((b2, t2, j2)));
        assert(nth_output(lidf, inp, j, (n - 1) as nat, f2) == Some(v));
        lemma_lid_nth_inv(StreamProcessor::Force(t), inp, k2, (n - 1) as nat, f2, v);
        let f3 = choose|f3: nat|
            #[trigger] nth_output(StreamProcessor::Force(t), inp, k2, (n - 1) as nat, f3) == Some(
                v,
            );
        lemma_nth_segments(sp, inp, k, n, b, t, k2, v, f, f3);
    }
}

/// The identity transform is a left identity of sequential composition on
/// any processor at all: composing the identity stage before a processor
/// changes no output element, for every input and every position.
pub proof fn lemma_compose_identity_left_general(
    sp: StreamProcessor,
    inp: spec_fn(nat) -> Value,
    n: nat,
    v: Value,
)
    ensures
        produces(compose_term(map_term(Fun::Id), sp), inp, n, v) <==> produces(sp, inp, n, v),
{
    let c0 = compose_term(map_term(Fun::Id), sp);
    let ma = Thunk::MapAgain(Fun::Id);
    let v0 = inp(0);
    let w1 = StreamProcessor::Get(Cont::Composing(Box::new(Cont::Mapping(Fun::Id)), Box::new(sp)));
    let a2 = StreamProcessor::Apply(
        Cont::Composing(Box::new(Cont::Mapping(Fun::Id)), Box::new(sp)),
        v0,
    );
    let w3 = StreamProcessor::Compose(
        Box::new(StreamProcessor::Apply(Cont::Mapping(Fun::Id), v0)),
        Box::new(sp),
    );
    assert(sp_step(c0) == w1);
    assert(sp_step(StreamProcessor::Apply(Cont::Mapping(Fun::Id), v0)) == StreamProcessor::Put(
        v0,
        ma,
    ));
    assert(sp_step(a2) == w3);
    assert(sp_step(w3) == lid_state(sp, v0));
    if produces(sp, inp, n, v) {
        let f = choose|f: nat| nth_output(sp, inp, 0, n, f) == Some(v);
        lemma_lid_nth(sp, inp, 0, n, f, v);
        let f2 = choose|f2: nat|
            #[trigger] nth_output(lid_state(sp, v0), inp, 1, n, f2) == Some(v);
        let (b, hp, j) = next_output(lid_state(sp, v0), inp, 1, f2)->Some_0;
        assert(next_output(c0, inp, 0, (f2 + 4) as nat) == next_output(
            w1,
            inp,
            0,
            (f2 + 3) as nat,
        ));
        assert(next_output(w1, inp, 0, (f2 + 3) as nat) == next_output(a2, inp, 1, (f2 + 2) as nat));
        assert(next_output(a2, inp, 1, (f2 + 2) as nat) == next_output(w3, inp, 1, (f2 + 1) as nat));
        assert(next_output(w3, inp, 1, (f2 + 1) as nat) == next_output(
            lid_state(sp, v0),
            inp,
            1,
            f2,
        ));
        if n > 0 {
            lemma_nth_output_mono(
                StreamProcessor::Force(hp),
                inp,
                j,
                (n - 1) as nat,
                f2,
                (f2 + 4) as nat,
            );
        }
        assert(nth_output(c0, inp, 0, n, (f2 + 4) as nat) == Some(v));
        assert(produces(c0, inp, n, v));
    }
    if produces(c0, inp, n, v) {
        let fc = choose|fc: nat| nth_output(c0, inp, 0, n, fc) == Some(v);
        let (b, hp, j) = next_output(c0, inp, 0, fc)->Some_0;
        assert(fc >= 1);
        assert(next_output(c0, inp, 0, fc) == next_output(w1, inp, 0, (fc - 1) as nat));
        assert((fc - 1) as nat >= 1);
        assert(next_output(w1, inp, 0, (fc - 1) as nat) == next_output(a2, inp, 1, (fc - 2) as nat));
        assert((fc - 2) as nat >= 1);
        assert(next_output(a2, inp, 1, (fc - 2) as nat) == next_output(w3, inp, 1, (fc - 3) as nat));
        assert((fc - 3) as nat >= 1);
        assert(next_output(w3, inp, 1, (fc - 3) as nat) == next_output(
            lid_state(sp, v0),
            inp,
            1,
            (fc - 4) as nat,
        ));
        lemma_next_output_mono(lid_state(sp, v0), inp, 1, (fc - 4) as nat, fc);
        assert(next_output(lid_state(sp, v0), inp, 1, fc) == Some((b, hp, j)));
        if n > 0 {
            assert(nth_output(StreamProcessor::Force(hp), inp, j, (n - 1) as nat, fc) == Some(v));
        }
        assert(nth_output(lid_state(sp, v0), inp, 1, n, fc) == Some(v));
        lemma_lid_nth_inv(sp, inp, 0, n, fc, v);
        assert(produces(sp, inp, n, v));
    }
}

/// The recurring state of an identity stage composed after an arbitrary
/// processor: the element the processor last wrote waits, unapplied, in the
/// stage, and is written out when the processor next writes.
pub open spec fn rid_state(sp: StreamProcessor, y: Value) -> StreamProcessor {
    StreamProcessor::Compose(
        Box::new(sp),
        Box::new(StreamProcessor::Apply(Cont::Mapping(Fun::Id), y)),
    )
}

/// The suspension the trailing identity stage leaves after a write: the
/// processor's next write and suspension, held back.
pub open spec fn rid_thunk(b: Value, t: Thunk) -> Thunk {
    Thunk::HoldPut(b, Box::new(t), Box::new(Thunk::MapAgain(Fun::Id)))
}

/// Whatever write the processor reaches next, the trailing identity stage
/// writes its waiting element at that moment, holding the new write back.
proof fn lemma_rid_next(
    sp: StreamProcessor,
    y: Value,
    inp: spec_fn(nat) -> Value,
    k: nat,
    f: nat,
    b: Value,
    t: Thunk,
    k2: nat,
)
    requires
        next_output(sp, inp, k, f) == Some((b, t, k2)),
    ensures
        exists|f2: nat|
            #[trigger] next_output(rid_state(sp, y), inp, k, f2) == Some(
                (y, rid_thunk(b, t), k2),
            ),
    decreases f,
{
    let t0 = rid_state(sp, y);
    let ma = Thunk::MapAgain(Fun::Id);
    match sp {
        StreamProcessor::Put(b9, t9) => {
            let t1 = StreamProcessor::Compose(
                Box::new(sp),
                Box::new(StreamProcessor::Put(y, ma)),
            );
            let t2 = StreamProcessor::Put(y, rid_thunk(b9, t9));
            assert(sp_step(StreamProcessor::Apply(Cont::Mapping(Fun::Id), y))
                == StreamProcessor::Put(y, ma));
            assert(sp_step(t0) == t1);
            assert(sp_step(t1) == t2);
            assert(next_output(t0, inp, k, 3) == next_output(t1, inp, k, 2));
            assert(next_output(t1, inp, k, 2) == next_output(t2, inp, k, 1));
            assert(next_output(t0, inp, k, 3) == Some((y, rid_thunk(b, t), k2)));
        },
        StreamProcessor::Get(g) => {
            let spg = StreamProcessor::Apply(g, inp(k));
            assert(next_output(sp, inp, k, f) == next_output(spg, inp, (k + 1) as nat, (f
                - 1) as nat));
            lemma_rid_next(spg, y, inp, (k + 1) as nat, (f - 1) as nat, b, t, k2);
            let f2 = choose|f2: nat|
                #[trigger] next_output(rid_state(spg, y), inp, (k + 1) as nat, f2) == Some(
                    (y, rid_thunk(b, t), k2),
                );
            let u1 = StreamProcessor::Get(
                Cont::Composing(
                    Box::new(g),
                    Box::new(StreamProcessor::Apply(Cont::Mapping(Fun::Id), y)),
                ),
            );
            let a2 = StreamProcessor::Apply(
                Cont::Composing(
                    Box::new(g),
                    Box::new(StreamProcessor::Apply(Cont::Mapping(Fun::Id), y)),
                ),
                inp(k),
            );
            assert(sp_step(t0) == u1);
            assert(next_output(t0, inp, k, (f2 + 3) as nat) == next_output(
                u1,
                inp,
                k,
                (f2 + 2) as nat,
            ));
            assert(next_output(u1, inp, k, (f2 + 2) as nat) == next_output(
                a2,
                inp,
                (k + 1) as nat,
                (f2 + 1) as nat,
            ));
            assert(sp_step(a2) == rid_state(spg, y));
            assert(next_output(a2, inp, (k + 1) as nat, (f2 + 1) as nat) == next_output(
                rid_state(spg, y),
                inp,
                (k + 1) as nat,
                f2,
            ));
        },
        _ => {
            assert(next_output(sp, inp, k, f) == next_output(sp_step(sp), inp, k, (f - 1) as nat));
            lemma_rid_next(sp_step(sp), y, inp, k, (f - 1) as nat, b, t, k2);
            let f2 = choose|f2: nat|
                #[trigger] next_output(rid_state(sp_step(sp), y), inp, k, f2) == Some(
                    (y, rid_thunk(b, t), k2),
                );
            assert(sp_step(t0) == rid_state(sp_step(sp), y));
            assert(next_output(t0, inp, k, (f2 + 1) as nat) == next_output(
                rid_state(sp_step(sp), y),
                inp,
                k,
                f2,
            ));
        },
    }
}

/// Whatever write the trailing identity stage's composite reaches, it is the
/// stage's waiting element, written the moment the processor reached its own
/// next write.
proof fn lemma_rid_next_inv(
    sp: StreamProcessor,
    y: Value,
    inp: spec_fn(nat) -> Value,
    k: nat,
    f2: nat,
    u: Value,
    tc: Thunk,
    k2: nat,
) -> (w: (nat, Value, Thunk))
    requires
        next_output(rid_state(sp, y), inp, k, f2) == Some((u, tc, k2)),
    ensures
        u == y,
        next_output(sp, inp, k, w.0) == Some((w.1, w.2, k2)),
        tc == rid_thunk(w.1, w.2),
    decreases f2,
{
    let t0 = rid_state(sp, y);
    let ma = Thunk::MapAgain(Fun::Id);
    assert(f2 >= 1);
    match sp {
        StreamProcessor::Put(b9, t9) => {
            let t1 = StreamProcessor::Compose(
                Box::new(sp),
                Box::new(StreamProcessor::Put(y, ma)),
            );
            let t2 = StreamProcessor::Put(y, rid_thunk(b9, t9));
            assert(sp_step(StreamProcessor::Apply(Cont::Mapping(Fun::Id), y))
                == StreamProcessor::Put(y, ma));
            assert(sp_step(t0) == t1);
            assert(next_output(t0, inp, k, f2) == next_output(t1, inp, k, (f2 - 1) as nat));
            assert((f2 - 1) as nat >= 1);
            assert(sp_step(t1) == t2);
            assert(next_output(t1, inp, k, (f2 - 1) as nat) == next_output(
                t2,
                inp,
                k,
                (f2 - 2) as nat,
            ));
            assert((f2 - 2) as nat >= 1);
            assert(next_output(sp, inp, k, 1) == Some((b9, t9, k)));
            (1, b9, t9)
        },
        StreamProcessor::Get(g) => {
            let spg = StreamProcessor::Apply(g, inp(k));
            let u1 = StreamProcessor::Get(
                Cont::Composing(
                    Box::new(g),
                    Box::new(StreamProcessor::Apply(Cont::Mapping(Fun::Id), y)),
                ),
            );
            let a2 = StreamProcessor::Apply(
                Cont::Composing(
                    Box::new(g),
                    Box::new(StreamProcessor::Apply(Cont::Mapping(Fun::Id), y)),
                ),
                inp(k),
            );
            assert(sp_step(t0) == u1);
            assert(next_output(t0, inp, k, f2) == next_output(u1, inp, k, (f2 - 1) as nat));
            assert((f2 - 1) as nat >= 1);
            assert(next_output(u1, inp, k, (f2 - 1) as nat) == next_output(
                a2,
                inp,
                (k + 1) as nat,
                (f2 - 2) as nat,
            ));
            assert((f2 - 2) as nat >= 1);
            assert(sp_step(a2) == rid_state(spg, y));
            assert(next_output(a2, inp, (k + 1) as nat, (f2 - 2) as nat) == next_output(
                rid_state(spg, y),
                inp,
                (k + 1) as nat,
                (f2 - 3) as nat,
            ));
            let w = lemma_rid_next_inv(spg, y, inp, (k + 1) as nat, (f2 - 3) as nat, u, tc, k2);
            assert(next_output(sp, inp, k, (w.0 + 1) as nat) == next_output(
                spg,
                inp,
                (k + 1) as nat,
                w.0,
            ));
            ((w.0 + 1) as nat, w.1, w.2)
        },
        _ => {
            assert(sp_step(t0) == rid_state(sp_step(sp), y));
            assert(next_output(t0, inp, k, f2) == next_output(
                rid_state(sp_step(sp), y),
                inp,
                k,
                (f2 - 1) as nat,
            ));
            let w = lemma_rid_next_inv(sp_step(sp), y, inp, k, (f2 - 1) as nat, u, tc, k2);
            assert(next_output(sp, inp, k, (w.0 + 1) as nat) == next_output(
                sp_step(sp),
                inp,
                k,
                w.0,
            ));
            ((w.0 + 1) as nat, w.1, w.2)
        },
    }
}

/// Whatever `n`-th element the processor writes, the trailing identity
/// stage's composite writes as its `n`-th element the stage's waiting
/// element for `n` zero, and the processor's previous element after that —
/// one write behind.
proof fn lemma_rid_nth(
    sp: StreamProcessor,
    y: Value,
    inp: spec_fn(nat) -> Value,
    k: nat,
    n: nat,
    f: nat,
    w: Value,
)
    requires
        nth_output(sp, inp, k, n, f) == Some(w),
    ensures
        exists|f2: nat|
            #[trigger] nth_output(rid_state(sp, y), inp, k, n, f2) == Some(
                if n == 0 {
                    y
                } else {
                    nth_output(sp, inp, k, (n - 1) as nat, f)->Some_0
                },
            ),
    decreases n,
{
    let (b, t, k2) = next_output(sp, inp, k, f)->Some_0;
    lemma_rid_next(sp, y, inp, k, f, b, t, k2);
    let f1 = choose|f2: nat|
        #[trigger] next_output(rid_state(sp, y), inp, k, f2) == Some((y, rid_thunk(b, t), k2));
    if n == 0 {
        assert(nth_output(rid_state(sp, y), inp, k, 0, f1) == Some(y));
    } else {
        assert(nth_output(StreamProcessor::Force(t), inp, k2, (n - 1) as nat, f) == Some(w));
        lemma_rid_nth(StreamProcessor::Force(t), b, inp, k2, (n - 1) as nat, f, w);
        let goal = if (n - 1) as nat == 0 {
            b
        } else {
            nth_output(StreamProcessor::Force(t), inp, k2, (n - 2) as nat, f)->Some_0
        };
        let f3 = choose|f2: nat|
            #[trigger] nth_output(
                rid_state(StreamProcessor::Force(t), b),
                inp,
                k2,
                (n - 1) as nat,
                f2,
            ) == Some(goal);
        let ma = Thunk::MapAgain(Fun::Id);
        let a1 = StreamProcessor::Force(rid_thunk(b, t));
        let a2 = StreamProcessor::Compose(
            Box::new(StreamProcessor::Put(b, t)),
            Box::new(StreamProcessor::Force(ma)),
        );
        let a3 = StreamProcessor::Compose(
            Box::new(StreamProcessor::Put(b, t)),
            Box::new(StreamProcessor::Get(Cont::Mapping(Fun::Id))),
        );
        assert(sp_step(a3) == rid_state(StreamProcessor::Force(t), b));
        lemma_nth_shift(a3, inp, k2, (n - 1) as nat, f3, goal);
        assert(sp_step(StreamProcessor::Force(ma)) == StreamProcessor::Get(
            Cont::Mapping(Fun::Id),
        ));
        assert(sp_step(a2) == a3);
        lemma_nth_shift(a2, inp, k2, (n - 1) as nat, (f3 + 1) as nat, goal);
        assert(sp_step(a1) == a2);
        lemma_nth_shift(a1, inp, k2, (n - 1) as nat, (f3 + 2) as nat, goal);
        lemma_nth_segments(
            rid_state(sp, y),
            inp,
            k,
            n,
            y,
            rid_thunk(b, t),
            k2,
            goal,
            f1,
            (f3 + 3) as nat,
        );
        assert(goal == nth_output(sp, inp, k, (n - 1) as nat, f)->Some_0);
    }
}

/// Whatever `n`-th element the trailing identity stage's composite writes,
/// the processor itself reaches its `n`-th write, and the written element is
/// the stage's waiting one for `n` zero and the processor's previous element
/// after that.
proof fn lemma_rid_nth_inv(
    sp: StreamProcessor,
    y: Value,
    inp: spec_fn(nat) -> Value,
    k: nat,
    n: nat,
    f2: nat,
    v: Value,
) -> (fr: nat)
    requires
        nth_output(rid_state(sp, y), inp, k, n, f2) == Some(v),
    ensures
        nth_output(sp, inp, k, n, fr) is Some,
        v == if n == 0 {
            y
        } else {
            nth_output(sp, inp, k, (n - 1) as nat, fr)->Some_0
        },
    decreases n,
{
    let (u, tc, k2) = next_output(rid_state(sp, y), inp, k, f2)->Some_0;
    let w = lemma_rid_next_inv(sp, y, inp, k, f2, u, tc, k2);
    let b = w.1;
    let t = w.2;
    if n == 0 {
        assert(nth_output(sp, inp, k, 0, w.0) == Some(b));
        w.0
    } else {
        assert(nth_output(StreamProcessor::Force(tc), inp, k2, (n - 1) as nat, f2) == Some(v));
        let ma = Thunk::MapAgain(Fun::Id);
        let a1 = StreamProcessor::Force(rid_thunk(b, t));
        let a2 = StreamProcessor::Compose(
            Box::new(StreamProcessor::Put(b, t)),
            Box::new(StreamProcessor::Force(ma)),
        );
        let a3 = StreamProcessor::Compose(
            Box::new(StreamProcessor::Put(b, t)),
            Box::new(StreamProcessor::Get(Cont::Mapping(Fun::Id))),
        );
        let rid2 = rid_state(StreamProcessor::Force(t), b);
        assert(f2 >= 1);
        assert(sp_step(a1) == a2);
        assert(next_output(a1, inp, k2, f2) == next_output(a2, inp, k2, (f2 - 1) as nat));
        assert((f2 - 1) as nat >= 1);
        assert(sp_step(StreamProcessor::Force(ma)) == StreamProcessor::Get(
            Cont::Mapping(Fun::Id),
        ));
        assert(sp_step(a2) == a3);
        assert(next_output(a2, inp, k2, (f2 - 1) as nat) == next_output(
            a3,
            inp,
            k2,
            (f2 - 2) as nat,
        ));
        assert((f2 - 2) as nat >= 1);
        assert(sp_step(a3) == rid2);
        assert(next_output(a3, inp, k2, (f2 - 2) as nat) == next_output(
            rid2,
            inp,
            k2,
            (f2 - 3) as nat,
        ));
        let (b2, t2, j2) = next_output(a1, inp, k2, f2)->Some_0;
        lemma_next_output_mono(rid2, inp, k2, (f2 - 3) as nat, f2);
        assert(next_output(rid2, inp, k2, f2) == Some((b2, t2, j2)));
        assert(nth_output(rid2, inp, k2, (n - 1) as nat, f2) == Some(v));
        let fi = lemma_rid_nth_inv(StreamProcessor::Force(t), b, inp, k2, (n - 1) as nat, f2, v);
        let vr = nth_output(StreamProcessor::Force(t), inp, k2, (n - 1) as nat, fi)->Some_0;
        let f0 = if w.0 <= fi {
            fi
        } else {
            w.0
        };
        lemma_next_output_mono(sp, inp, k, w.0, f0);
        lemma_nth_output_mono(StreamProcessor::Force(t), inp, k2, (n - 1) as nat, fi, f0);
        assert(nth_output(sp, inp, k, n, f0) == Some(vr));
        if (n - 1) as nat == 0 {
            assert(v == b);
            assert(nth_output(sp, inp, k, (n - 1) as nat, f0) == Some(b));
        } else {
            assert(v == nth_output(StreamProcessor::Force(t), inp, k2, (n - 2) as nat, fi)
                ->Some_0);
            lemma_nth_earlier(
                StreamProcessor::Force(t),
                inp,
                k2,
                (n - 2) as nat,
                (n - 1) as nat,
                fi,
            );
            lemma_nth_output_mono(StreamProcessor::Force(t), inp, k2, (n - 2) as nat, fi, f0);
            assert(nth_output(sp, inp, k, (n - 1) as nat, f0) == nth_output(
                StreamProcessor::Force(t),
                inp,
                k2,
                (n - 2) as nat,
                f0,
            ));
        }
        f0
    }
}

/// Until the processor's first write, the trailing identity stage only
/// relays reads: the composite's behaviour from then on is the recurring
/// state's, a fixed amount of fuel later.
proof fn lemma_rid_start(
    sp: StreamProcessor,
    inp: spec_fn(nat) -> Value,
    k: nat,
    f: nat,
    b0: Value,
    t0: Thunk,
    k0: nat,
) -> (fa: nat)
    requires
        next_output(sp, inp, k, f) == Some((b0, t0, k0)),
    ensures
        forall|fb: nat|
            next_output(compose_term(sp, map_term(Fun::Id)), inp, k, (fb + fa) as nat)
                == #[trigger] next_output(
                rid_state(StreamProcessor::Force(t0), b0),
                inp,
                k0,
                fb,
            ),
    decreases f,
{
    let c0 = compose_term(sp, map_term(Fun::Id));
    match sp {
        StreamProcessor::Put(b9, t9) => {
            assert(sp_step(c0) == rid_state(StreamProcessor::Force(t9), b9));
            assert forall|fb: nat|
                next_output(c0, inp, k, (fb + 1) as nat) == #[trigger] next_output(
                    rid_state(StreamProcessor::Force(t0), b0),
                    inp,
                    k0,
                    fb,
                ) by {}
            1
        },
        StreamProcessor::Get(g) => {
            let spg = StreamProcessor::Apply(g, inp(k));
            assert(next_output(sp, inp, k, f) == next_output(spg, inp, (k + 1) as nat, (f
                - 1) as nat));
            let fa9 = lemma_rid_start(spg, inp, (k + 1) as nat, (f - 1) as nat, b0, t0, k0);
            let u1 = StreamProcessor::Get(Cont::Composing(Box::new(g), Box::new(map_term(Fun::Id))));
            let a2 = StreamProcessor::Apply(
                Cont::Composing(Box::new(g), Box::new(map_term(Fun::Id))),
                inp(k),
            );
            assert(sp_step(c0) == u1);
            assert(sp_step(a2) == compose_term(spg, map_term(Fun::Id)));
            assert forall|fb: nat|
                next_output(c0, inp, k, (fb + (fa9 + 3)) as nat) == #[trigger] next_output(
                    rid_state(StreamProcessor::Force(t0), b0),
                    inp,
                    k0,
                    fb,
                ) by {
                assert(next_output(c0, inp, k, (fb + fa9 + 3) as nat) == next_output(
                    u1,
                    inp,
                    k,
                    (fb + fa9 + 2) as nat,
                ));
                assert(next_output(u1, inp, k, (fb + fa9 + 2) as nat) == next_output(
                    a2,
                    inp,
                    (k + 1) as nat,
                    (fb + fa9 + 1) as nat,
                ));
                assert(next_output(a2, inp, (k + 1) as nat, (fb + fa9 + 1) as nat) == next_output(
                    compose_term(spg, map_term(Fun::Id)),
                    inp,
                    (k + 1) as nat,
                    (fb + fa9) as nat,
                ));
            }
            (fa9 + 3) as nat
        },
        _ => {
            assert(next_output(sp, inp, k, f) == next_output(sp_step(sp), inp, k, (f - 1) as nat));
            let fa9 = lemma_rid_start(sp_step(sp), inp, k, (f - 1) as nat, b0, t0, k0);
            assert(sp_step(c0) == compose_term(sp_step(sp), map_term(Fun::Id)));
            assert forall|fb: nat|
                next_output(c0, inp, k, (fb + (fa9 + 1)) as nat) == #[trigger] next_output(
                    rid_state(StreamProcessor::Force(t0), b0),
                    inp,
                    k0,
                    fb,
                ) by {
                assert(next_output(c0, inp, k, (fb + fa9 + 1) as nat) == next_output(
                    compose_term(sp_step(sp), map_term(Fun::Id)),
                    inp,
                    k,
                    (fb + fa9) as nat,
                ));
            }
            (fa9 + 1) as nat
        },
    }
}

/// Whatever write the composite reaches, the processor reached its first
/// write on the way, and the rest of the composite's run happened from the
/// recurring state.
proof fn lemma_rid_start_inv(
    sp: StreamProcessor,
    inp: spec_fn(nat) -> Value,
    k: nat,
    fc: nat,
    u: Value,
    tc: Thunk,
    j: nat,
) -> (r: (nat, Value, Thunk, nat, nat))
    requires
        next_output(compose_term(sp, map_term(Fun::Id)), inp, k, fc) == Some((u, tc, j)),
    ensures
        next_output(sp, inp, k, r.0) == Some((r.1, r.2, r.3)),
        next_output(rid_state(StreamProcessor::Force(r.2), r.1), inp, r.3, r.4) == Some(
            (u, tc, j),
        ),
    decreases fc,
{
    let c0 = compose_term(sp, map_term(Fun::Id));
    assert(fc >= 1);
    match sp {
        StreamProcessor::Put(b9, t9) => {
            assert(sp_step(c0) == rid_state(StreamProcessor::Force(t9), b9));
            assert(next_output(c0, inp, k, fc) == next_output(
                rid_state(StreamProcessor::Force(t9), b9),
                inp,
                k,
                (fc - 1) as nat,
            ));
            assert(next_output(sp, inp, k, 1) == Some((b9, t9, k)));
            (1, b9, t9, k, (fc - 1) as nat)
        },
        StreamProcessor::Get(g) => {
            let spg = StreamProcessor::Apply(g, inp(k));
            let u1 = StreamProcessor::Get(Cont::Composing(Box::new(g), Box::new(map_term(Fun::Id))));
            let a2 = StreamProcessor::Apply(
                Cont::Composing(Box::new(g), Box::new(map_term(Fun::Id))),
                inp(k),
            );
            assert(sp_step(c0) == u1);
            assert(next_output(c0, inp, k, fc) == next_output(u1, inp, k, (fc - 1) as nat));
            assert((fc - 1) as nat >= 1);
            assert(next_output(u1, inp, k, (fc - 1) as nat) == next_output(
                a2,
                inp,
                (k + 1) as nat,
                (fc - 2) as nat,
            ));
            assert((fc - 2) as nat >= 1);
            assert(sp_step(a2) == compose_term(spg, map_term(Fun::Id)));
            assert(next_output(a2, inp, (k + 1) as nat, (fc - 2) as nat) == next_output(
                compose_term(spg, map_term(Fun::Id)),
                inp,
                (k + 1) as nat,
                (fc - 3) as nat,
            ));
            let r9 = lemma_rid_start_inv(spg, inp, (k + 1) as nat, (fc - 3) as nat, u, tc, j);
            assert(next_output(sp, inp, k, (r9.0 + 1) as nat) == next_output(
                spg,
                inp,
                (k + 1) as nat,
                r9.0,
            ));
            ((r9.0 + 1) as nat, r9.1, r9.2, r9.3, r9.4)
        },
        _ => {
            assert(sp_step(c0) == compose_term(sp_step(sp), map_term(Fun::Id)));
            assert(next_output(c0, inp, k, fc) == next_output(
                compose_term(sp_step(sp), map_term(Fun::Id)),
                inp,
                k,
                (fc - 1) as nat,
            ));
            let r9 = lemma_rid_start_inv(sp_step(sp), inp, k, (fc - 1) as nat, u, tc, j);
            assert(next_output(sp, inp, k, (r9.0 + 1) as nat) == next_output(
                sp_step(sp),
                inp,
                k,
                r9.0,
            ));
            ((r9.0 + 1) as nat, r9.1, r9.2, r9.3, r9.4)
        },
    }
}

/// The processor writes an `n`-th element at all on the given input.
pub open spec fn writes_nth(sp: StreamProcessor, inp: spec_fn(nat) -> Value, n: nat) -> bool {
    exists|w: Value| #[trigger] produces(sp, inp, n, w)
}

/// The identity transform after any processor at all: the composite writes
/// exactly the processor's elements, each one held back until the
/// processor's next write — so its `n`-th element is the processor's `n`-th,
/// written exactly when the processor also reaches an `n + 1`-st. The
/// holding back is how sequential composition reads: while the first side is
/// a read, the composite is one, even over a pending write of the second.
pub proof fn lemma_compose_identity_right_general(
    sp: StreamProcessor,
    inp: spec_fn(nat) -> Value,
    n: nat,
    v: Value,
)
    ensures
        produces(compose_term(sp, map_term(Fun::Id)), inp, n, v) <==> (produces(sp, inp, n, v)
            && writes_nth(sp, inp, (n + 1) as nat)),
{
    let c0 = compose_term(sp, map_term(Fun::Id));
    if produces(sp, inp, n, v) && writes_nth(sp, inp, (n + 1) as nat) {
        let w = choose|w: Value| #[trigger] produces(sp, inp, (n + 1) as nat, w);
        let n1 = (n + 1) as nat;
        let fa = choose|f: nat| nth_output(sp, inp, 0, n, f) == Some(v);
        let fb = choose|f: nat| nth_output(sp, inp, 0, n1, f) == Some(w);
        let f0 = if fa <= fb {
            fb
        } else {
            fa
        };
        lemma_nth_output_mono(sp, inp, 0, n, fa, f0);
        lemma_nth_output_mono(sp, inp, 0, (n + 1) as nat, fb, f0);
        let (b0, t0, k0) = next_output(sp, inp, 0, f0)->Some_0;
        assert(nth_output(StreamProcessor::Force(t0), inp, k0, n, f0) == Some(w));
        lemma_rid_nth(StreamProcessor::Force(t0), b0, inp, k0, n, f0, w);
        let goal = if n == 0 {
            b0
        } else {
            nth_output(StreamProcessor::Force(t0), inp, k0, (n - 1) as nat, f0)->Some_0
        };
        let fr = choose|f2: nat|
            #[trigger] nth_output(rid_state(StreamProcessor::Force(t0), b0), inp, k0, n, f2)
                == Some(goal);
        assert(goal == v);
        let fs = lemma_rid_start(sp, inp, 0, f0, b0, t0, k0);
        let (u1, tc1, j1) = next_output(rid_state(StreamProcessor::Force(t0), b0), inp, k0, fr)
            ->Some_0;
        assert(next_output(c0, inp, 0, (fr + fs) as nat) == Some((u1, tc1, j1)));
        if n > 0 {
            assert(nth_output(StreamProcessor::Force(tc1), inp, j1, (n - 1) as nat, fr) == Some(
                v,
            ));
            lemma_nth_output_mono(
                StreamProcessor::Force(tc1),
                inp,
                j1,
                (n - 1) as nat,
                fr,
                (fr + fs) as nat,
            );
        }
        assert(nth_output(c0, inp, 0, n, (fr + fs) as nat) == Some(v));
        assert(produces(c0, inp, n, v));
    }
    if produces(c0, inp, n, v) {
        let fc = choose|f: nat| nth_output(c0, inp, 0, n, f) == Some(v);
        let (u, tc, j) = next_output(c0, inp, 0, fc)->Some_0;
        let r = lemma_rid_start_inv(sp, inp, 0, fc, u, tc, j);
        let rid1 = rid_state(StreamProcessor::Force(r.2), r.1);
        let f1 = if r.4 <= fc {
            fc
        } else {
            r.4
        };
        lemma_next_output_mono(rid1, inp, r.3, r.4, f1);
        if n > 0 {
            assert(nth_output(StreamProcessor::Force(tc), inp, j, (n - 1) as nat, fc) == Some(v));
            lemma_nth_output_mono(StreamProcessor::Force(tc), inp, j, (n - 1) as nat, fc, f1);
        }
        assert(nth_output(rid1, inp, r.3, n, f1) == Some(v));
        let fi = lemma_rid_nth_inv(StreamProcessor::Force(r.2), r.1, inp, r.3, n, f1, v);
        let f2 = if r.0 <= fi {
            fi
        } else {
            r.0
        };
        lemma_next_output_mono(sp, inp, 0, r.0, f2);
        if n == 0 {
            assert(nth_output(sp, inp, 0, 0, f2) == Some(v));
        } else {
            lemma_nth_earlier(
                StreamProcessor::Force(r.2),
                inp,
                r.3,
                (n - 1) as nat,
                n,
                fi,
            );
            lemma_nth_output_mono(StreamProcessor::Force(r.2), inp, r.3, (n - 1) as nat, fi, f2);
            assert(nth_output(sp, inp, 0, n, f2) == nth_output(
                StreamProcessor::Force(r.2),
                inp,
                r.3,
                (n - 1) as nat,
                f2,
            ));
            assert(nth_output(sp, inp, 0, n, f2) == Some(v));
        }
        assert(produces(sp, inp, n, v));
        let w2 = nth_output(StreamProcessor::Force(r.2), inp, r.3, n, fi)->Some_0;
        lemma_nth_output_mono(StreamProcessor::Force(r.2), inp, r.3, n, fi, f2);
        assert(nth_output(sp, inp, 0, (n + 1) as nat, f2) == Some(w2));
        assert(produces(sp, inp, (n + 1) as nat, w2));
        assert(writes_nth(sp, inp, (n + 1) as nat));
    }
}

/// A processor whose `n`-th output the machine reaches writes that element
/// and no other as its `n`-th output.
pub proof fn lemma_produces_exactly(
    sp: StreamProcessor,
    inp: spec_fn(nat) -> Value,
    n: nat,
    w: Value,
)
    requires
        exists|fuel: nat| nth_output(sp, inp, 0, n, fuel) == Some(w),
    ensures
        forall|v: Value| produces(sp, inp, n, v) <==> v == w,
{
    let fuel0 = choose|fuel: nat| nth_output(sp, inp, 0, n, fuel) == Some(w);
    assert(produces(sp, inp, n, w));
    assert forall|v: Value| produces(sp, inp, n, v) implies v == w by {
        let fuel1 = choose|fuel: nat| nth_output(sp, inp, 0, n, fuel) == Some(v);
        if fuel1 <= fuel0 {
            lemma_nth_output_mono(sp, inp, 0, n, fuel1, fuel0);
        } else {
            lemma_nth_output_mono(sp, inp, 0, n, fuel0, fuel1);
        }
    }
}

} // verus!
