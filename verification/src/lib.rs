//! A small calculus of stream processors: programs that turn one
//! potentially infinite sequence of values into another, where the
//! transformation logic is an explicit, inspectable data structure.
//!
//! A [`StreamProcessor`] either *reads* the next input element and decides
//! how to continue ([`StreamProcessor::Get`]) or *writes* one output element
//! and suspends the rest of the computation ([`StreamProcessor::Put`]).
//! Combinator forms ([`StreamProcessor::Compose`] and friends, built with the
//! functions of the [`combinators`] module) stand for unboundedly deep
//! read/write behaviour while staying finite terms: the machine in
//! [`semantics`] unfolds them one head step at a time, so a processor can
//! describe infinitely many future steps without infinite eager construction.
//!
//! Evaluation ([`StreamProcessor::eval`]) is demand-driven: it drives the
//! machine just far enough to expose the next written element, pulling input
//! only when the machine reaches a read step. The driving loop is an explicit
//! iteration, not per-step recursion, so an unbounded run of consecutive
//! reads (a filter rejecting many elements in a row) consumes no call stack.
//!
//! Continuations are one-shot: the machine moves them into each step, so the
//! type system rules out invoking one twice.

use vstd::prelude::*;

pub mod combinators;
pub mod programs;
pub mod semantics;
pub mod streams;
pub mod values;

use programs::Prog;
use semantics::advance_fuel;
use semantics::lemma_advance_more;
use semantics::lemma_advance_read;
use semantics::sp_step;
use semantics::step;
use streams::drawn_from;
use streams::Stream;
use values::Pred;
use values::Value;

verus! {

/// A stream processor: a term describing how to turn a stream of input
/// [`Value`]s into a stream of output [`Value`]s.
///
/// [`StreamProcessor::Get`] and [`StreamProcessor::Put`] are the two head
/// shapes the evaluator acts on; the remaining variants are combinator and
/// administrative forms that the machine in [`semantics`] rewrites towards a
/// head shape.
pub enum StreamProcessor {
    /// Read the next input element, then continue as the continuation
    /// applied to it decides.
    Get(Cont),
    /// Write one output element; the rest of the computation stays suspended
    /// until the next output is demanded.
    Put(Value, Thunk),
    /// Sequential composition: feed every element written by the first
    /// processor to the second, without materializing the middle stream.
    Compose(Box<StreamProcessor>, Box<StreamProcessor>),
    /// Interleaving: the first processor is in control until it writes; then
    /// the two trade places.
    Alternate(Box<StreamProcessor>, Box<StreamProcessor>),
    /// Run the first processor until its first write, then discard it and
    /// continue as the family applied to the written element. The family
    /// replaces the first processor's own continuation on purpose.
    Bind(Box<StreamProcessor>, Fam),
    /// Administrative form: a continuation together with the element it was
    /// handed; one machine step resolves it.
    Apply(Cont, Value),
    /// Administrative form: a suspended computation being forced; one
    /// machine step resolves it.
    Force(Thunk),
}

/// A one-shot continuation awaiting one input element.
pub enum Cont {
    /// Transform the element and write the result, then map again.
    Mapping(values::Fun),
    /// Write the element if it satisfies the predicate, then filter again
    /// either way.
    Filtering(values::Pred),
    /// Hand the element to a suspended user program.
    Running(Box<Prog>),
    /// A continuation of the left side of a composition; the right side is
    /// carried along.
    Composing(Box<Cont>, Box<StreamProcessor>),
    /// A continuation of the controlling side of an interleaving; the
    /// waiting side is carried along.
    Alternating(Box<Cont>, Box<StreamProcessor>),
    /// A continuation of the probed processor of a bind; the family is
    /// carried along.
    Binding(Box<Cont>, Fam),
}

/// A suspended rest of a computation, forced at most once.
pub enum Thunk {
    /// An already known processor.
    Ready(Box<StreamProcessor>),
    /// Keep mapping with the same transform.
    MapAgain(values::Fun),
    /// Keep filtering with the same predicate.
    FilterAgain(values::Pred),
    /// After an interleaving wrote, resume with the waiting side in control
    /// and the former controller suspended.
    SwapIn(Box<StreamProcessor>, Box<Thunk>),
    /// After a composition wrote the right side's element: the left side's
    /// pending write and both suspended continuations.
    HoldPut(Value, Box<Thunk>, Box<Thunk>),
    /// Resume a suspended user program.
    RunAgain(Box<Prog>),
}

/// A family of processors indexed by a value, used by
/// [`combinators::bind`]: the element written by the probed processor picks
/// the processor that replaces the whole computation.
pub enum Fam {
    /// Every element picks the same processor.
    Stay(Box<StreamProcessor>),
    /// A true element picks the first processor, any other element the
    /// second.
    Branch(Box<StreamProcessor>, Box<StreamProcessor>),
}

/// What a family yields for a written element.
pub open spec fn fam_value(m: Fam, v: Value) -> StreamProcessor {
    match m {
        Fam::Stay(sp) => *sp,
        Fam::Branch(sp1, sp2) => if v == Value::Bool(true) {
            *sp1
        } else {
            *sp2
        },
    }
}

impl Fam {
    /// Pick the processor the written element selects.
    pub fn select(self, v: Value) -> (r: StreamProcessor)
        ensures
            r == fam_value(self, v),
    {
        match self {
            Fam::Stay(sp) => *sp,
            Fam::Branch(sp1, sp2) => if v == Value::Bool(true) {
                *sp1
            } else {
                *sp2
            },
        }
    }
}

impl StreamProcessor {
    /// Build a reading processor from a continuation.
    pub fn get(c: Cont) -> (r: Self)
        ensures
            r == StreamProcessor::Get(c),
    {
        StreamProcessor::Get(c)
    }

    /// Build a writing processor from an element and the processor to
    /// continue with. The continuation stays suspended until the evaluator
    /// needs it.
    pub fn put(b: Value, sp: Self) -> (r: Self)
        ensures
            r == (StreamProcessor::Put(b, Thunk::Ready(Box::new(sp)))),
    {
        StreamProcessor::Put(b, Thunk::Ready(Box::new(sp)))
    }

    /// Evaluate the processor on an input stream, producing the stream of
    /// its output elements.
    ///
    /// The result exposes the first written element at once and computes
    /// each further element only when demanded, pulling input only when the
    /// machine reaches a read. The contract ties the exposed element to the
    /// machine in [`semantics`]: running `self` while feeding it exactly the
    /// input elements recorded in the result's trace reaches that write.
    ///
    /// Each demand for an output element is given a step budget as large as
    /// the address space, so the machine's progress is provable; a processor
    /// that exhausted it would yield a dead evaluation rather than an output.
    /// Advancing the input stream may block, as the stream contract allows.
    pub fn eval<S: Stream<Value>>(self, stream: S) -> (r: Evaluation<S>)
        ensures
            r.source() == self,
            drawn_from(stream, false, r.reads(), r.fed(), r.remaining()),
            r.alive() ==> run_reaches(self, r.fed(), r.out(), r.pend()),
            !r.alive() ==> no_write_in_budget(self, r.fed()),
    {
        drive(self, stream, false)
    }
}

/// The machine, started from `src` and fed exactly the elements of `fed` at
/// its reads, reaches — with some amount of fuel — the write of `cur` with
/// `pending` suspended and every fed element consumed.
pub open spec fn run_reaches(
    src: StreamProcessor,
    fed: Seq<Value>,
    cur: Value,
    pending: Thunk,
) -> bool {
    exists|fuel: nat|
        advance_fuel(src, fed, fuel) == (
            (StreamProcessor::Put(cur, pending), Seq::<Value>::empty())
        )
}

/// The machine, started from `sp` and fed the elements of `fed` — and
/// anything at all beyond them — reaches no write within the evaluator's
/// step budget. This is the one way an evaluation is dead: not for want of
/// input, since every extension of the drawn trace is quantified over, but
/// because the full budget of rewrites found nothing to write.
pub open spec fn no_write_in_budget(sp: StreamProcessor, fed: Seq<Value>) -> bool {
    forall|ins: Seq<Value>, fuel: nat|
        fed.is_prefix_of(ins) && fuel < usize::MAX as nat ==> !((#[trigger] advance_fuel(
            sp,
            ins,
            fuel,
        )).0 is Put)
}

/// The output stream of an evaluation: the element written most recently,
/// the suspended rest of the processor, and the input stream positioned
/// where the machine left it.
///
/// The ghost trace records the processor the current segment started from
/// and the input elements the machine consumed since; the type invariant
/// ties the exposed element to a machine run over that trace.
pub struct Evaluation<S> {
    cur: Value,
    pending: Thunk,
    stream: S,
    live: bool,
    src: Ghost<StreamProcessor>,
    fed: Ghost<Seq<Value>>,
    reads: Ghost<Seq<S>>,
}

impl<S> Evaluation<S> {
    /// The element this evaluation currently exposes.
    pub closed spec fn out(&self) -> Value {
        self.cur
    }

    /// The suspended rest of the processor.
    pub closed spec fn pend(&self) -> Thunk {
        self.pending
    }

    /// Whether the evaluation reached a write within its step budget. A dead
    /// evaluation exposes the unit element and never advances again.
    pub closed spec fn alive(&self) -> bool {
        self.live
    }

    /// The processor term this segment of the evaluation started from.
    pub closed spec fn source(&self) -> StreamProcessor {
        self.src@
    }

    /// The input elements the machine consumed during this segment, in the
    /// order its reads received them.
    pub closed spec fn fed(&self) -> Seq<Value> {
        self.fed@
    }

    /// The input stream's state at each read of this segment, in order.
    pub closed spec fn reads(&self) -> Seq<S> {
        self.reads@
    }

    /// The input stream as the machine left it.
    pub closed spec fn remaining(&self) -> S {
        self.stream
    }

    #[verifier::type_invariant]
    spec fn wf(self) -> bool {
        self.live ==> run_reaches(self.src@, self.fed@, self.cur, self.pending)
    }
}

/// Drive the machine until it exposes its next write, reading input at each
/// read step: the first read of a fresh evaluation takes the input's current
/// element, and every read after one — or after any write — first advances
/// the input, so input is advanced only for a read that needs it, never
/// merely because output was produced.
#[verifier::loop_isolation(false)]
fn drive<S: Stream<Value>>(sp: StreamProcessor, stream: S, consumed: bool) -> (r: Evaluation<S>)
    ensures
        r.source() == sp,
        drawn_from(stream, consumed, r.reads(), r.fed(), r.remaining()),
        r.alive() ==> run_reaches(sp, r.fed(), r.out(), r.pend()),
        !r.alive() ==> no_write_in_budget(sp, r.fed()),
{
    let ghost src = sp;
    let ghost s0 = stream;
    let ghost c0 = consumed;
    let mut cur = sp;
    let mut stream = stream;
    let mut consumed = consumed;
    let ghost mut fed = Seq::<Value>::empty();
    let ghost mut reads = Seq::<S>::empty();
    let ghost mut ops: nat = 0;
    let mut n: usize = usize::MAX;
    proof {
        assert forall|ins: Seq<Value>| fed.is_prefix_of(ins) implies #[trigger] advance_fuel(
            src,
            ins,
            ops,
        ) == ((cur, ins.skip(fed.len() as int))) by {
            assert(ins.skip(0) =~= ins);
        }
    }
    while n != 0
        invariant
            ops + n == usize::MAX as nat,
            forall|ins: Seq<Value>|
                fed.is_prefix_of(ins) ==> #[trigger] advance_fuel(src, ins, ops) == (
                    (cur, ins.skip(fed.len() as int))
                ),
            forall|ins: Seq<Value>, f: nat|
                fed.is_prefix_of(ins) && f < ops ==> !((#[trigger] advance_fuel(
                    src,
                    ins,
                    f,
                )).0 is Put),
            drawn_from(s0, c0, reads, fed, stream),
            consumed == if reads.len() == 0 {
                c0
            } else {
                true
            },
        decreases n,
    {
        n = n - 1;
        match cur {
            StreamProcessor::Put(b, t) => {
                proof {
                    assert(fed.is_prefix_of(fed)) by {
                        assert(fed =~= fed.subrange(0, fed.len() as int));
                    }
                    assert(fed.skip(fed.len() as int) =~= Seq::<Value>::empty());
                    assert(advance_fuel(src, fed, ops) == (
                        (StreamProcessor::Put(b, t), Seq::<Value>::empty())
                    ));
                    assert(run_reaches(src, fed, b, t));
                }
                return Evaluation {
                    cur: b,
                    pending: t,
                    stream,
                    live: true,
                    src: Ghost(src),
                    fed: Ghost(fed),
                    reads: Ghost(reads),
                };
            },
            StreamProcessor::Get(c) => {
                if consumed {
                    stream = stream.tail();
                }
                consumed = true;
                let v = *stream.head();
                proof {
                    let fed2 = fed.push(v);
                    assert forall|ins: Seq<Value>| fed2.is_prefix_of(ins)
                        implies #[trigger] advance_fuel(src, ins, (ops + 1) as nat) == (
                        (StreamProcessor::Apply(c, v), ins.skip(fed2.len() as int))
                    ) by {
                        assert forall|i: int| 0 <= i < fed.len() implies fed[i] == ins[i] by {
                            assert(fed2[i] == ins.subrange(0, fed2.len() as int)[i]);
                        }
                        assert(fed =~= ins.subrange(0, fed.len() as int));
                        assert(fed.is_prefix_of(ins));
                        let rest = ins.skip(fed.len() as int);
                        assert(rest.len() > 0);
                        assert(fed2[fed.len() as int] == (ins.subrange(
                            0,
                            fed2.len() as int,
                        ))[fed.len() as int]);
                        assert(rest[0] == v);
                        lemma_advance_read(src, ins, ops, c);
                        assert(rest.drop_first() =~= ins.skip(fed2.len() as int));
                    }
                    assert forall|ins: Seq<Value>, f: nat|
                        fed2.is_prefix_of(ins) && f < ops + 1 implies !((#[trigger] advance_fuel(
                        src,
                        ins,
                        f,
                    )).0 is Put) by {
                        assert forall|i: int| 0 <= i < fed.len() implies fed[i] == ins[i] by {
                            assert(fed2[i] == ins.subrange(0, fed2.len() as int)[i]);
                        }
                        assert(fed =~= ins.subrange(0, fed.len() as int));
                        assert(fed.is_prefix_of(ins));
                        if f == ops {
                            assert(advance_fuel(src, ins, f).0 == StreamProcessor::Get(c));
                        }
                    }
                    let old_reads = reads;
                    let old_fed = fed;
                    fed = fed2;
                    reads = reads.push(stream);
                    ops = ops + 1;
                    assert forall|i: int| 0 <= i < reads.len() implies fed[i] == (
                    #[trigger] reads[i]).current() by {
                        if i < old_reads.len() {
                            assert(fed[i] == old_fed[i] && reads[i] == old_reads[i]);
                        }
                    }
                    assert forall|i: int| #![trigger reads[i]] 1 <= i < reads.len() implies (
                    reads[i - 1]).advances_to(&reads[i]) by {
                        if i < old_reads.len() {
                            assert(reads[i] == old_reads[i] && reads[i - 1] == old_reads[i - 1]);
                        }
                    }
                }
                cur = StreamProcessor::Apply(c, v);
            },
            other => {
                proof {
                    assert forall|ins: Seq<Value>| fed.is_prefix_of(ins)
                        implies #[trigger] advance_fuel(src, ins, (ops + 1) as nat) == (
                        (sp_step(other), ins.skip(fed.len() as int))
                    ) by {
                        lemma_advance_more(src, ins, ops);
                    }
                    assert forall|ins: Seq<Value>, f: nat|
                        fed.is_prefix_of(ins) && f < ops + 1 implies !((#[trigger] advance_fuel(
                        src,
                        ins,
                        f,
                    )).0 is Put) by {
                        if f == ops {
                            assert(advance_fuel(src, ins, f).0 == other);
                        }
                    }
                    ops = ops + 1;
                }
                cur = step(other);
            },
        }
    }
    proof {
        assert(no_write_in_budget(src, fed));
    }
    Evaluation {
        cur: Value::Unit,
        pending: Thunk::FilterAgain(Pred::Always),
        stream,
        live: false,
        src: Ghost(src),
        fed: Ghost(fed),
        reads: Ghost(reads),
    }
}

/// No evaluation of a processor already at a write is ever dead: one unit of
/// fuel reaches the write, whatever was drawn.
pub proof fn lemma_write_head_reachable(b: Value, t: Thunk, fed: Seq<Value>)
    ensures
        !no_write_in_budget(StreamProcessor::Put(b, t), fed),
{
    assert(fed.is_prefix_of(fed)) by {
        assert(fed =~= fed.subrange(0, fed.len() as int));
    }
    assert(advance_fuel(StreamProcessor::Put(b, t), fed, 1).0 is Put);
}

/// The evaluation of a processor already at a write, in full: what the
/// evaluator's contract yields for it. It is live, exposes exactly that
/// written element, suspends exactly that rest, and consumes nothing from
/// the input stream — output is produced without advancing input.
pub proof fn lemma_eval_write_headed<S: Stream<Value>>(
    b: Value,
    t: Thunk,
    stream: S,
    r: &Evaluation<S>,
)
    requires
        r.source() == StreamProcessor::Put(b, t),
        drawn_from(stream, false, r.reads(), r.fed(), r.remaining()),
        r.alive() ==> run_reaches(r.source(), r.fed(), r.out(), r.pend()),
        !r.alive() ==> no_write_in_budget(r.source(), r.fed()),
    ensures
        r.alive(),
        r.out() == b,
        r.pend() == t,
        r.fed() == Seq::<Value>::empty(),
        r.remaining() == stream,
{
    lemma_write_head_reachable(b, t, r.fed());
    lemma_write_head_run(b, t, r.fed(), r.out(), r.pend());
}

/// The only run a processor already at a write admits: the write itself is
/// exposed and not one input element is consumed. Together with
/// [`lemma_write_head_reachable`] and the evaluator's contract, this pins the
/// evaluation of a write-headed processor completely: it is live, exposes
/// that element, suspends that rest, and leaves the input stream untouched.
pub proof fn lemma_write_head_run(b: Value, t: Thunk, fed: Seq<Value>, out: Value, pend: Thunk)
    requires
        run_reaches(StreamProcessor::Put(b, t), fed, out, pend),
    ensures
        out == b,
        pend == t,
        fed == Seq::<Value>::empty(),
{
    let fuel = choose|fuel: nat|
        advance_fuel(StreamProcessor::Put(b, t), fed, fuel) == (
            (StreamProcessor::Put(out, pend), Seq::<Value>::empty())
        );
    assert(advance_fuel(StreamProcessor::Put(b, t), fed, fuel) == (
        (StreamProcessor::Put(b, t), fed)
    ));
}

impl<S: Stream<Value>> Stream<Value> for Evaluation<S> {
    open spec fn current(&self) -> Value {
        self.out()
    }

    /// A live evaluation advances by forcing its suspended rest and driving
    /// the machine to the next write, drawing further input elements from
    /// where the input stream stood: the new segment's trace is drawn from
    /// the remaining input, a live result is the machine's write over that
    /// trace, and a dead one means the budget found no write however the
    /// trace were extended. A dead evaluation stays as it is.
    open spec fn advances_to(&self, next: &Self) -> bool {
        if self.alive() {
            &&& next.source() == StreamProcessor::Force(self.pend())
            &&& drawn_from(self.remaining(), true, next.reads(), next.fed(), next.remaining())
            &&& next.alive() ==> run_reaches(next.source(), next.fed(), next.out(), next.pend())
            &&& !next.alive() ==> no_write_in_budget(next.source(), next.fed())
        } else {
            *next == *self
        }
    }

    fn head(&self) -> (r: &Value) {
        &self.cur
    }

    fn tail(self) -> (r: Self) {
        if !self.live {
            return self;
        }
        let Evaluation {
            cur: _cur,
            pending,
            stream,
            live: _live,
            src: _src,
            fed: _fed,
            reads: _reads,
        } = self;
        drive(StreamProcessor::Force(pending), stream, true)
    }
}

} // verus!
