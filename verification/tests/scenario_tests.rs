use rspl::combinators;
use rspl::combinators::bind;
use rspl::combinators::compose;
use rspl::combinators::filter;
use rspl::streams::infinite_lists::InfiniteList;
use rspl::streams::overeager_receivers::OvereagerReceiver;
use rspl::streams::Stream;
use rspl::values::Fun;
use rspl::values::Pred;
use rspl::values::Value;
use rspl::Fam;
use rspl::StreamProcessor;

fn heads<S: Stream<Value>>(stream: S, n: usize) -> (Vec<Value>, S) {
    let mut out = Vec::new();
    let mut stream = stream;
    for i in 0..n {
        if i > 0 {
            stream = stream.tail();
        }
        out.push(*stream.head());
    }
    (out, stream)
}

fn ints(ns: &[i64]) -> Vec<Value> {
    let mut out = Vec::new();
    for n in ns {
        out.push(Value::Int(*n));
    }
    out
}

/// A filter rejecting one hundred thousand elements in a row completes
/// without exhausting the call stack: the read-chasing part of evaluation is
/// an explicit loop, not per-element recursion.
#[test]
fn test_stack_safety() {
    let (tx, stream) = OvereagerReceiver::channel(0, Value::Int(0));
    for _ in 0..100_000 {
        tx.send(Value::Int(0)).unwrap();
    }
    tx.send(Value::Int(1)).unwrap();

    let result = filter(Pred::GreaterThan(0)).eval(stream);
    assert_eq!(*result.head(), Value::Int(1));
}

/// A fresh channel-backed stream exposes its initial placeholder before
/// anything is sent; after one send, advancing exposes the sent element.
#[test]
fn test_channel_initial_then_sent() {
    let (tx, stream) = OvereagerReceiver::channel(0, Value::Int(7));
    assert_eq!(*stream.head(), Value::Int(7));
    tx.send(Value::Int(1)).unwrap();
    let stream = stream.tail();
    assert_eq!(*stream.head(), Value::Int(1));
}

/// Since no element of the input is zero, the bind probes once, picks the
/// positive filter, and the output repeats the input values unchanged. The
/// probe consumes the stream's first element, so the value one is supplied
/// twice.
#[test]
fn test_bind_passthrough() {
    let sp = bind(
        combinators::map(Fun::EqualTo(0)),
        Fam::Branch(
            Box::new(combinators::map(Fun::Plus(2))),
            Box::new(filter(Pred::GreaterThan(0))),
        ),
    );
    let input = InfiniteList::cons(
        Value::Int(1),
        InfiniteList::cons(
            Value::Int(1),
            InfiniteList::cons(
                Value::Int(2),
                InfiniteList::cons(
                    Value::Int(3),
                    InfiniteList::cons(Value::Int(4), InfiniteList::constant(Value::Int(5))),
                ),
            ),
        ),
    );
    let (out, _rest) = heads(sp.eval(input), 5);
    assert_eq!(out, ints(&[1, 2, 3, 4, 5]));
}

/// Composing two increments turns one, two, three into three, four, five.
#[test]
fn test_compose_increments() {
    let sp = compose(combinators::map(Fun::Plus(1)), combinators::map(Fun::Plus(1)));
    let input = InfiniteList::cons(
        Value::Int(1),
        InfiniteList::cons(Value::Int(2), InfiniteList::constant(Value::Int(3))),
    );
    let (out, _rest) = heads(sp.eval(input), 3);
    assert_eq!(out, ints(&[3, 4, 5]));
}

/// Mapping one transform after another equals mapping their composition.
#[test]
fn test_map_fusion_example() {
    let staged = compose(combinators::map(Fun::Plus(1)), combinators::map(Fun::Negate));
    let fused = combinators::map(Fun::Then(Box::new(Fun::Plus(1)), Box::new(Fun::Negate)));
    let input = InfiniteList::cons(
        Value::Int(3),
        InfiniteList::cons(Value::Int(-5), InfiniteList::constant(Value::Int(10))),
    );
    let input_copy = InfiniteList::cons(
        Value::Int(3),
        InfiniteList::cons(Value::Int(-5), InfiniteList::constant(Value::Int(10))),
    );
    let (out_staged, _r1) = heads(staged.eval(input), 4);
    let (out_fused, _r2) = heads(fused.eval(input_copy), 4);
    assert_eq!(out_staged, out_fused);
    assert_eq!(out_staged, ints(&[-4, 4, -11, -11]));
}

/// Both associations of a three-stage composition write the same elements.
#[test]
fn test_compose_associativity_example() {
    fn stages() -> (StreamProcessor, StreamProcessor, StreamProcessor) {
        (
            filter(Pred::GreaterThan(0)),
            combinators::map(Fun::Plus(1)),
            combinators::map(Fun::Negate),
        )
    }
    let (a1, b1, c1) = stages();
    let (a2, b2, c2) = stages();
    let left = compose(compose(a1, b1), c1);
    let right = compose(a2, compose(b2, c2));

    fn input() -> InfiniteList<Value> {
        InfiniteList::cons(
            Value::Int(-1),
            InfiniteList::cons(
                Value::Int(2),
                InfiniteList::cons(Value::Int(-3), InfiniteList::constant(Value::Int(4))),
            ),
        )
    }
    let (out_left, _r1) = heads(left.eval(input()), 4);
    let (out_right, _r2) = heads(right.eval(input()), 4);
    assert_eq!(out_left, out_right);
    assert_eq!(out_left, ints(&[-3, -5, -5, -5]));
}

/// The filter keeps exactly the satisfying elements, in input order.
#[test]
fn test_filter_keeps_order() {
    let sp = filter(Pred::LessThan(3));
    let input = InfiniteList::cons(
        Value::Int(5),
        InfiniteList::cons(
            Value::Int(1),
            InfiniteList::cons(
                Value::Int(7),
                InfiniteList::cons(Value::Int(2), InfiniteList::constant(Value::Int(0))),
            ),
        ),
    );
    let (out, _rest) = heads(sp.eval(input), 3);
    assert_eq!(out, ints(&[1, 2, 0]));
}

/// Composing with the identity stage changes nothing.
#[test]
fn test_map_identity_example() {
    let staged = compose(combinators::map(Fun::Id), combinators::map(Fun::Plus(1)));
    let plain = combinators::map(Fun::Plus(1));
    fn input() -> InfiniteList<Value> {
        InfiniteList::cons(
            Value::Int(1),
            InfiniteList::cons(Value::Int(2), InfiniteList::constant(Value::Int(3))),
        )
    }
    let (out_staged, _r1) = heads(staged.eval(input()), 3);
    let (out_plain, _r2) = heads(plain.eval(input()), 3);
    assert_eq!(out_staged, out_plain);
    assert_eq!(out_plain, ints(&[2, 3, 4]));
}

/// The identity stage after a processor relays its elements unchanged; each
/// element appears once the processor reaches its next write.
#[test]
fn test_map_identity_right_example() {
    let staged = compose(combinators::map(Fun::Plus(1)), combinators::map(Fun::Id));
    let plain = combinators::map(Fun::Plus(1));
    fn input() -> InfiniteList<Value> {
        InfiniteList::cons(
            Value::Int(1),
            InfiniteList::cons(Value::Int(2), InfiniteList::constant(Value::Int(3))),
        )
    }
    let (out_staged, _r1) = heads(staged.eval(input()), 3);
    let (out_plain, _r2) = heads(plain.eval(input()), 3);
    assert_eq!(out_staged, out_plain);
    assert_eq!(out_plain, ints(&[2, 3, 4]));
}
