use rspl::combinators;
use rspl::combinators::alternate;
use rspl::combinators::bind;
use rspl::combinators::compose;
use rspl::combinators::filter;
use rspl::streams::overeager_receivers::OvereagerReceiver;
use rspl::streams::Stream;
use rspl::values::Fun;
use rspl::values::Pred;
use rspl::values::Value;
use rspl::Fam;

#[test]
fn test_alternate() {
    let sp = alternate(
        filter(Pred::GreaterThan(0)),
        filter(Pred::LessThan(0)),
    );

    let (tx, stream) = OvereagerReceiver::channel(0, Value::Int(0));
    for x in [1, 2, -1, -2, 1] {
        tx.send(Value::Int(x)).unwrap();
    }

    let result = sp.eval(stream);
    assert_eq!(*result.head(), Value::Int(1));
    let result = result.tail();
    assert_eq!(*result.head(), Value::Int(-1));
    let result = result.tail();
    assert_eq!(*result.head(), Value::Int(1));
}

#[test]
fn test_bind() {
    let sp = bind(
        combinators::map(Fun::EqualTo(0)),
        Fam::Branch(
            Box::new(bind(
                combinators::map(Fun::EqualTo(0)),
                Fam::Branch(
                    Box::new(combinators::map(Fun::Plus(2))),
                    Box::new(combinators::map(Fun::Plus(1))),
                ),
            )),
            Box::new(filter(Pred::GreaterThan(0))),
        ),
    );

    let (tx, stream) = OvereagerReceiver::channel(0, Value::Int(0));
    for x in [1, 0, 1, 2] {
        tx.send(Value::Int(x)).unwrap();
    }

    let result = sp.eval(stream);
    assert_eq!(*result.head(), Value::Int(1));
    let result = result.tail();
    assert_eq!(*result.head(), Value::Int(2));
    let result = result.tail();
    assert_eq!(*result.head(), Value::Int(3));
}

#[test]
fn test_compose() {
    let sp = compose(combinators::map(Fun::Plus(1)), combinators::map(Fun::Plus(1)));

    let (tx, stream) = OvereagerReceiver::channel(10, Value::Int(0));
    for x in [1, 2, 10] {
        tx.send(Value::Int(x)).unwrap();
    }

    let result = sp.eval(stream);
    assert_eq!(*result.head(), Value::Int(2));
    let result = result.tail();
    assert_eq!(*result.head(), Value::Int(3));
    let result = result.tail();
    assert_eq!(*result.head(), Value::Int(4));
}

#[test]
fn test_filter() {
    let sp = filter(Pred::GreaterThan(0));

    let (tx, stream) = OvereagerReceiver::channel(0, Value::Int(0));
    for x in [1, 0, 2] {
        tx.send(Value::Int(x)).unwrap();
    }

    let result = sp.eval(stream);
    assert_eq!(*result.head(), Value::Int(1));
    let result = result.tail();
    assert_eq!(*result.head(), Value::Int(2));
}

#[test]
fn test_map() {
    let sp = combinators::map(Fun::Plus(1));

    let (tx, stream) = OvereagerReceiver::channel(10, Value::Int(0));
    tx.send(Value::Int(1)).unwrap();

    let result = sp.eval(stream);
    assert_eq!(*result.head(), Value::Int(1));
    let result = result.tail();
    assert_eq!(*result.head(), Value::Int(2));
}

#[test]
fn test_map_wraps_on_overflow() {
    let sp = combinators::map(Fun::Plus(1));
    let (tx, stream) = OvereagerReceiver::channel(0, Value::Int(i64::MAX));
    tx.send(Value::Int(0)).unwrap();
    let result = sp.eval(stream);
    assert_eq!(*result.head(), Value::Int(i64::MIN));
}

#[test]
fn test_map_leaves_other_shapes() {
    let sp = combinators::map(Fun::Plus(1));
    let (tx, stream) = OvereagerReceiver::channel(0, Value::Bool(true));
    tx.send(Value::Unit).unwrap();
    let result = sp.eval(stream);
    assert_eq!(*result.head(), Value::Bool(true));
    let result = result.tail();
    assert_eq!(*result.head(), Value::Unit);
}

#[test]
fn test_filter_drops_other_shapes() {
    let sp = filter(Pred::GreaterThan(0));
    let (tx, stream) = OvereagerReceiver::channel(0, Value::Bool(true));
    tx.send(Value::Int(5)).unwrap();
    let result = sp.eval(stream);
    assert_eq!(*result.head(), Value::Int(5));
}

#[test]
fn test_negate_and_invert() {
    let sp = combinators::map(Fun::Negate);
    let (tx, stream) = OvereagerReceiver::channel(0, Value::Int(3));
    tx.send(Value::Int(-4)).unwrap();
    let result = sp.eval(stream);
    assert_eq!(*result.head(), Value::Int(-3));
    let result = result.tail();
    assert_eq!(*result.head(), Value::Int(4));

    let sp = combinators::map(Fun::Invert);
    let (tx, stream) = OvereagerReceiver::channel(0, Value::Bool(false));
    tx.send(Value::Bool(true)).unwrap();
    let result = sp.eval(stream);
    assert_eq!(*result.head(), Value::Bool(true));
    let result = result.tail();
    assert_eq!(*result.head(), Value::Bool(false));
}

#[test]
fn test_bind_stay() {
    // A family that ignores the probed element.
    let sp = bind(combinators::map(Fun::Id), Fam::Stay(Box::new(combinators::map(Fun::Plus(10)))));
    let (tx, stream) = OvereagerReceiver::channel(0, Value::Int(9));
    tx.send(Value::Int(1)).unwrap();
    let result = sp.eval(stream);
    assert_eq!(*result.head(), Value::Int(11));
}
