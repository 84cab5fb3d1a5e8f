use rspl::streams::infinite_lists::InfiniteList;
use rspl::streams::overeager_receivers::OvereagerReceiver;
use rspl::streams::Stream;

#[test]
fn test_cons() {
    assert!(matches!(
        InfiniteList::cons((), InfiniteList::constant(())),
        InfiniteList::Cons(_, _)
    ));
}

#[test]
fn test_constant() {
    let x: bool = true;

    let mut xs = InfiniteList::constant(x);
    assert_eq!(*xs.head(), x);
    for expected in [x, x] {
        xs = xs.tail();
        assert_eq!(*xs.head(), expected);
    }
}

#[test]
fn infinite_lists_test_head() {
    let inflist = InfiniteList::cons(true, InfiniteList::constant(false));
    assert!(*inflist.head());
}

#[test]
fn infinite_lists_test_tail() {
    let inflist = InfiniteList::cons(
        false,
        InfiniteList::cons(true, InfiniteList::constant(true)),
    );
    assert!(*inflist.tail().head());
}

#[test]
fn test_overeager_channel() {
    let (tx, mut stream) = OvereagerReceiver::channel(1, false);
    tx.send(true).unwrap();
    assert_eq!(*stream.head(), false);
    for expected in [true] {
        stream = stream.tail();
        assert_eq!(*stream.head(), expected);
    }
}

#[test]
fn overeager_receivers_test_head() {
    let (_tx, stream) = OvereagerReceiver::channel(0, true);
    assert!(*stream.head());
}

#[test]
fn overeager_receivers_test_tail() {
    let (tx, stream) = OvereagerReceiver::channel(0, false);
    tx.send(true).unwrap();
    assert!(*stream.tail().head());
}
