use rspl::combinators;
use rspl::programs::Expr;
use rspl::programs::Prog;
use rspl::streams::overeager_receivers::OvereagerReceiver;
use rspl::streams::Stream;
use rspl::values::Fun;
use rspl::values::Value;
use rspl::Cont;
use rspl::StreamProcessor;

fn ignore_and_become(sp: StreamProcessor) -> Cont {
    Cont::Running(Box::new(Prog::Become(Box::new(sp))))
}

#[test]
fn test_get() {
    assert!(matches!(
        StreamProcessor::get(ignore_and_become(combinators::map(Fun::Id))),
        StreamProcessor::Get(_)
    ));
}

#[test]
fn test_put() {
    assert!(matches!(
        StreamProcessor::put(Value::Unit, combinators::map(Fun::Id)),
        StreamProcessor::Put(_, _)
    ));
}

#[test]
fn test_eval() {
    // Write the first element through, then read two elements and write them
    // back largest first, then keep copying.
    let sort_two = Prog::Read(Box::new(Prog::Read(Box::new(Prog::IfLess(
        Expr::Var(1),
        Expr::Var(0),
        Box::new(Prog::Write(
            Expr::Var(0),
            Box::new(Prog::Write(
                Expr::Var(1),
                Box::new(Prog::Become(Box::new(combinators::map(Fun::Id)))),
            )),
        )),
        Box::new(Prog::Write(
            Expr::Var(1),
            Box::new(Prog::Write(
                Expr::Var(0),
                Box::new(Prog::Become(Box::new(combinators::map(Fun::Id)))),
            )),
        )),
    )))));
    let sp = StreamProcessor::get(Cont::Running(Box::new(Prog::Write(
        Expr::Var(0),
        Box::new(sort_two),
    ))));

    let (tx, stream) = OvereagerReceiver::channel(0, Value::Int(0));
    tx.send(Value::Int(1)).unwrap();
    tx.send(Value::Int(2)).unwrap();

    let result = sp.eval(stream);
    assert_eq!(*result.head(), Value::Int(0));
    let result = result.tail();
    assert_eq!(*result.head(), Value::Int(2));
    let result = result.tail();
    assert_eq!(*result.head(), Value::Int(1));
}

#[test]
fn test_eval_program_literal() {
    // A program writing a literal before consulting the input at all.
    let sp = StreamProcessor::get(Cont::Running(Box::new(Prog::Write(
        Expr::Lit(Value::Int(42)),
        Box::new(Prog::Become(Box::new(combinators::map(Fun::Id)))),
    ))));
    let (tx, stream) = OvereagerReceiver::channel(0, Value::Int(7));
    tx.send(Value::Int(9)).unwrap();
    let result = sp.eval(stream);
    assert_eq!(*result.head(), Value::Int(42));
    let result = result.tail();
    assert_eq!(*result.head(), Value::Int(9));
}
