use reactive_graph::{
    CalcExpr, Observable, ReactiveContext, ReactiveError, Value,
};

fn and_expr() -> CalcExpr {
    CalcExpr::And(Box::new(CalcExpr::Input(0)), Box::new(CalcExpr::Input(1)))
}

fn add_expr() -> CalcExpr {
    CalcExpr::Add(Box::new(CalcExpr::Input(0)), Box::new(CalcExpr::Input(1)))
}

fn add_lit_expr(k: i64) -> CalcExpr {
    CalcExpr::Add(
        Box::new(CalcExpr::Input(0)),
        Box::new(CalcExpr::Lit(Value::Int(k))),
    )
}

#[test]
fn basic() {
    let mut reactor: ReactiveContext<CalcExpr> = ReactiveContext::default();

    // A lock only unlocks when both of its buttons are active.
    let button1 = reactor.signal(Value::Bool(false));
    let button2 = reactor.signal(Value::Bool(false));
    let lock1 = reactor
        .calc(
            vec![button1.reactive_entity(), button2.reactive_entity()],
            and_expr(),
        )
        .unwrap();
    assert!(!reactor.read(lock1).as_bool());

    let button3 = reactor.signal(Value::Bool(false));
    let lock2 = reactor
        .calc(
            vec![button1.reactive_entity(), button3.reactive_entity()],
            and_expr(),
        )
        .unwrap();
    assert!(!reactor.read(lock2).as_bool());

    reactor.send_signal(button1, Value::Bool(true)); // Automatically recomputes lock1 & lock2!
    reactor.send_signal(button2, Value::Bool(true));
    for _ in 0..1000 {
        button1.send(&mut reactor, Value::Bool(true)); // diffing prevents triggering a recompute
    }
    assert!(lock1.read(&reactor).as_bool());

    reactor.send_signal(button3, Value::Bool(true));
    assert!(reactor.read(lock2).as_bool());
}

#[test]
fn nested_derive() {
    let mut reactor: ReactiveContext<CalcExpr> = ReactiveContext::default();

    let n1 = reactor.signal(Value::Int(1));
    let n2 = reactor.signal(Value::Int(10));
    let n3 = reactor.signal(Value::Int(100));

    // The following derives use signals as inputs
    let d1 = reactor
        .calc(vec![n1.reactive_entity(), n2.reactive_entity()], add_expr())
        .unwrap(); // 1 + 10
    let d2 = reactor
        .calc(vec![n3.reactive_entity(), n2.reactive_entity()], add_expr())
        .unwrap(); // 100 + 10

    // This derive uses other derives as inputs
    let d3 = reactor
        .calc(vec![d1.reactive_entity(), d2.reactive_entity()], add_expr())
        .unwrap(); // 11 + 110
    assert_eq!(reactor.read(d3), Value::Int(121));
}

#[test]
fn many_types() {
    // One derivation mixing an integer input and a boolean input: the boolean
    // reads as 1 when true.
    let mut reactor: ReactiveContext<CalcExpr> = ReactiveContext::default();

    let foo = reactor.signal(Value::Int(1));
    let bar = reactor.signal(Value::Bool(true));

    let baz = reactor
        .calc(vec![foo.reactive_entity(), bar.reactive_entity()], add_expr())
        .unwrap();

    assert_eq!(reactor.read(baz), Value::Int(2));

    reactor.send_signal(bar, Value::Bool(false));
    assert_eq!(reactor.read(baz), Value::Int(1));
}

#[test]
fn aliased_input_is_fatal() {
    let mut reactor: ReactiveContext<CalcExpr> = ReactiveContext::default();
    let s = reactor.signal(Value::Int(0));
    let r = reactor.calc(vec![s.reactive_entity(), s.reactive_entity()], add_expr());
    assert_eq!(r, Err(ReactiveError::AliasedInput));
    // the refused node left no trace: the context still works
    let t = reactor.signal(Value::Int(2));
    let d = reactor
        .calc(vec![s.reactive_entity(), t.reactive_entity()], add_expr())
        .unwrap();
    assert_eq!(reactor.read(d), Value::Int(2));
}

#[test]
fn missing_input_is_fatal() {
    let mut other: ReactiveContext<CalcExpr> = ReactiveContext::default();
    let a = other.signal(Value::Int(0));
    let b = other.signal(Value::Int(0));
    let foreign = other
        .calc(vec![a.reactive_entity(), b.reactive_entity()], add_expr())
        .unwrap();

    let mut reactor: ReactiveContext<CalcExpr> = ReactiveContext::default();
    let s = reactor.signal(Value::Int(1));
    let r = reactor.calc(
        vec![s.reactive_entity(), foreign.reactive_entity()],
        add_expr(),
    );
    assert_eq!(r, Err(ReactiveError::MissingInput));
}

#[test]
fn diamond_converges() {
    let mut reactor: ReactiveContext<CalcExpr> = ReactiveContext::default();
    let s = reactor.signal(Value::Int(1));
    let a = reactor
        .calc(vec![s.reactive_entity()], add_lit_expr(1))
        .unwrap(); // s + 1
    let b = reactor
        .calc(vec![s.reactive_entity()], add_lit_expr(2))
        .unwrap(); // s + 2
    let c = reactor
        .calc(vec![a.reactive_entity(), b.reactive_entity()], add_expr())
        .unwrap(); // a + b
    assert_eq!(reactor.read(c), Value::Int(5));

    // One write to the shared source settles the whole diamond: c's final
    // value reflects both updated branches.
    reactor.send_signal(s, Value::Int(10));
    assert_eq!(reactor.read(a), Value::Int(11));
    assert_eq!(reactor.read(b), Value::Int(12));
    assert_eq!(reactor.read(c), Value::Int(23));
}

#[test]
fn identical_write_is_noop() {
    let mut reactor: ReactiveContext<CalcExpr> = ReactiveContext::default();
    let s = reactor.signal(Value::Int(5));
    let d = reactor
        .calc(vec![s.reactive_entity()], add_lit_expr(1))
        .unwrap();
    assert_eq!(reactor.read(d), Value::Int(6));

    // Writing the stored value again is a diffed no-op.
    reactor.send_signal(s, Value::Int(5));
    assert_eq!(reactor.read(s), Value::Int(5));
    assert_eq!(reactor.read(d), Value::Int(6));

    reactor.send_signal(s, Value::Int(7));
    assert_eq!(reactor.read(d), Value::Int(8));
}

#[test]
fn conditional_read_stops_propagation() {
    let mut reactor: ReactiveContext<CalcExpr> = ReactiveContext::default();
    let toggle = reactor.signal(Value::Bool(false));
    let x = reactor.signal(Value::Int(42));
    // d reads x only while the toggle is on, else a constant
    let d = reactor
        .calc(
            vec![toggle.reactive_entity(), x.reactive_entity()],
            CalcExpr::Select(
                Box::new(CalcExpr::Input(0)),
                Box::new(CalcExpr::Input(1)),
                Box::new(CalcExpr::Lit(Value::Int(0))),
            ),
        )
        .unwrap();
    let e = reactor
        .calc(vec![d.reactive_entity()], add_lit_expr(1))
        .unwrap();
    assert_eq!(reactor.read(d), Value::Int(0));
    assert_eq!(reactor.read(e), Value::Int(1));

    // While the toggle is off, writes to x leave d unchanged, so the diff
    // stops the episode there and nothing downstream of d recomputes.
    reactor.send_signal(x, Value::Int(43));
    assert_eq!(reactor.read(d), Value::Int(0));
    assert_eq!(reactor.read(e), Value::Int(1));

    reactor.send_signal(toggle, Value::Bool(true));
    assert_eq!(reactor.read(d), Value::Int(43));
    assert_eq!(reactor.read(e), Value::Int(44));
}

#[test]
fn addition_saturates() {
    let mut reactor: ReactiveContext<CalcExpr> = ReactiveContext::default();
    let a = reactor.signal(Value::Int(i64::MAX));
    let b = reactor.signal(Value::Int(1));
    let d = reactor
        .calc(vec![a.reactive_entity(), b.reactive_entity()], add_expr())
        .unwrap();
    assert_eq!(reactor.read(d), Value::Int(i64::MAX));

    reactor.send_signal(a, Value::Int(i64::MIN));
    reactor.send_signal(b, Value::Int(-1));
    assert_eq!(reactor.read(d), Value::Int(i64::MIN));

    reactor.send_signal(b, Value::Int(3));
    assert_eq!(reactor.read(d), Value::Int(i64::MIN + 3));
}

#[test]
fn expression_operators() {
    let mut reactor: ReactiveContext<CalcExpr> = ReactiveContext::default();
    let t = reactor.signal(Value::Bool(true));
    let f = reactor.signal(Value::Bool(false));

    let not_t = reactor
        .calc(
            vec![t.reactive_entity()],
            CalcExpr::Not(Box::new(CalcExpr::Input(0))),
        )
        .unwrap();
    assert_eq!(reactor.read(not_t), Value::Bool(false));

    let t_or_f = reactor
        .calc(
            vec![t.reactive_entity(), f.reactive_entity()],
            CalcExpr::Or(Box::new(CalcExpr::Input(0)), Box::new(CalcExpr::Input(1))),
        )
        .unwrap();
    assert_eq!(reactor.read(t_or_f), Value::Bool(true));

    // a position past the end of the input list reads as Int(0)
    let out_of_range = reactor
        .calc(vec![t.reactive_entity()], CalcExpr::Input(7))
        .unwrap();
    assert_eq!(reactor.read(out_of_range), Value::Int(0));

    // an integer is true exactly when non-zero
    let n = reactor.signal(Value::Int(3));
    let n_as_bool = reactor
        .calc(
            vec![n.reactive_entity()],
            CalcExpr::Not(Box::new(CalcExpr::Not(Box::new(CalcExpr::Input(0))))),
        )
        .unwrap();
    assert_eq!(reactor.read(n_as_bool), Value::Bool(true));
    reactor.send_signal(n, Value::Int(0));
    assert_eq!(reactor.read(n_as_bool), Value::Bool(false));
}

#[test]
fn long_chain_propagates() {
    // a chain of derived nodes, each depending on the previous one
    let mut reactor: ReactiveContext<CalcExpr> = ReactiveContext::default();
    let s = reactor.signal(Value::Int(0));
    let mut last = s.reactive_entity();
    for _ in 0..100 {
        let d = reactor.calc(vec![last], add_lit_expr(1)).unwrap();
        last = d.reactive_entity();
    }
    reactor.send_signal(s, Value::Int(1));
    let end = reactor.calc(vec![last], add_lit_expr(0)).unwrap();
    assert_eq!(reactor.read(end), Value::Int(101));
}
