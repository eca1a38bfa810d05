use stark::bridge::{BoundaryError, Bridge, Shape};
use stark::env::{create_frame, insert, link, lookup};
use stark::eval::{EvalError, EvalStack, Opcode, ResumeError, Slot, StartError, Step};
use stark::region::Region;
use stark::symbol::{SymbolTable, S_DEF, S_DO, S_FN, S_IF, S_QUOTE};
use stark::value::{Cfg, Datum, Kind, Value};

struct World {
    region: Region,
    table: SymbolTable,
    bridge: Bridge,
    env: Value,
    add: u32,
}

fn world(bytes: usize) -> World {
    let mut region = Region::acquire(bytes);
    let mut table = SymbolTable::new();
    let mut bridge = Bridge::new();
    let env = create_frame(&mut region, 16).unwrap();
    let two = vec![Shape::typed(Cfg::B8, Kind::I64), Shape::typed(Cfg::B8, Kind::I64)];
    bridge.register(&mut region, &mut table, env, "add", two).unwrap();
    let add = table.find("add").unwrap();
    World { region, table, bridge, env, add }
}

fn num(w: &mut World, n: i64) -> Value {
    w.region.allocate(Datum::I64(n)).unwrap()
}

fn sym(w: &mut World, id: u32) -> Value {
    w.region.allocate(Datum::Symbol(id)).unwrap()
}

fn list(w: &mut World, items: &[Value]) -> Value {
    let mut tail = w.region.allocate(Datum::Nil).unwrap();
    for v in items.iter().rev() {
        tail = w.region.allocate(Datum::Pair(*v, tail)).unwrap();
    }
    tail
}

fn sum(w: &mut World, a: Value, b: Value) -> Value {
    let s = sym(w, w.add);
    list(w, &[s, a, b])
}

fn host_add(region: &mut Region, args: &[Value]) -> Value {
    let mut total: i64 = 0;
    for a in args {
        match region.get(*a) {
            Some(Datum::I64(n)) => total += *n,
            other => panic!("not a number: {:?}", other),
        }
    }
    region.allocate(Datum::I64(total)).unwrap()
}

/// Steps until the stack is empty; returns the number of steps and of native calls.
fn drive(w: &mut World, stack: &mut EvalStack) -> (usize, usize) {
    let mut steps = 0;
    let mut calls = 0;
    while !stack.is_empty() {
        assert!(steps < 10_000);
        steps += 1;
        match stack.step(&mut w.region, &w.bridge) {
            Step::Continue => {}
            Step::Call(p, args) => {
                assert_eq!(p, 0);
                calls += 1;
                let v = host_add(&mut w.region, &args);
                assert_eq!(stack.resume(&w.region, v), Ok(()));
            }
            other => panic!("unexpected {:?}", other),
        }
    }
    (steps, calls)
}

fn eval(w: &mut World, expr: Value) -> (Slot, usize, usize) {
    let mut stack = EvalStack::new(64);
    assert_eq!(stack.start(w.env, expr), Ok(()));
    assert_eq!(stack.result(), Slot::Pending);
    let (steps, calls) = drive(w, &mut stack);
    (stack.result(), steps, calls)
}

fn number(w: &World, s: Slot) -> i64 {
    match s {
        Slot::Done(v) => match w.region.get(v) {
            Some(Datum::I64(n)) => *n,
            other => panic!("not a number: {:?}", other),
        },
        other => panic!("not done: {:?}", other),
    }
}

#[test]
fn a_literal_resolves_after_exactly_one_step() {
    let mut w = world(1 << 16);
    let lits = vec![
        Datum::I64(7),
        Datum::Nil,
        Datum::Bool(false),
        Datum::U32(3),
        Datum::F32(0x4000_0000),
        Datum::Other(0xFEED),
        Datum::VecArr(Kind::U32, vec![1, 2]),
        Datum::Native(0, 2),
    ];
    for d in lits {
        let x = w.region.allocate(d).unwrap();
        let mut stack = EvalStack::new(4);
        stack.start(w.env, x).unwrap();
        assert!(!stack.is_empty());
        assert_eq!(stack.depth(), 1);
        assert!(matches!(stack.step(&mut w.region, &w.bridge), Step::Continue));
        assert!(stack.is_empty());
        assert_eq!(stack.result(), Slot::Done(x));
        assert!(matches!(stack.step(&mut w.region, &w.bridge), Step::Idle));
        assert_eq!(stack.result(), Slot::Done(x));
    }
}

#[test]
fn a_symbol_resolves_through_the_environment_in_one_step() {
    let mut w = world(1 << 16);
    let k = w.table.intern("x").unwrap();
    let v = num(&mut w, 11);
    insert(&mut w.region, w.env, k, v).unwrap();
    let x = sym(&mut w, k);
    assert_eq!(eval(&mut w, x), (Slot::Done(v), 1, 0));
    let inner = create_frame(&mut w.region, 2).unwrap();
    link(&mut w.region, inner, w.env).unwrap();
    let mut stack = EvalStack::new(4);
    stack.start(inner, x).unwrap();
    stack.step(&mut w.region, &w.bridge);
    assert_eq!(stack.result(), Slot::Done(v));
}

#[test]
fn an_unbound_symbol_fails_the_evaluation_and_nothing_else() {
    let mut w = world(1 << 16);
    let k = w.table.intern("nowhere").unwrap();
    let x = sym(&mut w, k);
    let used = w.region.used();
    assert_eq!(eval(&mut w, x), (Slot::Failed(EvalError::Unbound(k)), 1, 0));
    assert_eq!(w.region.used(), used);
    let two = num(&mut w, 2);
    let e = sum(&mut w, x, two);
    let (slot, steps, calls) = eval(&mut w, e);
    assert_eq!(slot, Slot::Failed(EvalError::Unbound(k)));
    assert_eq!((steps, calls), (3, 0));
    let three = num(&mut w, 3);
    let ok = sum(&mut w, two, three);
    let (slot, _, _) = eval(&mut w, ok);
    assert_eq!(number(&w, slot), 5);
}

#[test]
fn a_native_call_takes_its_operands_then_one_apply_step() {
    let mut w = world(1 << 16);
    let two = num(&mut w, 2);
    let three = num(&mut w, 3);
    let e = sum(&mut w, two, three);
    let mut stack = EvalStack::new(8);
    stack.start(w.env, e).unwrap();
    for _ in 0..4 {
        assert!(matches!(stack.step(&mut w.region, &w.bridge), Step::Continue));
        assert_eq!(stack.depth(), 1);
        assert_eq!(stack.result(), Slot::Pending);
    }
    let args = match stack.step(&mut w.region, &w.bridge) {
        Step::Call(0, args) => args,
        other => panic!("unexpected {:?}", other),
    };
    assert_eq!(args, vec![two, three]);
    assert!(matches!(stack.step(&mut w.region, &w.bridge), Step::Waiting));
    assert!(matches!(stack.step(&mut w.region, &w.bridge), Step::Waiting));
    assert_eq!(stack.result(), Slot::Pending);
    assert!(!stack.is_empty());
    let v = host_add(&mut w.region, &args);
    assert_eq!(stack.resume(&w.region, v), Ok(()));
    assert!(stack.is_empty());
    assert_eq!(number(&w, stack.result()), 5);
}

#[test]
fn steps_grow_by_five_with_each_level_of_nesting() {
    let mut w = world(1 << 16);
    let mut e = num(&mut w, 1);
    let mut total: i64 = 1;
    for depth in 1..=6 {
        let n = num(&mut w, depth + 1);
        total += depth + 1;
        e = sum(&mut w, e, n);
        let (slot, steps, calls) = eval(&mut w, e);
        assert_eq!(number(&w, slot), total);
        assert_eq!(steps, 5 * depth as usize);
        assert_eq!(calls, depth as usize);
    }
}

#[test]
fn operands_are_evaluated_left_to_right() {
    let mut w = world(1 << 16);
    let a = w.table.intern("a").unwrap();
    let b = w.table.intern("b").unwrap();
    let sa = sym(&mut w, a);
    let sb = sym(&mut w, b);
    let e = sum(&mut w, sa, sb);
    let (slot, steps, _) = eval(&mut w, e);
    assert_eq!(slot, Slot::Failed(EvalError::Unbound(a)));
    assert_eq!(steps, 3);
    let one = num(&mut w, 1);
    insert(&mut w.region, w.env, a, one).unwrap();
    let (slot, steps, _) = eval(&mut w, e);
    assert_eq!(slot, Slot::Failed(EvalError::Unbound(b)));
    assert_eq!(steps, 4);
}

#[test]
fn quote_returns_its_operand_unevaluated() {
    let mut w = world(1 << 16);
    let q = sym(&mut w, S_QUOTE);
    let k = w.table.intern("unbound").unwrap();
    let s = sym(&mut w, k);
    let one = num(&mut w, 1);
    let inner = list(&mut w, &[s, one]);
    let e = list(&mut w, &[q, inner]);
    assert_eq!(eval(&mut w, e), (Slot::Done(inner), 1, 0));
    let e = list(&mut w, &[q, s]);
    assert_eq!(eval(&mut w, e), (Slot::Done(s), 1, 0));
    let bare = list(&mut w, &[q]);
    assert_eq!(eval(&mut w, bare), (Slot::Failed(EvalError::BadForm), 1, 0));
    let many = list(&mut w, &[q, one, one]);
    assert_eq!(eval(&mut w, many), (Slot::Failed(EvalError::BadForm), 1, 0));
}

#[test]
fn a_conditional_evaluates_one_branch() {
    let mut w = world(1 << 16);
    let i = sym(&mut w, S_IF);
    let k = w.table.intern("unbound").unwrap();
    let bad = sym(&mut w, k);
    let one = num(&mut w, 1);
    let yes = w.region.allocate(Datum::Bool(true)).unwrap();
    let no = w.region.allocate(Datum::Bool(false)).unwrap();
    let nil = w.region.allocate(Datum::Nil).unwrap();
    let zero = num(&mut w, 0);
    let e = list(&mut w, &[i, yes, one, bad]);
    assert_eq!(eval(&mut w, e), (Slot::Done(one), 4, 0));
    let e = list(&mut w, &[i, no, bad, one]);
    assert_eq!(eval(&mut w, e), (Slot::Done(one), 4, 0));
    let e = list(&mut w, &[i, nil, bad, one]);
    assert_eq!(eval(&mut w, e), (Slot::Done(one), 4, 0));
    let e = list(&mut w, &[i, zero, one, bad]);
    assert_eq!(eval(&mut w, e), (Slot::Done(one), 4, 0));
    let e = list(&mut w, &[i, yes, bad, one]);
    assert_eq!(eval(&mut w, e), (Slot::Failed(EvalError::Unbound(k)), 4, 0));
    let two = num(&mut w, 2);
    let cond = sum(&mut w, one, two);
    let then = sum(&mut w, two, two);
    let e = list(&mut w, &[i, cond, then, bad]);
    let (slot, steps, calls) = eval(&mut w, e);
    assert_eq!(number(&w, slot), 4);
    assert_eq!((steps, calls), (1 + 5 + 1 + 5, 2));
}

#[test]
fn a_conditional_must_have_a_test_and_two_branches() {
    let mut w = world(1 << 16);
    let i = sym(&mut w, S_IF);
    let one = num(&mut w, 1);
    let e = list(&mut w, &[i]);
    assert_eq!(eval(&mut w, e), (Slot::Failed(EvalError::BadForm), 1, 0));
    let e = list(&mut w, &[i, one]);
    assert_eq!(eval(&mut w, e), (Slot::Failed(EvalError::BadForm), 3, 0));
    let e = list(&mut w, &[i, one, one]);
    assert_eq!(eval(&mut w, e), (Slot::Failed(EvalError::BadForm), 3, 0));
    let e = list(&mut w, &[i, one, one, one, one]);
    assert_eq!(eval(&mut w, e), (Slot::Failed(EvalError::BadForm), 3, 0));
}

#[test]
fn def_binds_in_the_frame_of_the_evaluation() {
    let mut w = world(1 << 16);
    let d = sym(&mut w, S_DEF);
    let k = w.table.intern("x").unwrap();
    let name = sym(&mut w, k);
    let two = num(&mut w, 2);
    let three = num(&mut w, 3);
    let value = sum(&mut w, two, three);
    let e = list(&mut w, &[d, name, value]);
    let inner = create_frame(&mut w.region, 2).unwrap();
    link(&mut w.region, inner, w.env).unwrap();
    let mut stack = EvalStack::new(8);
    stack.start(inner, e).unwrap();
    let (steps, calls) = drive(&mut w, &mut stack);
    assert_eq!((steps, calls), (1 + 5 + 1, 1));
    assert_eq!(number(&w, stack.result()), 5);
    let bound = lookup(&w.region, inner, k).unwrap();
    assert_eq!(Slot::Done(bound), stack.result());
    assert!(lookup(&w.region, w.env, k).is_err());
    let e = sum(&mut w, name, name);
    stack.start(inner, e).unwrap();
    drive(&mut w, &mut stack);
    assert_eq!(number(&w, stack.result()), 10);
}

#[test]
fn def_needs_a_symbol_and_one_expression() {
    let mut w = world(1 << 16);
    let d = sym(&mut w, S_DEF);
    let one = num(&mut w, 1);
    let k = w.table.intern("x").unwrap();
    let name = sym(&mut w, k);
    let e = list(&mut w, &[d, one, one]);
    assert_eq!(eval(&mut w, e), (Slot::Failed(EvalError::BadForm), 1, 0));
    let e = list(&mut w, &[d, name]);
    assert_eq!(eval(&mut w, e), (Slot::Failed(EvalError::BadForm), 1, 0));
    let e = list(&mut w, &[d, name, one, one]);
    assert_eq!(eval(&mut w, e), (Slot::Failed(EvalError::BadForm), 1, 0));
    assert!(lookup(&w.region, w.env, k).is_err());
}

#[test]
fn def_fails_where_the_frame_is_full() {
    let mut w = world(1 << 16);
    let d = sym(&mut w, S_DEF);
    let k = w.table.intern("x").unwrap();
    let name = sym(&mut w, k);
    let one = num(&mut w, 1);
    let e = list(&mut w, &[d, name, one]);
    let tight = create_frame(&mut w.region, 0).unwrap();
    let mut stack = EvalStack::new(8);
    stack.start(tight, e).unwrap();
    let (steps, _) = drive(&mut w, &mut stack);
    assert_eq!(steps, 3);
    assert_eq!(stack.result(), Slot::Failed(EvalError::FrameFull));
}

#[test]
fn an_interpreted_procedure_binds_its_parameters_in_a_new_frame() {
    let mut w = world(1 << 16);
    let f = sym(&mut w, S_FN);
    let kx = w.table.intern("x").unwrap();
    let ky = w.table.intern("y").unwrap();
    let x = sym(&mut w, kx);
    let y = sym(&mut w, ky);
    let params = list(&mut w, &[x, y]);
    let body = sum(&mut w, x, y);
    let lambda = list(&mut w, &[f, params, body]);
    let (slot, steps, calls) = eval(&mut w, lambda);
    assert_eq!((steps, calls), (1, 0));
    let proc = match slot {
        Slot::Done(v) => v,
        other => panic!("{:?}", other),
    };
    assert_eq!(w.region.get(proc), Some(&Datum::Lambda(params, body, w.env)));
    let two = num(&mut w, 2);
    let three = num(&mut w, 3);
    let call = list(&mut w, &[lambda, two, three]);
    let cells = w.region.len();
    let used = w.region.used();
    let (slot, steps, calls) = eval(&mut w, call);
    assert_eq!(number(&w, slot), 5);
    assert_eq!((steps, calls), (11, 1));
    assert_eq!(w.region.len(), cells + 3);
    assert_eq!(w.region.used(), used + 32 + 48 + 16);
    assert!(lookup(&w.region, w.env, kx).is_err());
    let frame = Value { idx: cells + 1 };
    assert_eq!(lookup(&w.region, frame, kx), Ok(two));
    assert_eq!(lookup(&w.region, frame, ky), Ok(three));
    assert!(lookup(&w.region, frame, w.add).is_ok());
}

#[test]
fn a_procedure_sees_the_frame_it_was_made_in() {
    let mut w = world(1 << 16);
    let d = sym(&mut w, S_DEF);
    let f = sym(&mut w, S_FN);
    let kn = w.table.intern("n").unwrap();
    let kinc = w.table.intern("inc").unwrap();
    let kx = w.table.intern("x").unwrap();
    let n = sym(&mut w, kn);
    let inc = sym(&mut w, kinc);
    let x = sym(&mut w, kx);
    let ten = num(&mut w, 10);
    let def_n = list(&mut w, &[d, n, ten]);
    eval(&mut w, def_n);
    let params = list(&mut w, &[x]);
    let body = sum(&mut w, x, n);
    let lambda = list(&mut w, &[f, params, body]);
    let def_inc = list(&mut w, &[d, inc, lambda]);
    eval(&mut w, def_inc);
    let five = num(&mut w, 5);
    let call = list(&mut w, &[inc, five]);
    let other = create_frame(&mut w.region, 4).unwrap();
    link(&mut w.region, other, w.env).unwrap();
    let hundred = num(&mut w, 100);
    insert(&mut w.region, other, kn, hundred).unwrap();
    let mut stack = EvalStack::new(16);
    stack.start(other, call).unwrap();
    drive(&mut w, &mut stack);
    assert_eq!(number(&w, stack.result()), 15);
    let inner = list(&mut w, &[inc, five]);
    let nested = list(&mut w, &[inc, inner]);
    let (slot, _, calls) = eval(&mut w, nested);
    assert_eq!(number(&w, slot), 25);
    assert_eq!(calls, 2);
}

#[test]
fn a_later_parameter_of_the_same_name_wins() {
    let mut w = world(1 << 16);
    let f = sym(&mut w, S_FN);
    let kx = w.table.intern("x").unwrap();
    let x = sym(&mut w, kx);
    let params = list(&mut w, &[x, x]);
    let lambda = list(&mut w, &[f, params, x]);
    let one = num(&mut w, 1);
    let two = num(&mut w, 2);
    let call = list(&mut w, &[lambda, one, two]);
    let (slot, _, _) = eval(&mut w, call);
    assert_eq!(slot, Slot::Done(two));
}

#[test]
fn an_interpreted_procedure_checks_its_arity_and_its_parameters() {
    let mut w = world(1 << 16);
    let f = sym(&mut w, S_FN);
    let kx = w.table.intern("x").unwrap();
    let x = sym(&mut w, kx);
    let one = num(&mut w, 1);
    let params = list(&mut w, &[x]);
    let lambda = list(&mut w, &[f, params, x]);
    let call = list(&mut w, &[lambda]);
    let used = w.region.used();
    let (slot, _, _) = eval(&mut w, call);
    assert_eq!(slot, Slot::Failed(EvalError::WrongArity));
    assert_eq!(w.region.used(), used + 32);
    let call = list(&mut w, &[lambda, one, one]);
    let (slot, _, _) = eval(&mut w, call);
    assert_eq!(slot, Slot::Failed(EvalError::WrongArity));
    let bad_params = list(&mut w, &[one]);
    let lambda = list(&mut w, &[f, bad_params, x]);
    let call = list(&mut w, &[lambda, one]);
    let (slot, _, _) = eval(&mut w, call);
    assert_eq!(slot, Slot::Failed(EvalError::BadForm));
    let lambda = list(&mut w, &[f, one, x]);
    let call = list(&mut w, &[lambda, one]);
    let (slot, _, _) = eval(&mut w, call);
    assert_eq!(slot, Slot::Failed(EvalError::BadForm));
    let lambda = list(&mut w, &[f, params]);
    let (slot, _, _) = eval(&mut w, lambda);
    assert_eq!(slot, Slot::Failed(EvalError::BadForm));
    let nil = w.region.allocate(Datum::Nil).unwrap();
    let thunk = list(&mut w, &[f, nil, one]);
    let call = list(&mut w, &[thunk]);
    let (slot, steps, _) = eval(&mut w, call);
    assert_eq!(slot, Slot::Done(one));
    assert_eq!(steps, 5);
}

#[test]
fn what_is_no_procedure_cannot_be_applied() {
    let mut w = world(1 << 16);
    let one = num(&mut w, 1);
    let e = list(&mut w, &[one, one]);
    assert_eq!(eval(&mut w, e), (Slot::Failed(EvalError::NotCallable), 4, 0));
    let a = w.region.allocate(Datum::Pair(one, one)).unwrap();
    assert_eq!(eval(&mut w, a), (Slot::Failed(EvalError::BadForm), 3, 0));
}

#[test]
fn a_native_call_with_too_few_arguments_never_reaches_the_host() {
    let mut w = world(1 << 16);
    let three = vec![Shape::any(), Shape::any(), Shape::any()];
    w.bridge.register(&mut w.region, &mut w.table, w.env, "three", three).unwrap();
    let k = w.table.find("three").unwrap();
    let s = sym(&mut w, k);
    let one = num(&mut w, 1);
    let e = list(&mut w, &[s, one, one]);
    let (slot, steps, calls) = eval(&mut w, e);
    assert_eq!(slot, Slot::Failed(EvalError::Boundary(BoundaryError::WrongArity)));
    assert_eq!((steps, calls), (5, 0));
    let e = list(&mut w, &[s, one, one, one, one]);
    let (slot, _, calls) = eval(&mut w, e);
    assert_eq!(slot, Slot::Failed(EvalError::Boundary(BoundaryError::WrongArity)));
    assert_eq!(calls, 0);
    let e = list(&mut w, &[s, one, one, one]);
    let mut stack = EvalStack::new(8);
    stack.start(w.env, e).unwrap();
    let mut seen = false;
    for _ in 0..6 {
        if let Step::Call(p, args) = stack.step(&mut w.region, &w.bridge) {
            assert_eq!(p, 1);
            assert_eq!(args.len(), 3);
            seen = true;
        }
    }
    assert!(seen);
}

#[test]
fn a_native_call_with_an_argument_of_the_wrong_tag_never_reaches_the_host() {
    let mut w = world(1 << 16);
    let two = num(&mut w, 2);
    let word = w.region.allocate(Datum::U32(3)).unwrap();
    let e = sum(&mut w, two, word);
    let (slot, steps, calls) = eval(&mut w, e);
    assert_eq!(slot, Slot::Failed(EvalError::Boundary(BoundaryError::WrongShape(1))));
    assert_eq!((steps, calls), (5, 0));
    let e = sum(&mut w, word, word);
    let (slot, _, calls) = eval(&mut w, e);
    assert_eq!(slot, Slot::Failed(EvalError::Boundary(BoundaryError::WrongShape(0))));
    assert_eq!(calls, 0);
    let h = w.region.allocate(Datum::Other(2)).unwrap();
    let e = sum(&mut w, two, h);
    let (slot, _, calls) = eval(&mut w, e);
    assert_eq!(slot, Slot::Failed(EvalError::Boundary(BoundaryError::WrongShape(1))));
    assert_eq!(calls, 0);
}

#[test]
fn a_native_procedure_without_a_signature_is_turned_away() {
    let mut w = world(1 << 16);
    let ghost = w.region.allocate(Datum::Native(9, 0)).unwrap();
    let e = list(&mut w, &[ghost]);
    let (slot, _, calls) = eval(&mut w, e);
    assert_eq!(slot, Slot::Failed(EvalError::Boundary(BoundaryError::NoSuchProc)));
    assert_eq!(calls, 0);
}

#[test]
fn a_stack_without_room_fails_the_evaluation() {
    let mut w = world(1 << 16);
    let one = num(&mut w, 1);
    let two = num(&mut w, 2);
    let flat = sum(&mut w, one, two);
    let nested = sum(&mut w, flat, two);
    let mut stack = EvalStack::new(1);
    stack.start(w.env, flat).unwrap();
    drive(&mut w, &mut stack);
    assert_eq!(number(&w, stack.result()), 3);
    stack.start(w.env, nested).unwrap();
    let (steps, calls) = drive(&mut w, &mut stack);
    assert_eq!(stack.result(), Slot::Failed(EvalError::StackOverflow));
    assert_eq!((steps, calls), (3, 0));
    let i = sym(&mut w, S_IF);
    let e = list(&mut w, &[i, one, one, one]);
    stack.start(w.env, e).unwrap();
    drive(&mut w, &mut stack);
    assert_eq!(stack.result(), Slot::Failed(EvalError::StackOverflow));
    let mut two_deep = EvalStack::new(2);
    two_deep.start(w.env, nested).unwrap();
    drive(&mut w, &mut two_deep);
    assert_eq!(number(&w, two_deep.result()), 5);
    let mut none = EvalStack::new(0);
    assert_eq!(none.start(w.env, one), Err(StartError::StackOverflow));
    assert!(none.is_empty());
}

#[test]
fn one_evaluation_at_a_time() {
    let mut w = world(1 << 16);
    let one = num(&mut w, 1);
    let two = num(&mut w, 2);
    let mut stack = EvalStack::new(4);
    assert_eq!(stack.start(w.env, one), Ok(()));
    assert_eq!(stack.start(w.env, two), Err(StartError::Busy));
    assert_eq!(stack.depth(), 1);
    stack.step(&mut w.region, &w.bridge);
    assert_eq!(stack.result(), Slot::Done(one));
    assert_eq!(stack.start(w.env, two), Ok(()));
    assert_eq!(stack.result(), Slot::Pending);
    stack.step(&mut w.region, &w.bridge);
    assert_eq!(stack.result(), Slot::Done(two));
}

#[test]
fn resume_needs_a_waiting_call_and_a_value_of_the_region() {
    let mut w = world(1 << 16);
    let one = num(&mut w, 1);
    let e = sum(&mut w, one, one);
    let mut stack = EvalStack::new(4);
    assert_eq!(stack.resume(&w.region, one), Err(ResumeError::NotWaiting));
    stack.start(w.env, e).unwrap();
    assert_eq!(stack.resume(&w.region, one), Err(ResumeError::NotWaiting));
    assert_eq!(stack.depth(), 1);
    for _ in 0..5 {
        stack.step(&mut w.region, &w.bridge);
    }
    assert_eq!(stack.frames[0].op, Opcode::Await);
    assert_eq!(stack.resume(&w.region, Value { idx: 100_000 }), Ok(()));
    assert!(stack.is_empty());
    assert_eq!(stack.result(), Slot::Failed(EvalError::Dangling));
}

#[test]
fn the_result_of_a_native_call_goes_to_the_frame_below() {
    let mut w = world(1 << 16);
    let one = num(&mut w, 1);
    let inner = sum(&mut w, one, one);
    let outer = sum(&mut w, inner, one);
    let mut stack = EvalStack::new(4);
    stack.start(w.env, outer).unwrap();
    let mut answered = 0;
    while answered == 0 {
        if let Step::Call(_, args) = stack.step(&mut w.region, &w.bridge) {
            let v = host_add(&mut w.region, &args);
            assert_eq!(stack.depth(), 2);
            stack.resume(&w.region, v).unwrap();
            assert_eq!(stack.depth(), 1);
            assert_eq!(stack.frames[0].acc.len(), 2);
            assert_eq!(stack.frames[0].acc[1], v);
            assert_eq!(stack.result(), Slot::Pending);
            answered += 1;
        }
    }
}

#[test]
fn an_exhausted_region_fails_the_evaluation() {
    let mut w = world(484);
    let f = sym(&mut w, S_FN);
    let nil = w.region.allocate(Datum::Nil).unwrap();
    let one = num(&mut w, 1);
    let lambda = list(&mut w, &[f, nil, one]);
    let call = list(&mut w, &[lambda]);
    let left = w.region.capacity() - w.region.used();
    assert!(left < 32 + 16 && left >= 32, "left {}", left);
    let (slot, _, _) = eval(&mut w, call);
    assert_eq!(slot, Slot::Failed(EvalError::RegionExhausted));
    let (slot, _, _) = eval(&mut w, lambda);
    assert_eq!(slot, Slot::Failed(EvalError::RegionExhausted));
}

#[test]
fn handles_that_designate_nothing_fail_the_evaluation() {
    let mut w = world(1 << 16);
    let one = num(&mut w, 1);
    let mut stack = EvalStack::new(4);
    stack.start(w.env, Value { idx: 90_000 }).unwrap();
    stack.step(&mut w.region, &w.bridge);
    assert_eq!(stack.result(), Slot::Failed(EvalError::Dangling));
    let k = w.table.intern("x").unwrap();
    let x = sym(&mut w, k);
    stack.start(one, x).unwrap();
    stack.step(&mut w.region, &w.bridge);
    assert_eq!(stack.result(), Slot::Failed(EvalError::Dangling));
    stack.start(one, one).unwrap();
    stack.step(&mut w.region, &w.bridge);
    assert_eq!(stack.result(), Slot::Done(one));
}

#[test]
fn two_regions_add_two_and_three() {
    let mut main_region = Region::acquire(64 * 1024);
    let mut rndr_region = Region::acquire(64 * 1024);
    let mut table = SymbolTable::new();
    let mut bridge = Bridge::new();
    let (mut channel, tx, rx) =
        stark::queue::Channel::create(0, 4, &mut main_region, &mut rndr_region).unwrap();
    let env = create_frame(&mut main_region, 255).unwrap();
    let sig = vec![Shape::typed(Cfg::B8, Kind::I64), Shape::typed(Cfg::B8, Kind::I64)];
    bridge.register(&mut main_region, &mut table, env, "add", sig).unwrap();
    let add = table.intern("add").unwrap();
    let s = main_region.allocate(Datum::Symbol(add)).unwrap();
    let two = main_region.allocate(Datum::I64(2)).unwrap();
    let three = main_region.allocate(Datum::I64(3)).unwrap();
    let nil = main_region.allocate(Datum::Nil).unwrap();
    let l3 = main_region.allocate(Datum::Pair(three, nil)).unwrap();
    let l2 = main_region.allocate(Datum::Pair(two, l3)).unwrap();
    let expr = main_region.allocate(Datum::Pair(s, l2)).unwrap();

    let mut stack = EvalStack::new(10_000);
    stack.start(env, expr).unwrap();
    while !stack.is_empty() {
        if let Step::Call(p, args) = stack.step(&mut main_region, &bridge) {
            assert_eq!(p, 0);
            assert_eq!(args, vec![two, three]);
            let v = stark::arith::add_i64(&mut main_region, args[0], args[1]).unwrap();
            stack.resume(&main_region, v).unwrap();
        }
    }
    let out = match stack.result() {
        Slot::Done(v) => v,
        other => panic!("{:?}", other),
    };
    assert_eq!(main_region.get(out), Some(&Datum::I64(5)));
    assert!(stack.is_empty());
    channel.send(&main_region, tx, out).unwrap();

    let got = channel.try_recv(&mut rndr_region, rx).unwrap().unwrap();
    assert_eq!(rndr_region.get(got), Some(&Datum::I64(5)));
    assert_eq!(channel.try_recv(&mut rndr_region, rx), Ok(None));
}

#[test]
fn do_evaluates_in_order_and_yields_the_last_value() {
    let mut w = world(1 << 16);
    let seq = sym(&mut w, S_DO);
    let d = sym(&mut w, S_DEF);
    let kx = w.table.intern("x").unwrap();
    let x = sym(&mut w, kx);
    let one = num(&mut w, 1);
    let two = num(&mut w, 2);
    let e = list(&mut w, &[seq, one]);
    assert_eq!(eval(&mut w, e), (Slot::Done(one), 3, 0));
    let e = list(&mut w, &[seq, one, two]);
    assert_eq!(eval(&mut w, e), (Slot::Done(two), 5, 0));
    let def = list(&mut w, &[d, x, two]);
    let use_x = sum(&mut w, x, x);
    let e = list(&mut w, &[seq, def, one, use_x]);
    let (slot, steps, calls) = eval(&mut w, e);
    assert_eq!(number(&w, slot), 4);
    assert_eq!((steps, calls), (1 + (1 + 3) + (1 + 1) + 1 + 5, 1));
    let k = w.table.intern("unbound").unwrap();
    let bad = sym(&mut w, k);
    let e = list(&mut w, &[seq, bad, one]);
    assert_eq!(eval(&mut w, e), (Slot::Failed(EvalError::Unbound(k)), 3, 0));
    let e = list(&mut w, &[seq]);
    assert_eq!(eval(&mut w, e), (Slot::Failed(EvalError::BadForm), 1, 0));
}

#[test]
fn the_last_expression_of_do_needs_no_frame() {
    let mut w = world(1 << 16);
    let seq = sym(&mut w, S_DO);
    let one = num(&mut w, 1);
    let two = num(&mut w, 2);
    let last = sum(&mut w, one, two);
    let inner = list(&mut w, &[seq, last]);
    let outer = list(&mut w, &[seq, inner]);
    let mut stack = EvalStack::new(1);
    stack.start(w.env, outer).unwrap();
    drive(&mut w, &mut stack);
    assert_eq!(number(&w, stack.result()), 3);
    let e = list(&mut w, &[seq, one, two]);
    stack.start(w.env, e).unwrap();
    drive(&mut w, &mut stack);
    assert_eq!(stack.result(), Slot::Failed(EvalError::StackOverflow));
}

#[test]
fn a_symbol_of_the_outer_region_resolves_to_a_copy() {
    let mut w = world(1 << 16);
    let kw = w.table.intern("width").unwrap();
    let kd = w.table.intern("dims").unwrap();
    let kf = w.table.intern("frame").unwrap();
    let mut main = Region::acquire(1 << 16);
    let globals = create_frame(&mut main, 8).unwrap();
    let wide = main.allocate(Datum::I64(1280)).unwrap();
    let dims = main.allocate(Datum::VecArr(Kind::U32, vec![1280, 720])).unwrap();
    insert(&mut main, globals, kw, wide).unwrap();
    insert(&mut main, globals, kd, dims).unwrap();
    insert(&mut main, globals, kf, globals).unwrap();

    let add = w.table.intern("plus").unwrap();
    let proc = lookup(&w.region, w.env, w.add).unwrap();
    insert(&mut w.region, w.env, add, proc).unwrap();
    stark::env::link_outer(&mut w.region, w.env, &main, globals).unwrap();

    let sw = sym(&mut w, kw);
    let mut stack = EvalStack::new(8);
    stack.start(w.env, sw).unwrap();
    let used = w.region.used();
    assert!(matches!(stack.step_under(&mut w.region, &main, &w.bridge), Step::Continue));
    let got = match stack.result() {
        Slot::Done(v) => v,
        other => panic!("{:?}", other),
    };
    assert_eq!(w.region.get(got), Some(&Datum::I64(1280)));
    assert_eq!(got.idx + 1, w.region.len());
    assert_eq!(w.region.used(), used + 16);

    stack.start(w.env, sw).unwrap();
    stack.step(&mut w.region, &w.bridge);
    assert_eq!(stack.result(), Slot::Failed(EvalError::Unbound(kw)));

    let sd = sym(&mut w, kd);
    stack.start(w.env, sd).unwrap();
    stack.step_under(&mut w.region, &main, &w.bridge);
    match stack.result() {
        Slot::Done(v) => {
            assert_eq!(w.region.get(v), Some(&Datum::VecArr(Kind::U32, vec![1280, 720])))
        }
        other => panic!("{:?}", other),
    }

    let sf = sym(&mut w, kf);
    stack.start(w.env, sf).unwrap();
    let used = w.region.used();
    stack.step_under(&mut w.region, &main, &w.bridge);
    assert_eq!(stack.result(), Slot::Failed(EvalError::Foreign));
    assert_eq!(w.region.used(), used);

    let plus = sym(&mut w, add);
    let one = num(&mut w, 1);
    let e = list(&mut w, &[plus, sw, one]);
    stack.start(w.env, e).unwrap();
    let mut steps = 0;
    while !stack.is_empty() {
        steps += 1;
        if let Step::Call(_, args) = stack.step_under(&mut w.region, &main, &w.bridge) {
            assert_eq!(w.region.get(args[0]), Some(&Datum::I64(1280)));
            let v = host_add(&mut w.region, &args);
            stack.resume(&w.region, v).unwrap();
        }
    }
    assert_eq!(steps, 5);
    assert_eq!(number(&w, stack.result()), 1281);
    assert_eq!(main.get(wide), Some(&Datum::I64(1280)));

    let shadow = num(&mut w, 5);
    insert(&mut w.region, w.env, kw, shadow).unwrap();
    stack.start(w.env, sw).unwrap();
    stack.step_under(&mut w.region, &main, &w.bridge);
    assert_eq!(stack.result(), Slot::Done(shadow));
}

#[test]
fn a_copy_from_the_outer_region_needs_room() {
    let mut main = Region::acquire(1 << 16);
    let globals = create_frame(&mut main, 8).unwrap();
    let big = main.allocate(Datum::VecArr(Kind::U32, vec![0; 100])).unwrap();
    insert(&mut main, globals, 77, big).unwrap();
    let mut r = Region::acquire(16 + 16 + 12 + 407);
    let env = create_frame(&mut r, 1).unwrap();
    stark::env::link_outer(&mut r, env, &main, globals).unwrap();
    let s = r.allocate(Datum::Symbol(77)).unwrap();
    let bridge = Bridge::new();
    let mut stack = EvalStack::new(4);
    stack.start(env, s).unwrap();
    stack.step_under(&mut r, &main, &bridge);
    assert_eq!(stack.result(), Slot::Failed(EvalError::RegionExhausted));
    assert_eq!(r.used(), 44);
    let mut r = Region::acquire(16 + 16 + 12 + 408);
    let env = create_frame(&mut r, 1).unwrap();
    stark::env::link_outer(&mut r, env, &main, globals).unwrap();
    let s = r.allocate(Datum::Symbol(77)).unwrap();
    stack.start(env, s).unwrap();
    stack.step_under(&mut r, &main, &bridge);
    assert!(matches!(stack.result(), Slot::Done(_)));
    assert_eq!(r.used(), 44 + 408);
}
