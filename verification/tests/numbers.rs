use stark::arith::{add_i64, apply, compute, integer, ArithError, Op};
use stark::eval::{is_fatal, EvalError};
use stark::bridge::BoundaryError;
use stark::region::Region;
use stark::value::{Datum, Value};

#[test]
fn two_and_three_are_five() {
    let mut r = Region::acquire(100);
    let a = r.allocate(Datum::I64(2)).unwrap();
    let b = r.allocate(Datum::I64(3)).unwrap();
    let v = add_i64(&mut r, a, b).unwrap();
    assert_eq!(r.get(v), Some(&Datum::I64(5)));
    assert_eq!(r.block(v), Some((32, 16)));
    assert_eq!(r.get(a), Some(&Datum::I64(2)));
    assert_eq!(r.used(), 48);
}

#[test]
fn the_operations_on_two_integers() {
    assert_eq!(compute(Op::Add, 7, -9), Some(Datum::I64(-2)));
    assert_eq!(compute(Op::Sub, 7, -9), Some(Datum::I64(16)));
    assert_eq!(compute(Op::Mul, 7, -9), Some(Datum::I64(-63)));
    assert_eq!(compute(Op::Less, 7, -9), Some(Datum::Bool(false)));
    assert_eq!(compute(Op::Less, -9, 7), Some(Datum::Bool(true)));
    assert_eq!(compute(Op::Less, 7, 7), Some(Datum::Bool(false)));
    assert_eq!(compute(Op::Equal, 7, 7), Some(Datum::Bool(true)));
    assert_eq!(compute(Op::Equal, 7, 8), Some(Datum::Bool(false)));
    assert_eq!(compute(Op::Add, i64::MAX, 0), Some(Datum::I64(i64::MAX)));
    assert_eq!(compute(Op::Add, i64::MAX, 1), None);
    assert_eq!(compute(Op::Add, i64::MIN, -1), None);
    assert_eq!(compute(Op::Sub, i64::MIN, 1), None);
    assert_eq!(compute(Op::Sub, 0, i64::MIN), None);
    assert_eq!(compute(Op::Sub, -1, i64::MIN), Some(Datum::I64(i64::MAX)));
    assert_eq!(compute(Op::Mul, i64::MIN, -1), None);
    assert_eq!(compute(Op::Mul, 1 << 32, 1 << 31), None);
    assert_eq!(compute(Op::Mul, 1 << 31, 1 << 31), Some(Datum::I64(1 << 62)));
    assert_eq!(compute(Op::Less, i64::MIN, i64::MAX), Some(Datum::Bool(true)));
}

#[test]
fn an_integer_procedure_checks_its_operands_then_the_result_then_the_room() {
    let mut r = Region::acquire(16 + 16 + 12 + 16 + 15);
    let a = r.allocate(Datum::I64(i64::MAX)).unwrap();
    let b = r.allocate(Datum::I64(1)).unwrap();
    let w = r.allocate(Datum::U32(1)).unwrap();
    assert_eq!(integer(&r, a), Some(i64::MAX));
    assert_eq!(integer(&r, w), None);
    assert_eq!(integer(&r, Value { idx: 9 }), None);
    assert_eq!(add_i64(&mut r, a, w), Err(ArithError::NotInteger));
    assert_eq!(add_i64(&mut r, w, a), Err(ArithError::NotInteger));
    assert_eq!(add_i64(&mut r, a, Value { idx: 9 }), Err(ArithError::NotInteger));
    assert_eq!(apply(Op::Less, &mut r, w, w), Err(ArithError::NotInteger));
    assert_eq!(add_i64(&mut r, a, b), Err(ArithError::Overflow));
    assert_eq!(apply(Op::Mul, &mut r, a, a), Err(ArithError::Overflow));
    assert_eq!(r.used(), 44);
    let one = apply(Op::Mul, &mut r, b, b).unwrap();
    assert_eq!(r.get(one), Some(&Datum::I64(1)));
    assert_eq!(r.used(), 60);
    assert_eq!(add_i64(&mut r, b, b), Err(ArithError::RegionExhausted));
    assert_eq!(apply(Op::Sub, &mut r, a, b), Err(ArithError::RegionExhausted));
    assert_eq!(add_i64(&mut r, a, b), Err(ArithError::Overflow));
    let yes = apply(Op::Less, &mut r, b, a).unwrap();
    assert_eq!(r.get(yes), Some(&Datum::Bool(true)));
    assert_eq!(r.used(), 68);
    assert_eq!(apply(Op::Equal, &mut r, b, a), Err(ArithError::RegionExhausted));
    assert_eq!(r.len(), 5);
}

#[test]
fn three_failures_end_the_thread() {
    assert!(is_fatal(EvalError::RegionExhausted));
    assert!(is_fatal(EvalError::StackOverflow));
    assert!(is_fatal(EvalError::Boundary(BoundaryError::WrongArity)));
    assert!(is_fatal(EvalError::Boundary(BoundaryError::NoSuchProc)));
    assert!(is_fatal(EvalError::Boundary(BoundaryError::WrongShape(2))));
    assert!(!is_fatal(EvalError::Unbound(3)));
    assert!(!is_fatal(EvalError::BadForm));
    assert!(!is_fatal(EvalError::NotCallable));
    assert!(!is_fatal(EvalError::WrongArity));
    assert!(!is_fatal(EvalError::FrameFull));
    assert!(!is_fatal(EvalError::Dangling));
    assert!(!is_fatal(EvalError::Foreign));
}
