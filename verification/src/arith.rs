//! Integer procedures for scripts: each takes two values of a region, checks
//! that they are integers, and allocates the result there.

use vstd::prelude::*;
use crate::region::{Cell, Region};
use crate::value::{Datum, Value};

verus! {

/// Why an integer procedure failed.
#[derive(Clone, Copy, PartialEq, Eq, Debug, Structural)]
pub enum ArithError {
    /// An operand is not in the region, or is no 64-bit integer.
    NotInteger,
    /// The result does not fit 64 bits.
    Overflow,
    /// The region has too few bytes left for the result.
    RegionExhausted,
}

/// An operation on two integers.
#[derive(Clone, Copy, PartialEq, Eq, Debug, Structural)]
pub enum Op {
    Add,
    Sub,
    Mul,
    Less,
    Equal,
}

/// The integer that `v` holds, if it holds one.
pub open spec fn integer_at(cells: Seq<Cell>, v: Value) -> Option<i64> {
    if v.idx < cells.len() {
        match cells[v.idx as int].datum {
            Datum::I64(n) => Some(n),
            _ => None,
        }
    } else {
        None
    }
}

/// What the operation makes of `x` and `y`: a number for the arithmetic
/// operations, where it fits 64 bits, a truth value for the comparisons.
pub open spec fn outcome(op: Op, x: i64, y: i64) -> Option<Datum> {
    match op {
        Op::Add => if i64::MIN <= x + y <= i64::MAX {
            Some(Datum::I64((x + y) as i64))
        } else {
            None
        },
        Op::Sub => if i64::MIN <= x - y <= i64::MAX {
            Some(Datum::I64((x - y) as i64))
        } else {
            None
        },
        Op::Mul => if i64::MIN <= x * y <= i64::MAX {
            Some(Datum::I64((x * y) as i64))
        } else {
            None
        },
        Op::Less => Some(Datum::Bool(x < y)),
        Op::Equal => Some(Datum::Bool(x == y)),
    }
}

/// The integer that `v` holds, if it holds one.
pub fn integer(region: &Region, v: Value) -> (n: Option<i64>)
    ensures
        n == integer_at(region.cells@, v),
{
    if v.idx >= region.cells.len() {
        return None;
    }
    match &region.cells[v.idx].datum {
        Datum::I64(n) => Some(*n),
        _ => None,
    }
}

/// What the operation makes of `x` and `y`.
pub fn compute(op: Op, x: i64, y: i64) -> (d: Option<Datum>)
    ensures
        d == outcome(op, x, y),
{
    match op {
        Op::Add => match x.checked_add(y) {
            Some(n) => Some(Datum::I64(n)),
            None => None,
        },
        Op::Sub => match x.checked_sub(y) {
            Some(n) => Some(Datum::I64(n)),
            None => None,
        },
        Op::Mul => match x.checked_mul(y) {
            Some(n) => Some(Datum::I64(n)),
            None => None,
        },
        Op::Less => Some(Datum::Bool(x < y)),
        Op::Equal => Some(Datum::Bool(x == y)),
    }
}

/// Applies `op` to the integers `a` and `b` and allocates the result.
///
/// In order, fails with `NotInteger` where one of the operands is no integer
/// of the region, with `Overflow` where the result does not fit 64 bits, and
/// with `RegionExhausted` where the region has no room for it; a failed call
/// changes nothing.
pub fn apply(op: Op, region: &mut Region, a: Value, b: Value) -> (res: Result<Value, ArithError>)
    requires
        old(region).wf(),
    ensures
        final(region).wf(),
        final(region).capacity == old(region).capacity,
        match res {
            Ok(v) => {
                let x = integer_at(old(region).cells@, a);
                let y = integer_at(old(region).cells@, b);
                &&& x is Some
                &&& y is Some
                &&& outcome(op, x->0, y->0) is Some
                &&& v.idx == old(region).cells@.len()
                &&& final(region).cells@ == old(region).cells@.push(
                    (Cell {
                        offset: old(region).cursor,
                        size: crate::value::footprint(outcome(op, x->0, y->0)->0) as usize,
                        datum: outcome(op, x->0, y->0)->0,
                    }),
                )
                &&& final(region).cursor == old(region).cursor + crate::value::footprint(
                    outcome(op, x->0, y->0)->0,
                )
            },
            Err(e) => {
                let x = integer_at(old(region).cells@, a);
                let y = integer_at(old(region).cells@, b);
                &&& *final(region) == *old(region)
                &&& e == ArithError::NotInteger <==> x is None || y is None
                &&& e == ArithError::Overflow <==> x is Some && y is Some && outcome(
                    op,
                    x->0,
                    y->0,
                ) is None
                &&& e == ArithError::RegionExhausted <==> x is Some && y is Some && outcome(
                    op,
                    x->0,
                    y->0,
                ) is Some && old(region).cursor + crate::value::footprint(
                    outcome(op, x->0, y->0)->0,
                ) > old(region).capacity
            },
        },
{
    let x: i64 = match integer(region, a) {
        Some(n) => n,
        None => {
            return Err(ArithError::NotInteger);
        },
    };
    let y: i64 = match integer(region, b) {
        Some(n) => n,
        None => {
            return Err(ArithError::NotInteger);
        },
    };
    let datum: Datum = match compute(op, x, y) {
        Some(d) => d,
        None => {
            return Err(ArithError::Overflow);
        },
    };
    match region.allocate(datum) {
        Ok(v) => Ok(v),
        Err(_) => Err(ArithError::RegionExhausted),
    }
}

/// The sum of two integers of the region, as a new value there.
pub fn add_i64(region: &mut Region, a: Value, b: Value) -> (res: Result<Value, ArithError>)
    requires
        old(region).wf(),
    ensures
        final(region).wf(),
        final(region).capacity == old(region).capacity,
        match res {
            Ok(v) => {
                let x = integer_at(old(region).cells@, a);
                let y = integer_at(old(region).cells@, b);
                &&& x is Some
                &&& y is Some
                &&& i64::MIN <= x->0 + y->0 <= i64::MAX
                &&& v.idx == old(region).cells@.len()
                &&& final(region).cursor == old(region).cursor + 16
                &&& final(region).cells@ == old(region).cells@.push(
                    (Cell {
                        offset: old(region).cursor,
                        size: 16,
                        datum: Datum::I64((x->0 + y->0) as i64),
                    }),
                )
            },
            Err(e) => {
                let x = integer_at(old(region).cells@, a);
                let y = integer_at(old(region).cells@, b);
                &&& *final(region) == *old(region)
                &&& e == ArithError::NotInteger <==> x is None || y is None
                &&& e == ArithError::Overflow <==> x is Some && y is Some && !(i64::MIN <= x->0
                    + y->0 <= i64::MAX)
                &&& e == ArithError::RegionExhausted <==> x is Some && y is Some && i64::MIN
                    <= x->0 + y->0 <= i64::MAX && old(region).cursor + 16 > old(region).capacity
            },
        },
{
    apply(Op::Add, region, a, b)
}

} // verus!
