//! Runs of the machine: what a sequence of steps, each native call answered
//! at once, makes of an expression built from atoms and applications of
//! native procedures, and how many steps that takes.

use vstd::prelude::*;
use crate::bridge::{Signature, boundary_verdict};
use crate::env::Found;
use crate::eval::{
    FrameView, Machine, Move, Opcode, Slot, args_of, atom_value, delivered, failed, is_nil,
    next_move, uncons, with_child, with_top,
};
use crate::region::{Cell, Region};
use crate::symbol::{S_DEF, S_DO, S_FN, S_IF, S_QUOTE};
use crate::value::{Datum, Value};

verus! {

/// What a run depends on besides the machine: the stack's capacity, the
/// region, the cells of the outer region, the native procedures, and the
/// host, as the function from a call to its answer.
pub struct World {
    pub capacity: usize,
    pub region: Region,
    pub outer: Seq<Cell>,
    pub procs: Seq<Signature>,
    pub answer: spec_fn(u32, Seq<Value>) -> Value,
}

/// The machine after a move that leaves the region as it is.
pub open spec fn after_move(mv: Move, m: Machine) -> Machine {
    let top = m.frames.last();
    match mv {
        Move::Deliver(v) => delivered(m, v),
        Move::Fail(e) => failed(e),
        Move::Retarget(op, x) => with_top(
            m,
            FrameView { op, env: top.env, expr: x, acc: Seq::empty() },
        ),
        Move::Fork(op, x, child) => with_child(
            with_top(m, FrameView { op, env: top.env, expr: x, acc: Seq::empty() }),
            top.env,
            child,
        ),
        Move::Descend(rest, child) => with_child(
            with_top(m, FrameView { op: top.op, env: top.env, expr: rest, acc: top.acc }),
            top.env,
            child,
        ),
        Move::Collect(rest, v) => with_top(
            m,
            FrameView { op: top.op, env: top.env, expr: rest, acc: top.acc.push(v) },
        ),
        Move::Call(_) => with_top(
            m,
            FrameView { op: Opcode::Await, env: top.env, expr: top.expr, acc: top.acc },
        ),
        _ => m,
    }
}

/// `after_move` is what `step` does: for every move that leaves the region as
/// it is, the machine it gives is the one that `moved` asks for.
pub proof fn lemma_after_move_is_moved(mv: Move, m: Machine, region: Region, outer: Seq<Cell>)
    requires
        !(mv is Close) && !(mv is Enter) && !(mv is Bind) && !(mv is Import) && !(
        mv is CollectImport),
    ensures
        crate::eval::moved(mv, m, region, outer, after_move(mv, m), region),
{
}

/// One step, and with it the host's answer where the step hands it a call.
pub open spec fn tick(w: World, m: Machine) -> Machine {
    let mv = next_move(m, w.capacity, w.region, w.outer, w.procs);
    match mv {
        Move::Call(p) => delivered(after_move(mv, m), (w.answer)(p, args_of(m.frames.last()))),
        _ => after_move(mv, m),
    }
}

/// The machine after `k` steps.
pub open spec fn run(w: World, m: Machine, k: nat) -> Machine
    decreases k,
{
    if k == 0 {
        m
    } else {
        run(w, tick(w, m), (k - 1) as nat)
    }
}

/// The machine whose stack is `base` with one frame on it.
pub open spec fn on_top(
    base: Seq<FrameView>,
    slot: Slot,
    op: Opcode,
    env: Value,
    expr: Value,
    acc: Seq<Value>,
) -> Machine {
    Machine { frames: base.push(FrameView { op, env, expr, acc }), slot }
}

/// Whether the datum is the symbol of a special form.
pub open spec fn special(d: Datum) -> bool {
    d == Datum::Symbol(S_QUOTE) || d == Datum::Symbol(S_IF) || d == Datum::Symbol(S_DEF) || d
        == Datum::Symbol(S_FN) || d == Datum::Symbol(S_DO)
}

/// Whether `x` is an atom whose value lies in the region: a literal, or a
/// symbol that the region's own frames bind.
pub open spec fn atom_ok(w: World, env: Value, x: Value) -> bool {
    &&& x.idx < w.region.cells@.len()
    &&& !(w.region.cells@[x.idx as int].datum is Pair)
    &&& atom_value(w.region.cells@, w.outer, env, x) matches Ok(Found::Here(v)) && v.idx
        < w.region.cells@.len()
}

/// Whether `f` is a native procedure whose boundary admits the call on
/// `args`.
pub open spec fn admits_call(w: World, f: Value, args: Seq<Value>) -> bool {
    &&& f.idx < w.region.cells@.len()
    &&& w.region.cells@[f.idx as int].datum is Native
    &&& boundary_verdict(
        w.procs,
        w.region.cells@,
        w.region.cells@[f.idx as int].datum->Native_0,
        args,
    ) is Ok
}

/// Steps that the evaluation of `x` takes: one for an atom; for an
/// application one to find it, those of its operator and operands, and one
/// to apply.
pub open spec fn cost(w: World, x: Value) -> nat
    decreases x.idx, 1int,
{
    if x.idx < w.region.cells@.len() && w.region.cells@[x.idx as int].datum is Pair {
        2 + list_cost(w, x)
    } else {
        1
    }
}

/// Steps that the operands from `l` on take: one for each, and for an operand
/// that is an application those of its evaluation besides.
pub open spec fn list_cost(w: World, l: Value) -> nat
    decreases l.idx, 0int,
{
    match uncons(w.region.cells@, l) {
        Some((e, r)) => if e.idx < l.idx && r.idx < l.idx {
            if w.region.cells@[e.idx as int].datum is Pair {
                1 + cost(w, e) + list_cost(w, r)
            } else {
                1 + list_cost(w, r)
            }
        } else {
            0
        },
        None => 0,
    }
}

/// The value of `x` in `env`: of an atom its own, of an application the
/// host's answer to the call of the operator's value on the operands' values.
pub open spec fn val(w: World, env: Value, x: Value) -> Value
    decreases x.idx, 1int,
{
    if x.idx < w.region.cells@.len() && w.region.cells@[x.idx as int].datum is Pair {
        let vs = vals(w, env, x);
        (w.answer)(
            w.region.cells@[vs[0].idx as int].datum->Native_0,
            vs.subrange(1, vs.len() as int),
        )
    } else {
        atom_value(w.region.cells@, w.outer, env, x)->Ok_0->Here_0
    }
}

/// The values of the operands from `l` on, in order.
pub open spec fn vals(w: World, env: Value, l: Value) -> Seq<Value>
    decreases l.idx, 0int,
{
    match uncons(w.region.cells@, l) {
        Some((e, r)) => if e.idx < l.idx && r.idx < l.idx {
            seq![val(w, env, e)] + vals(w, env, r)
        } else {
            Seq::empty()
        },
        None => Seq::empty(),
    }
}

/// The empty list that ends the list `l`.
pub open spec fn list_end(w: World, l: Value) -> Value
    decreases l.idx,
{
    match uncons(w.region.cells@, l) {
        Some((e, r)) => if r.idx < l.idx {
            list_end(w, r)
        } else {
            l
        },
        None => l,
    }
}

/// Whether `x` is an atom whose value lies in the region, or the application
/// of a native procedure to operands that are such expressions themselves,
/// with values that the procedure's boundary admits.
pub open spec fn plain(w: World, env: Value, x: Value) -> bool
    decreases x.idx, 1int,
{
    if x.idx < w.region.cells@.len() && w.region.cells@[x.idx as int].datum is Pair {
        let h = w.region.cells@[x.idx as int].datum->Pair_0;
        &&& h.idx < x.idx
        &&& !special(w.region.cells@[h.idx as int].datum)
        &&& plain_list(w, env, x)
        &&& admits_call(
            w,
            vals(w, env, x)[0],
            vals(w, env, x).subrange(1, vals(w, env, x).len() as int),
        )
    } else {
        atom_ok(w, env, x)
    }
}

/// Whether `l` is a list of such expressions.
pub open spec fn plain_list(w: World, env: Value, l: Value) -> bool
    decreases l.idx, 0int,
{
    if l.idx >= w.region.cells@.len() {
        false
    } else {
        match w.region.cells@[l.idx as int].datum {
            Datum::Nil => true,
            Datum::Pair(e, r) => e.idx < l.idx && r.idx < l.idx && plain(w, env, e) && plain_list(
                w,
                env,
                r,
            ),
            _ => false,
        }
    }
}

/// Whether the host answers every call with a value of the region.
pub open spec fn answers_held(w: World) -> bool {
    forall|p: u32, args: Seq<Value>| (#[trigger] (w.answer)(p, args)).idx < w.region.cells@.len()
}

/// Whether the evaluation is in flight during the next `k` steps: before each
/// of them the stack holds more than `depth` frames and the slot is `slot`.
pub open spec fn in_flight(w: World, m: Machine, k: nat, depth: nat, slot: Slot) -> bool
    decreases k,
{
    if k == 0 {
        true
    } else {
        m.frames.len() > depth && m.slot == slot && in_flight(
            w,
            tick(w, m),
            (k - 1) as nat,
            depth,
            slot,
        )
    }
}

/// What is in flight during some steps and during those that follow is in
/// flight during all of them.
pub proof fn lemma_in_flight_add(w: World, m: Machine, a: nat, b: nat, depth: nat, slot: Slot)
    requires
        in_flight(w, m, a, depth, slot),
        in_flight(w, run(w, m, a), b, depth, slot),
    ensures
        in_flight(w, m, a + b, depth, slot),
    decreases a,
{
    if a > 0 {
        lemma_in_flight_add(w, tick(w, m), (a - 1) as nat, b, depth, slot);
        assert((a + b - 1) as nat == (a - 1) as nat + b);
    }
}

/// What is in flight above a deeper stack is in flight above a shallower one.
pub proof fn lemma_in_flight_above(w: World, m: Machine, k: nat, depth: nat, slot: Slot)
    requires
        in_flight(w, m, k, depth + 1, slot),
    ensures
        in_flight(w, m, k, depth, slot),
    decreases k,
{
    if k > 0 {
        lemma_in_flight_above(w, tick(w, m), (k - 1) as nat, depth, slot);
    }
}

/// Steps add up.
pub proof fn lemma_run_add(w: World, m: Machine, a: nat, b: nat)
    ensures
        run(w, m, a + b) == run(w, run(w, m, a), b),
    decreases a,
{
    if a > 0 {
        lemma_run_add(w, tick(w, m), (a - 1) as nat, b);
        assert((a + b - 1) as nat == (a - 1) as nat + b);
    }
}

/// The operands of an application are evaluated from left to right in as
/// many steps as `list_cost` says, whatever lies below on the stack; their
/// values are then with the frame, in order, and the frame's list is at its
/// end.
pub proof fn lemma_operands(
    w: World,
    env: Value,
    base: Seq<FrameView>,
    slot: Slot,
    l: Value,
    acc: Seq<Value>,
)
    requires
        answers_held(w),
        plain_list(w, env, l),
        base.len() + 1 + l.idx <= w.capacity,
    ensures
        run(w, on_top(base, slot, Opcode::Apply, env, l, acc), list_cost(w, l)) == on_top(
            base,
            slot,
            Opcode::Apply,
            env,
            list_end(w, l),
            acc + vals(w, env, l),
        ),
        is_nil(w.region.cells@, list_end(w, l)),
        forall|i: int|
            0 <= i < vals(w, env, l).len() ==> (#[trigger] vals(w, env, l)[i]).idx
                < w.region.cells@.len(),
        in_flight(
            w,
            on_top(base, slot, Opcode::Apply, env, l, acc),
            list_cost(w, l),
            base.len(),
            slot,
        ),
    decreases l.idx, 0int,
{
    let cells = w.region.cells@;
    let m = on_top(base, slot, Opcode::Apply, env, l, acc);
    assert(m.frames.last() == FrameView { op: Opcode::Apply, env, expr: l, acc });
    assert(m.frames.drop_last() =~= base);
    match cells[l.idx as int].datum {
        Datum::Pair(e, r) => {
            let rest_vals = vals(w, env, r);
            if cells[e.idx as int].datum is Pair {
                let below = base.push(FrameView { op: Opcode::Apply, env, expr: r, acc });
                let inner = on_top(below, slot, Opcode::Eval, env, e, Seq::empty());
                assert(tick(w, m).frames =~= inner.frames);
                assert(tick(w, m) == inner);
                lemma_expression(w, env, below, slot, e);
                let v = val(w, env, e);
                let back = on_top(base, slot, Opcode::Apply, env, r, acc.push(v));
                assert(inner.frames.drop_last() =~= below);
                assert(below.drop_last() =~= base);
                assert(delivered(inner, v).frames =~= back.frames);
                assert(delivered(inner, v) == back);
                lemma_operands(w, env, base, slot, r, acc.push(v));
                assert(acc.push(v) + rest_vals =~= acc + (seq![v] + rest_vals));
                lemma_run_add(w, inner, cost(w, e), list_cost(w, r));
                lemma_in_flight_above(w, inner, cost(w, e), base.len(), slot);
                lemma_in_flight_add(w, inner, cost(w, e), list_cost(w, r), base.len(), slot);
                assert forall|i: int| 0 <= i < vals(w, env, l).len() implies (#[trigger] vals(
                    w,
                    env,
                    l,
                )[i]).idx < cells.len() by {
                    if i > 0 {
                        assert(vals(w, env, l)[i] == rest_vals[i - 1]);
                    }
                }
            } else {
                let v = val(w, env, e);
                let back = on_top(base, slot, Opcode::Apply, env, r, acc.push(v));
                assert(plain(w, env, e));
                assert(atom_ok(w, env, e));
                assert(atom_value(cells, w.outer, env, e) == Ok::<Found, crate::eval::EvalError>(
                    Found::Here(v),
                ));
                assert(next_move(m, w.capacity, w.region, w.outer, w.procs) == Move::Collect(r, v));
                assert(tick(w, m).frames =~= back.frames);
                assert(tick(w, m) == back);
                lemma_operands(w, env, base, slot, r, acc.push(v));
                assert(acc.push(v) + rest_vals =~= acc + (seq![v] + rest_vals));
                assert forall|i: int| 0 <= i < vals(w, env, l).len() implies (#[trigger] vals(
                    w,
                    env,
                    l,
                )[i]).idx < cells.len() by {
                    if i > 0 {
                        assert(vals(w, env, l)[i] == rest_vals[i - 1]);
                    } else {
                        assert(vals(w, env, l)[0] == v);
                    }
                }
            }
        },
        _ => {
            assert(acc + vals(w, env, l) =~= acc);
        },
    }
}

/// The evaluation of an expression takes exactly `cost` steps, whatever lies
/// below on the stack: after them its frame is gone and its value is with the
/// frame below, or in the slot where there is none; before each of them the
/// evaluation is in flight, so the slot is filled by the last step and by no
/// earlier one. The number depends on the expression alone, so it is the same
/// on every run.
pub proof fn lemma_expression(w: World, env: Value, base: Seq<FrameView>, slot: Slot, x: Value)
    requires
        answers_held(w),
        plain(w, env, x),
        base.len() + 1 + x.idx <= w.capacity,
    ensures
        run(w, on_top(base, slot, Opcode::Eval, env, x, Seq::empty()), cost(w, x)) == delivered(
            on_top(base, slot, Opcode::Eval, env, x, Seq::empty()),
            val(w, env, x),
        ),
        val(w, env, x).idx < w.region.cells@.len(),
        in_flight(
            w,
            on_top(base, slot, Opcode::Eval, env, x, Seq::empty()),
            cost(w, x),
            base.len(),
            slot,
        ),
    decreases x.idx, 1int,
{
    let cells = w.region.cells@;
    let m = on_top(base, slot, Opcode::Eval, env, x, Seq::empty());
    assert(m.frames.last() == FrameView { op: Opcode::Eval, env, expr: x, acc: Seq::empty() });
    assert(m.frames.drop_last() =~= base);
    if cells[x.idx as int].datum is Pair {
        let opened = on_top(base, slot, Opcode::Apply, env, x, Seq::empty());
        assert(tick(w, m).frames =~= opened.frames);
        assert(tick(w, m) == opened);
        lemma_operands(w, env, base, slot, x, Seq::empty());
        let vs = vals(w, env, x);
        assert(Seq::<Value>::empty() + vs =~= vs);
        let ready = on_top(base, slot, Opcode::Apply, env, list_end(w, x), vs);
        assert(ready.frames.last() == FrameView {
            op: Opcode::Apply,
            env,
            expr: list_end(w, x),
            acc: vs,
        });
        assert(ready.frames.drop_last() =~= base);
        let q = cells[vs[0].idx as int].datum->Native_0;
        let args = vs.subrange(1, vs.len() as int);
        assert(boundary_verdict(w.procs, cells, q, args) is Ok);
        let waiting = on_top(base, slot, Opcode::Await, env, list_end(w, x), vs);
        assert(after_move(Move::Call(q), ready).frames =~= waiting.frames);
        assert(waiting.frames.drop_last() =~= base);
        assert(tick(w, ready) == delivered(waiting, val(w, env, x)));
        assert(delivered(waiting, val(w, env, x)) == delivered(m, val(w, env, x)));
        lemma_run_add(w, opened, list_cost(w, x), 1);
        assert(in_flight(w, ready, 1, base.len(), slot)) by {
            assert(in_flight(w, tick(w, ready), 0, base.len(), slot));
        }
        lemma_in_flight_add(w, opened, list_cost(w, x), 1, base.len(), slot);
        assert(run(w, ready, 1) == tick(w, ready)) by {
            assert(run(w, tick(w, ready), 0) == tick(w, ready));
        }
        assert(run(w, m, cost(w, x)) == run(w, opened, (list_cost(w, x) + 1) as nat));
    } else {
        assert(run(w, m, 1) == tick(w, m)) by {
            assert(run(w, tick(w, m), 0) == tick(w, m));
        }
        assert(in_flight(w, m, 1, base.len(), slot)) by {
            assert(in_flight(w, tick(w, m), 0, base.len(), slot));
        }
    }
}

/// An application takes more steps than each of its operands that is itself
/// an application: the deeper expression runs strictly longer.
pub proof fn lemma_deeper_costs_more(w: World, l: Value, e: Value)
    requires
        operand_of(w, l, e),
        w.region.cells@[e.idx as int].datum is Pair,
    ensures
        list_cost(w, l) > cost(w, e),
        l.idx < w.region.cells@.len() && w.region.cells@[l.idx as int].datum is Pair ==> cost(w, l)
            > cost(w, e) + 2,
    decreases l.idx,
{
    match uncons(w.region.cells@, l) {
        Some((first, r)) => {
            if first != e {
                lemma_deeper_costs_more(w, r, e);
            }
        },
        None => {},
    }
}

/// Whether `e` is one of the operands from `l` on.
pub open spec fn operand_of(w: World, l: Value, e: Value) -> bool
    decreases l.idx,
{
    match uncons(w.region.cells@, l) {
        Some((first, r)) => first.idx < l.idx && r.idx < l.idx && (first == e || operand_of(
            w,
            r,
            e,
        )),
        None => false,
    }
}

} // verus!
