//! The evaluation engine: an explicit stack that the host advances one step
//! at a time. Between two steps nothing runs, so the host decides when, and
//! how often, evaluation goes on.

use vstd::prelude::*;
use crate::arith::integer_at;
use crate::bridge::{BoundaryError, Bridge, Shape, Signature, arg_ok, boundary_verdict};
use crate::value::{Cfg, Kind};
use crate::env::{
    EnvError, Found, bindings, chain_lookup, frame_at, is_frame, lemma_across_agrees,
    lookup_across, lookup_over,
};
use crate::queue::{QueueError, extends, transfer, tree_bytes, tree_of};
use crate::region::{Cell, Region, cell_ok};
use crate::symbol::{S_DEF, S_DO, S_FN, S_IF, S_QUOTE};
use crate::value::{Datum, Value};

verus! {

/// What a stack frame is waiting to do.
#[derive(Clone, Copy, PartialEq, Eq, Debug, Structural)]
pub enum Opcode {
    /// Evaluate the frame's expression.
    Eval,
    /// Evaluate the operands that are left, then apply the first of the
    /// results to the others.
    Apply,
    /// Choose between two branches by the value that arrived.
    Branch,
    /// Bind the frame's symbol to the value that arrived.
    Bind,
    /// Evaluate the expressions that are left, one after the other.
    Sequence,
    /// Wait for the host to answer a native call.
    Await,
}

/// Why an evaluation failed.
#[derive(Clone, Copy, PartialEq, Eq, Debug, Structural)]
pub enum EvalError {
    /// No frame of the environment binds the symbol.
    Unbound(u32),
    /// A special form or an operand list is not built as it must be.
    BadForm,
    /// The value in operator position is no procedure.
    NotCallable,
    /// An interpreted procedure got another number of arguments than it has
    /// parameters.
    WrongArity,
    /// A native call was turned away at the boundary.
    Boundary(BoundaryError),
    /// A frame has no room for a new binding.
    FrameFull,
    /// The region has too few bytes left.
    RegionExhausted,
    /// The stack has no room for another frame.
    StackOverflow,
    /// A handle designates nothing in the region, or an environment that is
    /// no frame.
    Dangling,
    /// The symbol is bound in the outer region to what cannot be copied: a
    /// procedure, a frame or an endpoint.
    Foreign,
}

/// Whether a failure is one that no evaluation can recover from: an
/// exhausted region, an overflowed stack, or a call that the boundary turned
/// away. Such a failure ends the thread that owns the evaluation; any other
/// fails the one expression only.
pub fn is_fatal(e: EvalError) -> (b: bool)
    ensures
        b == (e is RegionExhausted || e is StackOverflow || e is Boundary),
{
    match e {
        EvalError::RegionExhausted => true,
        EvalError::StackOverflow => true,
        EvalError::Boundary(_) => true,
        _ => false,
    }
}

/// Where the result of an evaluation arrives.
#[derive(Clone, Copy, PartialEq, Eq, Debug, Structural)]
pub enum Slot {
    /// No evaluation has finished since the last start.
    Pending,
    /// The evaluation resolved to this value.
    Done(Value),
    /// The evaluation failed.
    Failed(EvalError),
}

/// What a call of `step` tells the host.
#[derive(Debug)]
pub enum Step {
    /// No evaluation is in flight; nothing was done.
    Idle,
    /// One unit of work was done.
    Continue,
    /// The host is to run the native procedure with this number on these
    /// arguments, and to hand its result to `resume`.
    Call(u32, Vec<Value>),
    /// The evaluation waits for `resume`; nothing was done.
    Waiting,
}

/// One frame of the stack.
#[derive(Debug)]
pub struct StackFrame {
    pub op: Opcode,
    pub env: Value,
    pub expr: Value,
    pub acc: Vec<Value>,
}

/// A frame of the stack, as contracts see it.
pub struct FrameView {
    pub op: Opcode,
    pub env: Value,
    pub expr: Value,
    pub acc: Seq<Value>,
}

impl View for StackFrame {
    type V = FrameView;

    open spec fn view(&self) -> FrameView {
        FrameView { op: self.op, env: self.env, expr: self.expr, acc: self.acc@ }
    }
}

/// The stack and the result slot, as contracts see them.
pub struct Machine {
    pub frames: Seq<FrameView>,
    pub slot: Slot,
}

/// The evaluation stack, with the slot for the result of the evaluation in
/// flight.
#[derive(Debug)]
pub struct EvalStack {
    pub capacity: usize,
    pub frames: Vec<StackFrame>,
    pub slot: Slot,
}

impl View for EvalStack {
    type V = Machine;

    open spec fn view(&self) -> Machine {
        Machine { frames: self.frames@.map_values(|f: StackFrame| f@), slot: self.slot }
    }
}

/// What one step does. It is a function of the state before the step.
pub enum Move {
    /// Nothing: the stack is empty.
    Idle,
    /// Nothing: the top frame waits for the host.
    Waiting,
    /// The top frame has produced this value.
    Deliver(Value),
    /// The evaluation fails.
    Fail(EvalError),
    /// The top frame goes on with this opcode and expression, in its
    /// environment, with nothing accumulated.
    Retarget(Opcode, Value),
    /// The top frame becomes one with this opcode and expression that waits
    /// for the value of the third component, which a new frame evaluates.
    Fork(Opcode, Value, Value),
    /// The top frame keeps the first component as the operands that are left,
    /// and a new frame evaluates the second.
    Descend(Value, Value),
    /// The top frame keeps the first component as the operands that are left,
    /// and accumulates the second.
    Collect(Value, Value),
    /// A procedure with these parameters and this body is made, and delivered.
    Close(Value, Value),
    /// The interpreted procedure in operator position is entered.
    Enter(Value),
    /// The symbol is bound to the value in the top frame's environment, and
    /// the value delivered.
    Bind(u32, Value),
    /// The native procedure with this number is called.
    Call(u32),
    /// The top frame has produced this value of the outer region: a copy of
    /// it is made in the region and delivered.
    Import(Value),
    /// The top frame keeps the first component as the operands that are left,
    /// and accumulates a copy of the second, a value of the outer region.
    CollectImport(Value, Value),
}

/// Head and tail of the pair `l`.
pub open spec fn uncons(cells: Seq<Cell>, l: Value) -> Option<(Value, Value)> {
    if l.idx < cells.len() {
        match cells[l.idx as int].datum {
            Datum::Pair(a, b) => Some((a, b)),
            _ => None,
        }
    } else {
        None
    }
}

/// Whether `l` is the empty list.
pub open spec fn is_nil(cells: Seq<Cell>, l: Value) -> bool {
    l.idx < cells.len() && cells[l.idx as int].datum is Nil
}

/// The element of the list `l`, where it has exactly one.
pub open spec fn list1(cells: Seq<Cell>, l: Value) -> Option<Value> {
    match uncons(cells, l) {
        Some((a, rest)) => if is_nil(cells, rest) {
            Some(a)
        } else {
            None
        },
        None => None,
    }
}

/// The elements of the list `l`, where it has exactly two.
pub open spec fn list2(cells: Seq<Cell>, l: Value) -> Option<(Value, Value)> {
    match uncons(cells, l) {
        Some((a, rest)) => match list1(cells, rest) {
            Some(b) => Some((a, b)),
            None => None,
        },
        None => None,
    }
}

/// Every datum counts as true but the empty list and the boolean false.
pub open spec fn truthy(d: Datum) -> bool {
    !(d is Nil) && d != Datum::Bool(false)
}

/// The value of an expression that is no pair: a symbol resolves through the
/// environment, which may go on in the outer region; anything else is its own
/// value.
pub open spec fn atom_value(cells: Seq<Cell>, outer: Seq<Cell>, env: Value, x: Value) -> Result<
    Found,
    EvalError,
> {
    match cells[x.idx as int].datum {
        Datum::Symbol(s) => if !is_frame(cells, env.idx as int) {
            Err(EvalError::Dangling)
        } else {
            match lookup_across(cells, outer, env.idx as int, s) {
                Some(found) => Ok(found),
                None => Err(EvalError::Unbound(s)),
            }
        },
        _ => Ok(Found::Here(x)),
    }
}

/// What stands against copying the value `q` of the outer region into a
/// region with `free` bytes left, if anything does.
pub open spec fn import_failure(outer: Seq<Cell>, q: Value, free: int) -> Option<EvalError> {
    if tree_of(outer, q.idx as int) is None {
        Some(EvalError::Foreign)
    } else if free < tree_bytes(tree_of(outer, q.idx as int)->0) {
        Some(EvalError::RegionExhausted)
    } else {
        None
    }
}

/// Whether `after` is `before` with a copy of the value `q` of the outer
/// region added, the copy's root last.
pub open spec fn brought(before: Region, after: Region, outer: Seq<Cell>, q: Value) -> bool {
    &&& tree_of(outer, q.idx as int) is Some
    &&& after.capacity == before.capacity
    &&& after.cursor == before.cursor + tree_bytes(tree_of(outer, q.idx as int)->0)
    &&& extends(before.cells@, after.cells@)
    &&& after.cells@.len() > before.cells@.len()
    &&& tree_of(after.cells@, after.cells@.len() - 1) == tree_of(outer, q.idx as int)
}

/// The last value of a region.
pub open spec fn last_value(r: Region) -> Value {
    Value { idx: (r.cells@.len() - 1) as usize }
}

/// The symbols of a parameter list, in order, or `None` where `p` is no list
/// of symbols.
pub open spec fn param_keys(cells: Seq<Cell>, p: int) -> Option<Seq<u32>>
    decreases p,
{
    if 0 <= p < cells.len() {
        match cells[p].datum {
            Datum::Nil => Some(Seq::empty()),
            Datum::Pair(s, rest) => if s.idx < p && rest.idx < p
                && cells[s.idx as int].datum is Symbol {
                match param_keys(cells, rest.idx as int) {
                    Some(ks) => Some(seq![cells[s.idx as int].datum->Symbol_0] + ks),
                    None => None,
                }
            } else {
                None
            },
            _ => None,
        }
    } else {
        None
    }
}

/// The bindings that result from binding each key to the value at its
/// position, one after the other.
pub open spec fn bind_all(keys: Seq<u32>, vals: Seq<Value>) -> Map<u32, Value>
    decreases keys.len(),
{
    if keys.len() == 0 || vals.len() == 0 {
        Map::empty()
    } else {
        bind_all(keys.drop_last(), vals.drop_last()).insert(keys.last(), vals.last())
    }
}

/// The arguments of an application: what was accumulated after the operator.
pub open spec fn args_of(top: FrameView) -> Seq<Value> {
    top.acc.subrange(1, top.acc.len() as int)
}

/// What a step does to a frame that evaluates an expression.
pub open spec fn eval_move(
    cells: Seq<Cell>,
    outer: Seq<Cell>,
    top: FrameView,
    room: bool,
    free: int,
) -> Move {
    let x = top.expr;
    if x.idx >= cells.len() {
        Move::Fail(EvalError::Dangling)
    } else {
        match cells[x.idx as int].datum {
            Datum::Pair(h, t) => {
                let head = if h.idx < cells.len() {
                    cells[h.idx as int].datum
                } else {
                    Datum::Nil
                };
                if head == Datum::Symbol(S_QUOTE) {
                    match list1(cells, t) {
                        Some(q) => Move::Deliver(q),
                        None => Move::Fail(EvalError::BadForm),
                    }
                } else if head == Datum::Symbol(S_IF) {
                    match uncons(cells, t) {
                        Some((c, branches)) => if room {
                            Move::Fork(Opcode::Branch, branches, c)
                        } else {
                            Move::Fail(EvalError::StackOverflow)
                        },
                        None => Move::Fail(EvalError::BadForm),
                    }
                } else if head == Datum::Symbol(S_DEF) {
                    match list2(cells, t) {
                        Some((name, val)) => if name.idx < cells.len()
                            && cells[name.idx as int].datum is Symbol {
                            if room {
                                Move::Fork(Opcode::Bind, name, val)
                            } else {
                                Move::Fail(EvalError::StackOverflow)
                            }
                        } else {
                            Move::Fail(EvalError::BadForm)
                        },
                        None => Move::Fail(EvalError::BadForm),
                    }
                } else if head == Datum::Symbol(S_FN) {
                    match list2(cells, t) {
                        Some((params, body)) => if !is_frame(cells, top.env.idx as int) {
                            Move::Fail(EvalError::Dangling)
                        } else if free < 32 {
                            Move::Fail(EvalError::RegionExhausted)
                        } else {
                            Move::Close(params, body)
                        },
                        None => Move::Fail(EvalError::BadForm),
                    }
                } else if head == Datum::Symbol(S_DO) {
                    match uncons(cells, t) {
                        Some(_) => Move::Retarget(Opcode::Sequence, t),
                        None => Move::Fail(EvalError::BadForm),
                    }
                } else {
                    Move::Retarget(Opcode::Apply, x)
                }
            },
            _ => match atom_value(cells, outer, top.env, x) {
                Ok(Found::Here(v)) => Move::Deliver(v),
                Ok(Found::Outer(q)) => match import_failure(outer, q, free) {
                    Some(e) => Move::Fail(e),
                    None => Move::Import(q),
                },
                Err(e) => Move::Fail(e),
            },
        }
    }
}

/// What a step does when all operands are evaluated: the call of a native
/// procedure is checked at the boundary, an interpreted procedure is entered
/// where its parameters and the arguments agree.
pub open spec fn call_move(
    cells: Seq<Cell>,
    procs: Seq<Signature>,
    top: FrameView,
    free: int,
) -> Move {
    if top.acc.len() == 0 {
        Move::Fail(EvalError::BadForm)
    } else {
        let f = top.acc[0];
        let args = args_of(top);
        if f.idx >= cells.len() {
            Move::Fail(EvalError::Dangling)
        } else {
            match cells[f.idx as int].datum {
                Datum::Native(p, _) => match boundary_verdict(procs, cells, p, args) {
                    Ok(_) => Move::Call(p),
                    Err(b) => Move::Fail(EvalError::Boundary(b)),
                },
                Datum::Lambda(params, _, _) => match param_keys(cells, params.idx as int) {
                    None => Move::Fail(EvalError::BadForm),
                    Some(keys) => if keys.len() != args.len() {
                        Move::Fail(EvalError::WrongArity)
                    } else if exists|i: int|
                        0 <= i < args.len() && (#[trigger] args[i]).idx >= cells.len() {
                        Move::Fail(EvalError::Dangling)
                    } else if free < 16 + 16 * keys.len() {
                        Move::Fail(EvalError::RegionExhausted)
                    } else {
                        Move::Enter(f)
                    },
                },
                _ => Move::Fail(EvalError::NotCallable),
            }
        }
    }
}

/// What a step does to a frame that collects operands.
pub open spec fn apply_move(
    cells: Seq<Cell>,
    outer: Seq<Cell>,
    procs: Seq<Signature>,
    top: FrameView,
    room: bool,
    free: int,
) -> Move {
    let r = top.expr;
    if r.idx >= cells.len() {
        Move::Fail(EvalError::Dangling)
    } else {
        match cells[r.idx as int].datum {
            Datum::Pair(x, rest) => if x.idx >= cells.len() {
                Move::Fail(EvalError::Dangling)
            } else if cells[x.idx as int].datum is Pair {
                if room {
                    Move::Descend(rest, x)
                } else {
                    Move::Fail(EvalError::StackOverflow)
                }
            } else {
                match atom_value(cells, outer, top.env, x) {
                    Ok(Found::Here(v)) => Move::Collect(rest, v),
                    Ok(Found::Outer(q)) => match import_failure(outer, q, free) {
                        Some(e) => Move::Fail(e),
                        None => Move::CollectImport(rest, q),
                    },
                    Err(e) => Move::Fail(e),
                }
            },
            Datum::Nil => call_move(cells, procs, top, free),
            _ => Move::Fail(EvalError::BadForm),
        }
    }
}

/// What a step does to a frame that chooses a branch.
pub open spec fn branch_move(cells: Seq<Cell>, top: FrameView) -> Move {
    if top.acc.len() != 1 {
        Move::Fail(EvalError::BadForm)
    } else if top.acc[0].idx >= cells.len() {
        Move::Fail(EvalError::Dangling)
    } else {
        match list2(cells, top.expr) {
            Some((a, b)) => Move::Retarget(
                Opcode::Eval,
                if truthy(cells[top.acc[0].idx as int].datum) {
                    a
                } else {
                    b
                },
            ),
            None => Move::Fail(EvalError::BadForm),
        }
    }
}

/// What a step does to a frame that evaluates expressions in order: the last
/// one takes the frame's place, each of the others is evaluated by a new
/// frame, and its value dropped.
pub open spec fn seq_move(cells: Seq<Cell>, top: FrameView, room: bool) -> Move {
    match uncons(cells, top.expr) {
        Some((x, rest)) => if is_nil(cells, rest) {
            Move::Retarget(Opcode::Eval, x)
        } else if room {
            Move::Fork(Opcode::Sequence, rest, x)
        } else {
            Move::Fail(EvalError::StackOverflow)
        },
        None => Move::Fail(EvalError::BadForm),
    }
}

/// What a step does to a frame that binds a symbol.
pub open spec fn bind_move(cells: Seq<Cell>, top: FrameView) -> Move {
    if top.acc.len() != 1 {
        Move::Fail(EvalError::BadForm)
    } else if top.expr.idx >= cells.len() {
        Move::Fail(EvalError::Dangling)
    } else {
        match cells[top.expr.idx as int].datum {
            Datum::Symbol(k) => if !is_frame(cells, top.env.idx as int) || top.acc[0].idx
                >= cells.len() {
                Move::Fail(EvalError::Dangling)
            } else if !bindings(frame_at(cells, top.env.idx as int)).contains_key(k) && frame_at(
                cells,
                top.env.idx as int,
            ).keys@.len() >= frame_at(cells, top.env.idx as int).capacity {
                Move::Fail(EvalError::FrameFull)
            } else {
                Move::Bind(k, top.acc[0])
            },
            _ => Move::Fail(EvalError::BadForm),
        }
    }
}

/// What the next step does, given the stack, its capacity, the region, the
/// cells of the outer region and the registered native procedures.
pub open spec fn next_move(
    m: Machine,
    capacity: usize,
    region: Region,
    outer: Seq<Cell>,
    procs: Seq<Signature>,
) -> Move {
    if m.frames.len() == 0 {
        Move::Idle
    } else {
        let top = m.frames.last();
        let room = m.frames.len() < capacity;
        let free = region.capacity - region.cursor;
        match top.op {
            Opcode::Await => Move::Waiting,
            Opcode::Eval => eval_move(region.cells@, outer, top, room, free),
            Opcode::Apply => apply_move(region.cells@, outer, procs, top, room, free),
            Opcode::Branch => branch_move(region.cells@, top),
            Opcode::Bind => bind_move(region.cells@, top),
            Opcode::Sequence => seq_move(region.cells@, top, room),
        }
    }
}

/// The machine after its top frame has produced `v`: the frame is gone, and
/// the value is with the frame below, or in the slot where there is none.
pub open spec fn delivered(m: Machine, v: Value) -> Machine {
    let rest = m.frames.drop_last();
    if rest.len() == 0 {
        Machine { frames: rest, slot: Slot::Done(v) }
    } else {
        let below = rest.last();
        Machine {
            frames: rest.drop_last().push(
                FrameView {
                    op: below.op,
                    env: below.env,
                    expr: below.expr,
                    acc: below.acc.push(v),
                },
            ),
            slot: m.slot,
        }
    }
}

/// The machine after a failure: no frame is left, and the slot says why.
pub open spec fn failed(e: EvalError) -> Machine {
    Machine { frames: Seq::empty(), slot: Slot::Failed(e) }
}

/// The machine with `top` in place of its top frame.
pub open spec fn with_top(m: Machine, top: FrameView) -> Machine {
    Machine { frames: m.frames.drop_last().push(top), slot: m.slot }
}

/// The machine with one more frame, which evaluates `expr` in `env`.
pub open spec fn with_child(m: Machine, env: Value, expr: Value) -> Machine {
    Machine {
        frames: m.frames.push(FrameView { op: Opcode::Eval, env, expr, acc: Seq::empty() }),
        slot: m.slot,
    }
}

/// Whether `post` and `after` are what the move `mv` makes of `pre` and
/// `before`.
pub open spec fn moved(
    mv: Move,
    pre: Machine,
    before: Region,
    outer: Seq<Cell>,
    post: Machine,
    after: Region,
) -> bool {
    let top = pre.frames.last();
    match mv {
        Move::Idle => post == pre && after == before,
        Move::Waiting => post == pre && after == before,
        Move::Deliver(v) => post == delivered(pre, v) && after == before,
        Move::Fail(e) => post == failed(e) && after == before,
        Move::Retarget(op, x) => post == with_top(
            pre,
            FrameView { op, env: top.env, expr: x, acc: Seq::empty() },
        ) && after == before,
        Move::Fork(op, x, child) => post == with_child(
            with_top(pre, FrameView { op, env: top.env, expr: x, acc: Seq::empty() }),
            top.env,
            child,
        ) && after == before,
        Move::Descend(rest, child) => post == with_child(
            with_top(pre, FrameView { op: top.op, env: top.env, expr: rest, acc: top.acc }),
            top.env,
            child,
        ) && after == before,
        Move::Collect(rest, v) => post == with_top(
            pre,
            FrameView { op: top.op, env: top.env, expr: rest, acc: top.acc.push(v) },
        ) && after == before,
        Move::Close(params, body) => {
            &&& after.capacity == before.capacity
            &&& after.cursor == before.cursor + 32
            &&& after.cells@ == before.cells@.push(
                Cell {
                    offset: before.cursor,
                    size: 32,
                    datum: Datum::Lambda(params, body, top.env),
                },
            )
            &&& post == delivered(pre, Value { idx: before.cells@.len() as usize })
        },
        Move::Enter(f) => {
            let params = before.cells@[f.idx as int].datum->Lambda_0;
            let body = before.cells@[f.idx as int].datum->Lambda_1;
            let fenv = before.cells@[f.idx as int].datum->Lambda_2;
            let keys = param_keys(before.cells@, params.idx as int)->0;
            let n = before.cells@.len() as int;
            &&& after.capacity == before.capacity
            &&& after.cursor == before.cursor + 16 + 16 * keys.len()
            &&& after.cells@.len() == n + 1
            &&& forall|i: int| 0 <= i < n ==> after.cells@[i] == before.cells@[i]
            &&& is_frame(after.cells@, n)
            &&& after.cells@[n].offset == before.cursor
            &&& after.cells@[n].size == 16 + 16 * keys.len()
            &&& frame_at(after.cells@, n).capacity == keys.len()
            &&& frame_at(after.cells@, n).parent == Some(fenv)
            &&& bindings(frame_at(after.cells@, n)) == bind_all(keys, args_of(top))
            &&& post == with_top(
                pre,
                FrameView {
                    op: Opcode::Eval,
                    env: Value { idx: n as usize },
                    expr: body,
                    acc: Seq::empty(),
                },
            )
        },
        Move::Bind(k, v) => {
            let e = top.env.idx as int;
            &&& after.capacity == before.capacity
            &&& after.cursor == before.cursor
            &&& after.cells@.len() == before.cells@.len()
            &&& forall|i: int|
                0 <= i < before.cells@.len() && i != e ==> after.cells@[i] == before.cells@[i]
            &&& is_frame(after.cells@, e)
            &&& after.cells@[e].offset == before.cells@[e].offset
            &&& after.cells@[e].size == before.cells@[e].size
            &&& frame_at(after.cells@, e).capacity == frame_at(before.cells@, e).capacity
            &&& frame_at(after.cells@, e).parent == frame_at(before.cells@, e).parent
            &&& bindings(frame_at(after.cells@, e)) == bindings(frame_at(before.cells@, e)).insert(
                k,
                v,
            )
            &&& post == delivered(pre, v)
        },
        Move::Call(_) => post == with_top(
            pre,
            FrameView { op: Opcode::Await, env: top.env, expr: top.expr, acc: top.acc },
        ) && after == before,
        Move::Import(q) => brought(before, after, outer, q) && post == delivered(
            pre,
            last_value(after),
        ),
        Move::CollectImport(rest, q) => brought(before, after, outer, q) && post == with_top(
            pre,
            FrameView {
                op: top.op,
                env: top.env,
                expr: rest,
                acc: top.acc.push(last_value(after)),
            },
        ),
    }
}

/// Whether `res` is what a step that makes the move `mv` tells the host.
pub open spec fn reported(mv: Move, pre: Machine, res: Step) -> bool {
    match mv {
        Move::Idle => res is Idle,
        Move::Waiting => res is Waiting,
        Move::Call(p) => res matches Step::Call(q, args) && q == p && args@ == args_of(
            pre.frames.last(),
        ),
        _ => res is Continue,
    }
}

/// Whether `post`, `after` and `res` are the outcome of one step from `pre`
/// and `before`.
pub open spec fn stepped(
    pre: EvalStack,
    before: Region,
    outer: Seq<Cell>,
    procs: Seq<Signature>,
    post: EvalStack,
    after: Region,
    res: Step,
) -> bool {
    let mv = next_move(pre@, pre.capacity, before, outer, procs);
    &&& post.capacity == pre.capacity
    &&& moved(mv, pre@, before, outer, post@, after)
    &&& reported(mv, pre@, res)
}

/// Why `start` refused.
#[derive(Clone, Copy, PartialEq, Eq, Debug, Structural)]
pub enum StartError {
    /// An evaluation is in flight.
    Busy,
    /// The stack was made for no frame at all.
    StackOverflow,
}

/// Head and tail of the pair `l`.
fn split_pair(region: &Region, l: Value) -> (r: Option<(Value, Value)>)
    ensures
        r == uncons(region.cells@, l),
{
    if l.idx >= region.cells.len() {
        return None;
    }
    match &region.cells[l.idx].datum {
        Datum::Pair(a, b) => Some((*a, *b)),
        _ => None,
    }
}

/// Whether `l` is the empty list.
fn holds_nil(region: &Region, l: Value) -> (r: bool)
    ensures
        r == is_nil(region.cells@, l),
{
    if l.idx >= region.cells.len() {
        return false;
    }
    match &region.cells[l.idx].datum {
        Datum::Nil => true,
        _ => false,
    }
}

/// The element of the list `l`, where it has exactly one.
fn single(region: &Region, l: Value) -> (r: Option<Value>)
    ensures
        r == list1(region.cells@, l),
{
    match split_pair(region, l) {
        Some((a, rest)) => if holds_nil(region, rest) {
            Some(a)
        } else {
            None
        },
        None => None,
    }
}

/// The elements of the list `l`, where it has exactly two.
fn couple(region: &Region, l: Value) -> (r: Option<(Value, Value)>)
    ensures
        r == list2(region.cells@, l),
{
    match split_pair(region, l) {
        Some((a, rest)) => match single(region, rest) {
            Some(b) => Some((a, b)),
            None => None,
        },
        None => None,
    }
}

/// The symbol that `v` holds, if it holds one.
fn symbol_at(region: &Region, v: Value) -> (r: Option<u32>)
    ensures
        match r {
            Some(s) => v.idx < region.cells@.len() && region.cells@[v.idx as int].datum
                == Datum::Symbol(s),
            None => v.idx >= region.cells@.len() || !(region.cells@[v.idx as int].datum is Symbol),
        },
{
    if v.idx >= region.cells.len() {
        return None;
    }
    match &region.cells[v.idx].datum {
        Datum::Symbol(s) => Some(*s),
        _ => None,
    }
}

/// The value of an expression that is no pair.
fn eval_atom(region: &Region, outer: &Region, env: Value, x: Value) -> (r: Result<
    Found,
    EvalError,
>)
    requires
        region.wf(),
        outer.wf(),
        region.holds(x),
    ensures
        r == atom_value(region.cells@, outer.cells@, env, x),
        r matches Ok(Found::Here(v)) ==> region.holds(v),
        r matches Ok(Found::Outer(q)) ==> outer.holds(q),
{
    match &region.cells[x.idx].datum {
        Datum::Symbol(s) => match lookup_over(region, outer, env, *s) {
            Ok(found) => Ok(found),
            Err(EnvError::Unbound) => Err(EvalError::Unbound(*s)),
            Err(_) => Err(EvalError::Dangling),
        },
        _ => Ok(Found::Here(x)),
    }
}

/// Copies the value `q` of the outer region into the region.
fn import(region: &mut Region, outer: &Region, q: Value) -> (r: Result<Value, EvalError>)
    requires
        old(region).wf(),
        outer.wf(),
    ensures
        final(region).wf(),
        final(region).capacity == old(region).capacity,
        match r {
            Ok(w) => {
                &&& import_failure(
                    outer.cells@,
                    q,
                    old(region).capacity - old(region).cursor,
                ) is None
                &&& brought(*old(region), *final(region), outer.cells@, q)
                &&& w == last_value(*final(region))
            },
            Err(e) => {
                &&& *final(region) == *old(region)
                &&& import_failure(outer.cells@, q, old(region).capacity - old(region).cursor)
                    == Some(e)
            },
        },
{
    match transfer(outer, q, region) {
        Ok(w) => Ok(w),
        Err(QueueError::NotSendable) => Err(EvalError::Foreign),
        Err(_) => Err(EvalError::RegionExhausted),
    }
}

/// The symbols of the parameter list `params`, if it is a list of symbols.
fn collect_keys(region: &Region, params: Value) -> (r: Option<Vec<u32>>)
    requires
        region.wf(),
    ensures
        match r {
            Some(ks) => param_keys(region.cells@, params.idx as int) == Some(ks@),
            None => param_keys(region.cells@, params.idx as int) is None,
        },
{
    let mut out: Vec<u32> = Vec::new();
    let mut cur: Value = params;
    proof {
        match param_keys(region.cells@, params.idx as int) {
            Some(ks) => {
                assert(out@ + ks =~= ks);
            },
            None => {},
        }
    }
    loop
        invariant
            region.wf(),
            param_keys(region.cells@, params.idx as int) == match param_keys(
                region.cells@,
                cur.idx as int,
            ) {
                Some(ks) => Some(out@ + ks),
                None => None,
            },
        decreases cur.idx,
    {
        if cur.idx >= region.cells.len() {
            return None;
        }
        proof {
            assert(cell_ok(region.cells@, cur.idx as int));
        }
        match &region.cells[cur.idx].datum {
            Datum::Nil => {
                proof {
                    assert(out@ + Seq::<u32>::empty() =~= out@);
                }
                return Some(out);
            },
            Datum::Pair(s, rest) => {
                match symbol_at(region, *s) {
                    Some(k) => {
                        proof {
                            match param_keys(region.cells@, rest.idx as int) {
                                Some(ks) => {
                                    assert(out@.push(k) + ks =~= out@ + (seq![k] + ks));
                                },
                                None => {},
                            }
                        }
                        out.push(k);
                        cur = *rest;
                    },
                    None => {
                        return None;
                    },
                }
            },
            _ => {
                return None;
            },
        }
    }
}

/// The accumulated values after the first.
fn tail_values(acc: &Vec<Value>) -> (out: Vec<Value>)
    requires
        acc@.len() > 0,
    ensures
        out@ == acc@.subrange(1, acc@.len() as int),
{
    let mut out: Vec<Value> = Vec::new();
    let n: usize = acc.len();
    let mut i: usize = 1;
    while i < n
        invariant
            n == acc@.len(),
            1 <= i <= n,
            out@ == acc@.subrange(1, i as int),
        decreases n - i,
    {
        out.push(acc[i]);
        proof {
            assert(out@ =~= acc@.subrange(1, i + 1));
        }
        i = i + 1;
    }
    out
}

/// Whether the region holds every one of `vals`.
fn holds_all(region: &Region, vals: &Vec<Value>) -> (ok: bool)
    ensures
        ok == !(exists|i: int|
            0 <= i < vals@.len() && (#[trigger] vals@[i]).idx >= region.cells@.len()),
{
    let n: usize = vals.len();
    let mut i: usize = 0;
    while i < n
        invariant
            n == vals@.len(),
            i <= n,
            forall|j: int| 0 <= j < i ==> (#[trigger] vals@[j]).idx < region.cells@.len(),
        decreases n - i,
    {
        if vals[i].idx >= region.cells.len() {
            return false;
        }
        i = i + 1;
    }
    true
}

/// Appending one key and one value to what is bound adds one binding.
proof fn lemma_bind_all_step(keys: Seq<u32>, vals: Seq<Value>, i: int)
    requires
        0 <= i < keys.len(),
        i < vals.len(),
    ensures
        bind_all(keys.subrange(0, i + 1), vals.subrange(0, i + 1)) == bind_all(
            keys.subrange(0, i),
            vals.subrange(0, i),
        ).insert(keys[i], vals[i]),
{
    assert(keys.subrange(0, i + 1).drop_last() =~= keys.subrange(0, i));
    assert(vals.subrange(0, i + 1).drop_last() =~= vals.subrange(0, i));
}

/// Why `resume` refused.
#[derive(Clone, Copy, PartialEq, Eq, Debug, Structural)]
pub enum ResumeError {
    /// No native call is waiting for an answer.
    NotWaiting,
}

impl EvalStack {
    /// The stack's invariant: it holds no more frames than it was made for.
    pub open spec fn wf(&self) -> bool {
        self.frames@.len() <= self.capacity
    }

    /// An empty stack with room for `capacity` frames.
    pub fn new(capacity: usize) -> (s: EvalStack)
        ensures
            s.wf(),
            s.capacity == capacity,
            s@.frames.len() == 0,
            s@.slot == Slot::Pending,
    {
        EvalStack { capacity, frames: Vec::new(), slot: Slot::Pending }
    }

    /// Whether no evaluation is in flight.
    pub fn is_empty(&self) -> (b: bool)
        ensures
            b == (self@.frames.len() == 0),
    {
        self.frames.len() == 0
    }

    /// Number of frames on the stack.
    pub fn depth(&self) -> (n: usize)
        ensures
            n == self@.frames.len(),
    {
        self.frames.len()
    }

    /// The result slot.
    pub fn result(&self) -> (s: Slot)
        ensures
            s == self@.slot,
    {
        self.slot
    }

    /// Begins the evaluation of `expr` in `env`: the slot becomes pending and
    /// the stack holds the one frame that evaluates `expr`. Fails with `Busy`
    /// where an evaluation is in flight, else with `StackOverflow` where the
    /// stack has room for no frame; a failed call changes nothing.
    pub fn start(&mut self, env: Value, expr: Value) -> (res: Result<(), StartError>)
        requires
            old(self).wf(),
        ensures
            final(self).wf(),
            final(self).capacity == old(self).capacity,
            match res {
                Ok(_) => {
                    &&& old(self)@.frames.len() == 0
                    &&& old(self).capacity > 0
                    &&& final(self)@ == (Machine {
                        frames: seq![
                            FrameView { op: Opcode::Eval, env, expr, acc: Seq::empty() },
                        ],
                        slot: Slot::Pending,
                    })
                },
                Err(e) => {
                    &&& final(self)@ == old(self)@
                    &&& e == StartError::Busy <==> old(self)@.frames.len() > 0
                    &&& e == StartError::StackOverflow <==> old(self)@.frames.len() == 0 && old(
                        self,
                    ).capacity == 0
                },
            },
    {
        if self.frames.len() > 0 {
            return Err(StartError::Busy);
        }
        if self.capacity == 0 {
            return Err(StartError::StackOverflow);
        }
        self.slot = Slot::Pending;
        self.frames.push(StackFrame { op: Opcode::Eval, env, expr, acc: Vec::new() });
        proof {
            assert(self@.frames =~= seq![
                FrameView { op: Opcode::Eval, env, expr, acc: Seq::empty() },
            ]);
        }
        Ok(())
    }

    /// The top frame has produced `v`.
    fn deliver(&mut self, v: Value)
        requires
            old(self).wf(),
            old(self)@.frames.len() > 0,
        ensures
            final(self).wf(),
            final(self).capacity == old(self).capacity,
            final(self)@ == delivered(old(self)@, v),
    {
        self.frames.pop();
        let n: usize = self.frames.len();
        if n == 0 {
            self.slot = Slot::Done(v);
        } else {
            self.frames[n - 1].acc.push(v);
        }
        proof {
            assert(self@.frames =~= delivered(old(self)@, v).frames);
        }
    }

    /// The evaluation fails with `e`.
    fn fail(&mut self, e: EvalError)
        requires
            old(self).wf(),
        ensures
            final(self).wf(),
            final(self).capacity == old(self).capacity,
            final(self)@ == failed(e),
    {
        self.frames.clear();
        self.slot = Slot::Failed(e);
        proof {
            assert(self@.frames =~= failed(e).frames);
        }
    }

    /// Puts a frame without accumulated values in place of the top frame.
    fn retarget(&mut self, op: Opcode, env: Value, expr: Value)
        requires
            old(self).wf(),
            old(self)@.frames.len() > 0,
        ensures
            final(self).wf(),
            final(self).capacity == old(self).capacity,
            final(self)@ == with_top(
                old(self)@,
                FrameView { op, env, expr, acc: Seq::empty() },
            ),
    {
        let n: usize = self.frames.len();
        self.frames[n - 1] = StackFrame { op, env, expr, acc: Vec::new() };
        proof {
            assert(self@.frames =~= with_top(
                old(self)@,
                FrameView { op, env, expr, acc: Seq::empty() },
            ).frames);
        }
    }

    /// Pushes a frame that evaluates `expr` in `env`.
    fn push_child(&mut self, env: Value, expr: Value)
        requires
            old(self)@.frames.len() < old(self).capacity,
        ensures
            final(self).wf(),
            final(self).capacity == old(self).capacity,
            final(self)@ == with_child(old(self)@, env, expr),
    {
        self.frames.push(StackFrame { op: Opcode::Eval, env, expr, acc: Vec::new() });
        proof {
            assert(self@.frames =~= with_child(old(self)@, env, expr).frames);
        }
    }

    /// One step of a frame that evaluates an expression.
    fn step_eval(&mut self, region: &mut Region, outer: &Region, bridge: &Bridge) -> (res: Step)
        requires
            old(self).wf(),
            old(region).wf(),
            outer.wf(),
            old(self)@.frames.len() > 0,
            old(self)@.frames.last().op == Opcode::Eval,
        ensures
            final(self).wf(),
            final(region).wf(),
            stepped(
                *old(self),
                *old(region),
                outer.cells@,
                bridge.procs@,
                *final(self),
                *final(region),
                res,
            ),
    {
        let n: usize = self.frames.len();
        let x: Value = self.frames[n - 1].expr;
        let env: Value = self.frames[n - 1].env;
        let room: bool = n < self.capacity;
        proof {
            assert(old(self)@.frames.last() == old(self).frames@[n - 1]@);
        }
        if x.idx >= region.cells.len() {
            self.fail(EvalError::Dangling);
            return Step::Continue;
        }
        proof {
            assert(cell_ok(region.cells@, x.idx as int));
        }
        let parts: Option<(Value, Value)> = split_pair(region, x);
        match parts {
            None => {
                match eval_atom(region, outer, env, x) {
                    Ok(Found::Here(v)) => self.deliver(v),
                    Ok(Found::Outer(q)) => match import(region, outer, q) {
                        Ok(w) => self.deliver(w),
                        Err(e) => self.fail(e),
                    },
                    Err(e) => self.fail(e),
                }
            },
            Some((h, t)) => {
                let head: Option<u32> = symbol_at(region, h);
                if head == Some(S_QUOTE) {
                    match single(region, t) {
                        Some(q) => self.deliver(q),
                        None => self.fail(EvalError::BadForm),
                    }
                } else if head == Some(S_IF) {
                    match split_pair(region, t) {
                        Some((c, branches)) => {
                            if room {
                                self.retarget(Opcode::Branch, env, branches);
                                self.push_child(env, c);
                            } else {
                                self.fail(EvalError::StackOverflow);
                            }
                        },
                        None => self.fail(EvalError::BadForm),
                    }
                } else if head == Some(S_DEF) {
                    match couple(region, t) {
                        Some((name, val)) => {
                            if symbol_at(region, name).is_some() {
                                if room {
                                    self.retarget(Opcode::Bind, env, name);
                                    self.push_child(env, val);
                                } else {
                                    self.fail(EvalError::StackOverflow);
                                }
                            } else {
                                self.fail(EvalError::BadForm);
                            }
                        },
                        None => self.fail(EvalError::BadForm),
                    }
                } else if head == Some(S_FN) {
                    match couple(region, t) {
                        Some((params, body)) => {
                            let env_ok: bool = match region.get(env) {
                                Some(Datum::Frame(_)) => true,
                                _ => false,
                            };
                            if !env_ok {
                                self.fail(EvalError::Dangling);
                            } else if region.capacity - region.cursor < 32 {
                                self.fail(EvalError::RegionExhausted);
                            } else {
                                proof {
                                    assert(cell_ok(region.cells@, t.idx as int));
                                    let rest = region.cells@[t.idx as int].datum->Pair_1;
                                    assert(cell_ok(region.cells@, rest.idx as int));
                                }
                                match region.allocate(Datum::Lambda(params, body, env)) {
                                    Ok(v) => self.deliver(v),
                                    Err(_) => {
                                        proof {
                                            assert(false);
                                        }
                                    },
                                }
                            }
                        },
                        None => self.fail(EvalError::BadForm),
                    }
                } else if head == Some(S_DO) {
                    match split_pair(region, t) {
                        Some(_) => self.retarget(Opcode::Sequence, env, t),
                        None => self.fail(EvalError::BadForm),
                    }
                } else {
                    self.retarget(Opcode::Apply, env, x);
                }
            },
        }
        Step::Continue
    }
    /// Enters the interpreted procedure in operator position: a new frame,
    /// whose parent is the procedure's defining frame, binds the parameters
    /// to the arguments, and the body is evaluated in it.
    fn enter(
        &mut self,
        region: &mut Region,
        outer: &Region,
        bridge: &Bridge,
        params: Value,
        body: Value,
        fenv: Value,
    ) -> (res: Step)
        requires
            old(self).wf(),
            old(region).wf(),
            outer.wf(),
            old(self)@.frames.len() > 0,
            old(self)@.frames.last().op == Opcode::Apply,
            is_nil(old(region).cells@, old(self)@.frames.last().expr),
            old(self)@.frames.last().acc.len() > 0,
            old(region).holds(old(self)@.frames.last().acc[0]),
            old(region).datum(old(self)@.frames.last().acc[0]) == Datum::Lambda(params, body, fenv),
        ensures
            final(self).wf(),
            final(region).wf(),
            stepped(
                *old(self),
                *old(region),
                outer.cells@,
                bridge.procs@,
                *final(self),
                *final(region),
                res,
            ),
    {
        let n: usize = self.frames.len();
        proof {
            assert(old(self)@.frames.last() == old(self).frames@[n - 1]@);
            let f = old(self)@.frames.last().acc[0];
            assert(cell_ok(region.cells@, f.idx as int));
        }
        let keys: Vec<u32> = match collect_keys(region, params) {
            Some(k) => k,
            None => {
                self.fail(EvalError::BadForm);
                return Step::Continue;
            },
        };
        let args: Vec<Value> = tail_values(&self.frames[n - 1].acc);
        let count: usize = keys.len();
        if count != args.len() {
            self.fail(EvalError::WrongArity);
            return Step::Continue;
        }
        if !holds_all(region, &args) {
            self.fail(EvalError::Dangling);
            return Step::Continue;
        }
        let fits: bool = match count.checked_mul(16) {
            Some(b) => match b.checked_add(16) {
                Some(need) => need <= region.capacity - region.cursor,
                None => false,
            },
            None => false,
        };
        if !fits {
            self.fail(EvalError::RegionExhausted);
            return Step::Continue;
        }
        let ghost before = region.cells@;
        let fr: Value = match crate::env::create_frame(region, count) {
            Ok(v) => v,
            Err(_) => {
                proof {
                    assert(false);
                }
                return Step::Continue;
            },
        };
        match crate::env::link(region, fr, fenv) {
            Ok(_) => {},
            Err(_) => {
                proof {
                    assert(false);
                }
            },
        }
        proof {
            assert(bindings(frame_at(region.cells@, fr.idx as int)) =~= Map::<u32, Value>::empty());
        }
        let mut i: usize = 0;
        while i < count
            invariant
                region.wf(),
                i <= count,
                count == keys@.len(),
                count == args@.len(),
                fr.idx == before.len(),
                region.capacity == old(region).capacity,
                region.cursor == old(region).cursor + 16 + 16 * count,
                region.cells@.len() == before.len() + 1,
                forall|j: int| 0 <= j < before.len() ==> region.cells@[j] == before[j],
                forall|j: int| 0 <= j < args@.len() ==> (#[trigger] args@[j]).idx < before.len(),
                is_frame(region.cells@, fr.idx as int),
                region.cells@[fr.idx as int].offset == old(region).cursor,
                region.cells@[fr.idx as int].size == 16 + 16 * count,
                frame_at(region.cells@, fr.idx as int).capacity == count,
                frame_at(region.cells@, fr.idx as int).parent == Some(fenv),
                frame_at(region.cells@, fr.idx as int).keys@.len() <= i,
                bindings(frame_at(region.cells@, fr.idx as int)) == bind_all(
                    keys@.subrange(0, i as int),
                    args@.subrange(0, i as int),
                ),
            decreases count - i,
        {
            proof {
                lemma_bind_all_step(keys@, args@, i as int);
            }
            match crate::env::insert(region, fr, keys[i], args[i]) {
                Ok(_) => {},
                Err(_) => {
                    proof {
                        assert(false);
                    }
                },
            }
            i = i + 1;
        }
        proof {
            assert(keys@.subrange(0, count as int) =~= keys@);
            assert(args@.subrange(0, count as int) =~= args@);
        }
        self.retarget(Opcode::Eval, fr, body);
        Step::Continue
    }

    /// One step of a frame whose operands are all evaluated.
    fn step_call(&mut self, region: &mut Region, outer: &Region, bridge: &Bridge) -> (res: Step)
        requires
            old(self).wf(),
            old(region).wf(),
            outer.wf(),
            old(self)@.frames.len() > 0,
            old(self)@.frames.last().op == Opcode::Apply,
            is_nil(old(region).cells@, old(self)@.frames.last().expr),
        ensures
            final(self).wf(),
            final(region).wf(),
            stepped(
                *old(self),
                *old(region),
                outer.cells@,
                bridge.procs@,
                *final(self),
                *final(region),
                res,
            ),
    {
        let n: usize = self.frames.len();
        proof {
            assert(old(self)@.frames.last() == old(self).frames@[n - 1]@);
        }
        if self.frames[n - 1].acc.len() == 0 {
            self.fail(EvalError::BadForm);
            return Step::Continue;
        }
        let f: Value = self.frames[n - 1].acc[0];
        if f.idx >= region.cells.len() {
            self.fail(EvalError::Dangling);
            return Step::Continue;
        }
        match &region.cells[f.idx].datum {
            Datum::Native(p, _) => {
                let proc: u32 = *p;
                let args: Vec<Value> = tail_values(&self.frames[n - 1].acc);
                match bridge.check_call(region, proc, &args) {
                    Ok(_) => {
                        self.frames[n - 1].op = Opcode::Await;
                        proof {
                            let top = old(self)@.frames.last();
                            assert(self@.frames =~= with_top(
                                old(self)@,
                                FrameView {
                                    op: Opcode::Await,
                                    env: top.env,
                                    expr: top.expr,
                                    acc: top.acc,
                                },
                            ).frames);
                        }
                        Step::Call(proc, args)
                    },
                    Err(b) => {
                        self.fail(EvalError::Boundary(b));
                        Step::Continue
                    },
                }
            },
            Datum::Lambda(params, body, fenv) => {
                let params: Value = *params;
                let body: Value = *body;
                let fenv: Value = *fenv;
                self.enter(region, outer, bridge, params, body, fenv)
            },
            _ => {
                self.fail(EvalError::NotCallable);
                Step::Continue
            },
        }
    }

    /// One step of a frame that collects operands.
    fn step_apply(&mut self, region: &mut Region, outer: &Region, bridge: &Bridge) -> (res: Step)
        requires
            old(self).wf(),
            old(region).wf(),
            outer.wf(),
            old(self)@.frames.len() > 0,
            old(self)@.frames.last().op == Opcode::Apply,
        ensures
            final(self).wf(),
            final(region).wf(),
            stepped(
                *old(self),
                *old(region),
                outer.cells@,
                bridge.procs@,
                *final(self),
                *final(region),
                res,
            ),
    {
        let n: usize = self.frames.len();
        let r: Value = self.frames[n - 1].expr;
        let env: Value = self.frames[n - 1].env;
        let room: bool = n < self.capacity;
        proof {
            assert(old(self)@.frames.last() == old(self).frames@[n - 1]@);
        }
        if r.idx >= region.cells.len() {
            self.fail(EvalError::Dangling);
            return Step::Continue;
        }
        match split_pair(region, r) {
            Some((x, rest)) => {
                if x.idx >= region.cells.len() {
                    self.fail(EvalError::Dangling);
                    return Step::Continue;
                }
                let nested: bool = split_pair(region, x).is_some();
                if nested {
                    if room {
                        self.frames[n - 1].expr = rest;
                        proof {
                            let top = old(self)@.frames.last();
                            assert(self@.frames =~= with_top(
                                old(self)@,
                                FrameView { op: top.op, env: top.env, expr: rest, acc: top.acc },
                            ).frames);
                        }
                        self.push_child(env, x);
                    } else {
                        self.fail(EvalError::StackOverflow);
                    }
                } else {
                    let operand: Result<Value, EvalError> = match eval_atom(region, outer, env, x) {
                        Ok(Found::Here(v)) => Ok(v),
                        Ok(Found::Outer(q)) => import(region, outer, q),
                        Err(e) => Err(e),
                    };
                    match operand {
                        Ok(v) => {
                            self.frames[n - 1].expr = rest;
                            self.frames[n - 1].acc.push(v);
                            proof {
                                let top = old(self)@.frames.last();
                                assert(self@.frames =~= with_top(
                                    old(self)@,
                                    FrameView {
                                        op: top.op,
                                        env: top.env,
                                        expr: rest,
                                        acc: top.acc.push(v),
                                    },
                                ).frames);
                            }
                        },
                        Err(e) => self.fail(e),
                    }
                }
                Step::Continue
            },
            None => {
                if holds_nil(region, r) {
                    self.step_call(region, outer, bridge)
                } else {
                    self.fail(EvalError::BadForm);
                    Step::Continue
                }
            },
        }
    }

    /// One step of a frame that chooses a branch.
    fn step_branch(&mut self, region: &mut Region, outer: &Region, bridge: &Bridge) -> (res: Step)
        requires
            old(self).wf(),
            old(region).wf(),
            outer.wf(),
            old(self)@.frames.len() > 0,
            old(self)@.frames.last().op == Opcode::Branch,
        ensures
            final(self).wf(),
            final(region).wf(),
            stepped(
                *old(self),
                *old(region),
                outer.cells@,
                bridge.procs@,
                *final(self),
                *final(region),
                res,
            ),
    {
        let n: usize = self.frames.len();
        let env: Value = self.frames[n - 1].env;
        let branches: Value = self.frames[n - 1].expr;
        proof {
            assert(old(self)@.frames.last() == old(self).frames@[n - 1]@);
        }
        if self.frames[n - 1].acc.len() != 1 {
            self.fail(EvalError::BadForm);
            return Step::Continue;
        }
        let c: Value = self.frames[n - 1].acc[0];
        if c.idx >= region.cells.len() {
            self.fail(EvalError::Dangling);
            return Step::Continue;
        }
        let yes: bool = match &region.cells[c.idx].datum {
            Datum::Nil => false,
            Datum::Bool(b) => *b,
            _ => true,
        };
        match couple(region, branches) {
            Some((a, b)) => {
                if yes {
                    self.retarget(Opcode::Eval, env, a);
                } else {
                    self.retarget(Opcode::Eval, env, b);
                }
            },
            None => self.fail(EvalError::BadForm),
        }
        Step::Continue
    }

    /// One step of a frame that evaluates expressions in order.
    fn step_seq(&mut self, region: &mut Region, outer: &Region, bridge: &Bridge) -> (res: Step)
        requires
            old(self).wf(),
            old(region).wf(),
            outer.wf(),
            old(self)@.frames.len() > 0,
            old(self)@.frames.last().op == Opcode::Sequence,
        ensures
            final(self).wf(),
            final(region).wf(),
            stepped(
                *old(self),
                *old(region),
                outer.cells@,
                bridge.procs@,
                *final(self),
                *final(region),
                res,
            ),
    {
        let n: usize = self.frames.len();
        let env: Value = self.frames[n - 1].env;
        let left: Value = self.frames[n - 1].expr;
        let room: bool = n < self.capacity;
        proof {
            assert(old(self)@.frames.last() == old(self).frames@[n - 1]@);
        }
        match split_pair(region, left) {
            Some((x, rest)) => {
                if holds_nil(region, rest) {
                    self.retarget(Opcode::Eval, env, x);
                } else if room {
                    self.retarget(Opcode::Sequence, env, rest);
                    self.push_child(env, x);
                } else {
                    self.fail(EvalError::StackOverflow);
                }
            },
            None => self.fail(EvalError::BadForm),
        }
        Step::Continue
    }

    /// One step of a frame that binds a symbol.
    fn step_bind(&mut self, region: &mut Region, outer: &Region, bridge: &Bridge) -> (res: Step)
        requires
            old(self).wf(),
            old(region).wf(),
            outer.wf(),
            old(self)@.frames.len() > 0,
            old(self)@.frames.last().op == Opcode::Bind,
        ensures
            final(self).wf(),
            final(region).wf(),
            stepped(
                *old(self),
                *old(region),
                outer.cells@,
                bridge.procs@,
                *final(self),
                *final(region),
                res,
            ),
    {
        let n: usize = self.frames.len();
        let env: Value = self.frames[n - 1].env;
        let name: Value = self.frames[n - 1].expr;
        proof {
            assert(old(self)@.frames.last() == old(self).frames@[n - 1]@);
        }
        if self.frames[n - 1].acc.len() != 1 {
            self.fail(EvalError::BadForm);
            return Step::Continue;
        }
        let v: Value = self.frames[n - 1].acc[0];
        if name.idx >= region.cells.len() {
            self.fail(EvalError::Dangling);
            return Step::Continue;
        }
        match symbol_at(region, name) {
            Some(k) => {
                match crate::env::insert(region, env, k, v) {
                    Ok(_) => self.deliver(v),
                    Err(EnvError::Full) => self.fail(EvalError::FrameFull),
                    Err(_) => self.fail(EvalError::Dangling),
                }
            },
            None => self.fail(EvalError::BadForm),
        }
        Step::Continue
    }

    /// Performs exactly one unit of work on the top frame, for a region
    /// without an outer one: `next_move` says which, from the state before the
    /// call. With an empty stack, and with a native call that waits for its
    /// answer, nothing is done.
    pub fn step(&mut self, region: &mut Region, bridge: &Bridge) -> (res: Step)
        requires
            old(self).wf(),
            old(region).wf(),
        ensures
            final(self).wf(),
            final(region).wf(),
            final(region).capacity == old(region).capacity,
            stepped(
                *old(self),
                *old(region),
                Seq::<Cell>::empty(),
                bridge.procs@,
                *final(self),
                *final(region),
                res,
            ),
    {
        let none = Region::acquire(0);
        proof {
            assert(none.cells@ =~= Seq::<Cell>::empty());
        }
        self.step_under(region, &none, bridge)
    }

    /// Performs exactly one unit of work on the top frame: `next_move` says
    /// which, from the state before the call. Symbols that the region's own
    /// frames do not bind resolve in `outer`, the region that this one was
    /// set up under; what they are bound to there is copied into the region.
    /// With an empty stack, and with a native call that waits for its answer,
    /// nothing is done.
    pub fn step_under(&mut self, region: &mut Region, outer: &Region, bridge: &Bridge) -> (res:
        Step)
        requires
            old(self).wf(),
            old(region).wf(),
            outer.wf(),
        ensures
            final(self).wf(),
            final(region).wf(),
            final(region).capacity == old(region).capacity,
            stepped(
                *old(self),
                *old(region),
                outer.cells@,
                bridge.procs@,
                *final(self),
                *final(region),
                res,
            ),
    {
        let n: usize = self.frames.len();
        if n == 0 {
            return Step::Idle;
        }
        proof {
            assert(self@.frames.last() == self.frames@[n - 1]@);
        }
        match self.frames[n - 1].op {
            Opcode::Await => Step::Waiting,
            Opcode::Eval => self.step_eval(region, outer, bridge),
            Opcode::Apply => self.step_apply(region, outer, bridge),
            Opcode::Branch => self.step_branch(region, outer, bridge),
            Opcode::Bind => self.step_bind(region, outer, bridge),
            Opcode::Sequence => self.step_seq(region, outer, bridge),
        }
    }

    /// Hands the answer of the native call that waits to the evaluation: the
    /// waiting frame has produced `v`. Where the region does not hold `v`,
    /// the evaluation fails with `Dangling`. Refuses with `NotWaiting`,
    /// changing nothing, where no native call waits.
    pub fn resume(&mut self, region: &Region, v: Value) -> (res: Result<(), ResumeError>)
        requires
            old(self).wf(),
        ensures
            final(self).wf(),
            final(self).capacity == old(self).capacity,
            match res {
                Ok(_) => {
                    &&& old(self)@.frames.len() > 0
                    &&& old(self)@.frames.last().op == Opcode::Await
                    &&& final(self)@ == if region.holds(v) {
                        delivered(old(self)@, v)
                    } else {
                        failed(EvalError::Dangling)
                    }
                },
                Err(e) => {
                    &&& e == ResumeError::NotWaiting
                    &&& final(self)@ == old(self)@
                    &&& old(self)@.frames.len() == 0 || old(self)@.frames.last().op
                        != Opcode::Await
                },
            },
    {
        let n: usize = self.frames.len();
        if n == 0 {
            return Err(ResumeError::NotWaiting);
        }
        proof {
            assert(self@.frames.last() == self.frames@[n - 1]@);
        }
        match self.frames[n - 1].op {
            Opcode::Await => {},
            _ => {
                return Err(ResumeError::NotWaiting);
            },
        }
        if v.idx < region.cells.len() {
            self.deliver(v);
        } else {
            self.fail(EvalError::Dangling);
        }
        Ok(())
    }
}

/// A literal resolves in one step: from the state that `start` leaves for an
/// expression that is neither a symbol nor a pair, the step delivers the
/// expression itself, which empties the stack and fills the slot.
pub proof fn lemma_literal_resolves_in_one_step(
    capacity: usize,
    region: Region,
    outer: Seq<Cell>,
    procs: Seq<Signature>,
    env: Value,
    x: Value,
)
    requires
        region.holds(x),
        crate::value::is_literal(region.datum(x)),
    ensures
        ({
            let m = Machine {
                frames: seq![FrameView { op: Opcode::Eval, env, expr: x, acc: Seq::empty() }],
                slot: Slot::Pending,
            };
            &&& next_move(m, capacity, region, outer, procs) == Move::Deliver(x)
            &&& delivered(m, x) == Machine { frames: Seq::empty(), slot: Slot::Done(x) }
        }),
{
    let m = Machine {
        frames: seq![FrameView { op: Opcode::Eval, env, expr: x, acc: Seq::empty() }],
        slot: Slot::Pending,
    };
    assert(m.frames.last() == m.frames[0]);
    assert(m.frames.drop_last() =~= Seq::<FrameView>::empty());
}

/// A native procedure is called only with arguments that passed the boundary:
/// where a step hands a call to the host, the verdict on that call is
/// acceptance, and where the verdict is not, the evaluation fails instead.
pub proof fn lemma_call_only_when_admitted(
    m: Machine,
    capacity: usize,
    region: Region,
    outer: Seq<Cell>,
    procs: Seq<Signature>,
    p: u32,
)
    requires
        next_move(m, capacity, region, outer, procs) == Move::Call(p),
    ensures
        m.frames.len() > 0,
        boundary_verdict(procs, region.cells@, p, args_of(m.frames.last())) is Ok,
{
}

/// The machine with one frame and a pending slot.
pub open spec fn one_frame(op: Opcode, env: Value, expr: Value, acc: Seq<Value>) -> Machine {
    Machine { frames: seq![FrameView { op, env, expr, acc }], slot: Slot::Pending }
}

/// The application of a native procedure to two operands that are no pairs
/// resolves in five steps and one answer: the first step finds an
/// application, three steps evaluate the operator and the operands from left
/// to right, the fifth hands the call to the host, and the host's answer
/// empties the stack and fills the slot. The region stays as it is.
pub proof fn lemma_native_call_in_five_steps(
    capacity: usize,
    region: Region,
    outer: Seq<Cell>,
    procs: Seq<Signature>,
    env: Value,
    x: Value,
    s: Value,
    l1: Value,
    a: Value,
    l2: Value,
    b: Value,
    nil: Value,
    f: Value,
    q: u32,
    v: Value,
)
    requires
        uncons(region.cells@, x) == Some((s, l1)),
        uncons(region.cells@, l1) == Some((a, l2)),
        uncons(region.cells@, l2) == Some((b, nil)),
        is_nil(region.cells@, nil),
        region.holds(s),
        region.datum(s) is Symbol,
        region.datum(s)->Symbol_0 > S_DO,
        is_frame(region.cells@, env.idx as int),
        chain_lookup(region.cells@, env.idx as int, region.datum(s)->Symbol_0) == Some(f),
        region.holds(f),
        region.datum(f) is Native,
        region.datum(f)->Native_0 == q,
        region.holds(a),
        region.holds(b),
        crate::value::is_literal(region.datum(a)),
        crate::value::is_literal(region.datum(b)),
        boundary_verdict(procs, region.cells@, q, seq![a, b]) is Ok,
    ensures
        ({
            let m0 = one_frame(Opcode::Eval, env, x, Seq::empty());
            let m1 = one_frame(Opcode::Apply, env, x, Seq::empty());
            let m2 = one_frame(Opcode::Apply, env, l1, seq![f]);
            let m3 = one_frame(Opcode::Apply, env, l2, seq![f, a]);
            let m4 = one_frame(Opcode::Apply, env, nil, seq![f, a, b]);
            let m5 = one_frame(Opcode::Await, env, nil, seq![f, a, b]);
            &&& next_move(m0, capacity, region, outer, procs) == Move::Retarget(Opcode::Apply, x)
            &&& moved(Move::Retarget(Opcode::Apply, x), m0, region, outer, m1, region)
            &&& next_move(m1, capacity, region, outer, procs) == Move::Collect(l1, f)
            &&& moved(Move::Collect(l1, f), m1, region, outer, m2, region)
            &&& next_move(m2, capacity, region, outer, procs) == Move::Collect(l2, a)
            &&& moved(Move::Collect(l2, a), m2, region, outer, m3, region)
            &&& next_move(m3, capacity, region, outer, procs) == Move::Collect(nil, b)
            &&& moved(Move::Collect(nil, b), m3, region, outer, m4, region)
            &&& next_move(m4, capacity, region, outer, procs) == Move::Call(q)
            &&& moved(Move::Call(q), m4, region, outer, m5, region)
            &&& args_of(m4.frames.last()) == seq![a, b]
            &&& next_move(m5, capacity, region, outer, procs) == Move::Waiting
            &&& delivered(m5, v) == Machine { frames: Seq::empty(), slot: Slot::Done(v) }
        }),
{
    let cells = region.cells@;
    lemma_across_agrees(cells, outer, env.idx as int, region.datum(s)->Symbol_0);
    let m0 = one_frame(Opcode::Eval, env, x, Seq::empty());
    let m1 = one_frame(Opcode::Apply, env, x, Seq::empty());
    let m2 = one_frame(Opcode::Apply, env, l1, seq![f]);
    let m3 = one_frame(Opcode::Apply, env, l2, seq![f, a]);
    let m4 = one_frame(Opcode::Apply, env, nil, seq![f, a, b]);
    let m5 = one_frame(Opcode::Await, env, nil, seq![f, a, b]);
    assert(m0.frames.last() == m0.frames[0]);
    assert(m1.frames.last() == m1.frames[0]);
    assert(m2.frames.last() == m2.frames[0]);
    assert(m3.frames.last() == m3.frames[0]);
    assert(m4.frames.last() == m4.frames[0]);
    assert(m5.frames.last() == m5.frames[0]);
    assert(m0.frames.drop_last() =~= Seq::<FrameView>::empty());
    assert(m1.frames.drop_last() =~= Seq::<FrameView>::empty());
    assert(m2.frames.drop_last() =~= Seq::<FrameView>::empty());
    assert(m3.frames.drop_last() =~= Seq::<FrameView>::empty());
    assert(m4.frames.drop_last() =~= Seq::<FrameView>::empty());
    assert(m5.frames.drop_last() =~= Seq::<FrameView>::empty());
    assert(Seq::<Value>::empty().push(f) =~= seq![f]);
    assert(seq![f].push(a) =~= seq![f, a]);
    assert(seq![f, a].push(b) =~= seq![f, a, b]);
    assert(args_of(m4.frames.last()) =~= seq![a, b]);
    assert(with_top(m0, m1.frames[0]).frames =~= m1.frames);
    assert(with_top(m1, m2.frames[0]).frames =~= m2.frames);
    assert(with_top(m2, m3.frames[0]).frames =~= m3.frames);
    assert(with_top(m3, m4.frames[0]).frames =~= m4.frames);
    assert(with_top(m4, m5.frames[0]).frames =~= m5.frames);
}

/// The shape of a 64-bit integer.
pub open spec fn integer_shape() -> Shape {
    Shape { cfg: Some(Cfg::B8), kind: Some(Kind::I64), len: None }
}

/// The sum of two integers, end to end: where `add` is a native procedure of
/// two integers, the evaluation of `(add a b)` keeps the slot pending for
/// five steps, the fifth of which hands the call with `a` and `b`, in this
/// order, to the host; and when the host answers with the value that
/// `add_i64` allocates for them, the slot holds a value that is their sum, and
/// the stack is empty.
pub proof fn lemma_add_resolves_to_sum(
    capacity: usize,
    region: Region,
    outer: Seq<Cell>,
    procs: Seq<Signature>,
    env: Value,
    x: Value,
    s: Value,
    l1: Value,
    a: Value,
    l2: Value,
    b: Value,
    nil: Value,
    f: Value,
    q: u32,
    after: Region,
    v: Value,
)
    requires
        uncons(region.cells@, x) == Some((s, l1)),
        uncons(region.cells@, l1) == Some((a, l2)),
        uncons(region.cells@, l2) == Some((b, nil)),
        is_nil(region.cells@, nil),
        region.holds(s),
        region.datum(s) is Symbol,
        region.datum(s)->Symbol_0 > S_DO,
        is_frame(region.cells@, env.idx as int),
        chain_lookup(region.cells@, env.idx as int, region.datum(s)->Symbol_0) == Some(f),
        region.holds(f),
        region.datum(f) is Native,
        region.datum(f)->Native_0 == q,
        q < procs.len(),
        procs[q as int].params@ == seq![integer_shape(), integer_shape()],
        integer_at(region.cells@, a) is Some,
        integer_at(region.cells@, b) is Some,
        i64::MIN <= integer_at(region.cells@, a)->0 + integer_at(region.cells@, b)->0 <= i64::MAX,
        v.idx == region.cells@.len(),
        after.cells@ == region.cells@.push(
            Cell {
                offset: region.cursor,
                size: 16,
                datum: Datum::I64(
                    (integer_at(region.cells@, a)->0 + integer_at(region.cells@, b)->0) as i64,
                ),
            },
        ),
    ensures
        ({
            let m0 = one_frame(Opcode::Eval, env, x, Seq::empty());
            let m1 = one_frame(Opcode::Apply, env, x, Seq::empty());
            let m2 = one_frame(Opcode::Apply, env, l1, seq![f]);
            let m3 = one_frame(Opcode::Apply, env, l2, seq![f, a]);
            let m4 = one_frame(Opcode::Apply, env, nil, seq![f, a, b]);
            let m5 = one_frame(Opcode::Await, env, nil, seq![f, a, b]);
            &&& next_move(m0, capacity, region, outer, procs) == Move::Retarget(Opcode::Apply, x)
            &&& next_move(m1, capacity, region, outer, procs) == Move::Collect(l1, f)
            &&& next_move(m2, capacity, region, outer, procs) == Move::Collect(l2, a)
            &&& next_move(m3, capacity, region, outer, procs) == Move::Collect(nil, b)
            &&& next_move(m4, capacity, region, outer, procs) == Move::Call(q)
            &&& args_of(m4.frames.last()) == seq![a, b]
            &&& m0.slot == Slot::Pending && m1.slot == Slot::Pending && m2.slot == Slot::Pending
                && m3.slot == Slot::Pending && m4.slot == Slot::Pending && m5.slot
                == Slot::Pending
            &&& after.holds(v)
            &&& after.datum(v) == Datum::I64(
                (integer_at(region.cells@, a)->0 + integer_at(region.cells@, b)->0) as i64,
            )
            &&& delivered(m5, v) == Machine { frames: Seq::empty(), slot: Slot::Done(v) }
        }),
{
    let params = procs[q as int].params@;
    let args = seq![a, b];
    assert(arg_ok(params, region.cells@, args, 0));
    assert(arg_ok(params, region.cells@, args, 1));
    assert forall|i: int| 0 <= i < args.len() implies arg_ok(params, region.cells@, args, i) by {
        if i == 0 {
        } else {
            assert(i == 1);
        }
    }
    lemma_native_call_in_five_steps(
        capacity,
        region,
        outer,
        procs,
        env,
        x,
        s,
        l1,
        a,
        l2,
        b,
        nil,
        f,
        q,
        v,
    );
}

} // verus!
