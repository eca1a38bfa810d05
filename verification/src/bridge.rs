//! The native bridge: host procedures become callable values with a declared
//! arity and argument shapes, and every call is checked against them before
//! the host sees it.

use vstd::prelude::*;
use crate::env::{EnvError, bindings, check_insert, frame_at, insert, is_frame};
use crate::region::{Cell, Region};
use crate::symbol::{SymbolTable, id_after_intern, table_after_intern};
use crate::value::{Cfg, Datum, Kind, Value, cfg_of, kind_of};

verus! {

/// What a native procedure asks of one argument: its layout, its type, and,
/// of an array, the number of its elements. `None` leaves the point open.
#[derive(Clone, Copy, Debug, PartialEq, Eq)]
pub struct Shape {
    pub cfg: Option<Cfg>,
    pub kind: Option<Kind>,
    pub len: Option<usize>,
}

/// A registered native procedure: the symbol it is bound to and the shapes of
/// its arguments, one per position.
#[derive(Debug)]
pub struct Signature {
    pub name: u32,
    pub params: Vec<Shape>,
}

/// The table of native procedures. A procedure's number is its position.
#[derive(Debug)]
pub struct Bridge {
    pub procs: Vec<Signature>,
}

/// Why a call was turned away at the boundary.
#[derive(Clone, Copy, PartialEq, Eq, Debug, Structural)]
pub enum BoundaryError {
    /// No procedure has this number.
    NoSuchProc,
    /// The number of arguments is not the procedure's arity.
    WrongArity,
    /// The argument at this position has the wrong layout or type, or is not
    /// in the region; the arguments before it are in order.
    WrongShape(usize),
}

/// Why a registration failed.
#[derive(Clone, Copy, PartialEq, Eq, Debug, Structural)]
pub enum RegisterError {
    /// The name is new and the symbol table has no identifier left.
    SymbolsExhausted,
    /// The bridge has no number left.
    ProcsExhausted,
    /// The environment is no frame of the region.
    NoSuchFrame,
    /// The name is new to the frame and the frame has no room.
    FrameFull,
    /// The region has too few bytes left for the procedure value.
    RegionExhausted,
}

/// Whether the datum `d` has the shape `s`.
pub open spec fn shape_matches(s: Shape, d: Datum) -> bool {
    &&& s.cfg is Some ==> s.cfg->0 == cfg_of(d)
    &&& s.kind is Some ==> kind_of(d) == Some(s.kind->0)
    &&& s.len is Some ==> d is VecArr && d->VecArr_1@.len() == s.len->0
}

/// Whether argument `i` is in the region and has the shape asked of it.
pub open spec fn arg_ok(params: Seq<Shape>, cells: Seq<Cell>, args: Seq<Value>, i: int) -> bool {
    args[i].idx < cells.len() && shape_matches(params[i], cells[args[i].idx as int].datum)
}

/// The verdict on arguments for a procedure with the parameters `params`:
/// the wrong number of them, else the first that is not in order, else
/// acceptance.
pub open spec fn shapes_verdict(params: Seq<Shape>, cells: Seq<Cell>, args: Seq<Value>) -> Result<
    (),
    BoundaryError,
> {
    if args.len() != params.len() {
        Err(BoundaryError::WrongArity)
    } else if exists|i: int| 0 <= i < args.len() && !arg_ok(params, cells, args, i) {
        Err(BoundaryError::WrongShape(first_bad_arg(params, cells, args, 0) as usize))
    } else {
        Ok(())
    }
}

/// The verdict on a call of procedure `proc` with `args`: that there is no
/// such procedure, else the verdict on the arguments.
pub open spec fn boundary_verdict(
    procs: Seq<Signature>,
    cells: Seq<Cell>,
    proc: u32,
    args: Seq<Value>,
) -> Result<(), BoundaryError> {
    if proc >= procs.len() {
        Err(BoundaryError::NoSuchProc)
    } else {
        shapes_verdict(procs[proc as int].params@, cells, args)
    }
}

/// The first position from `from` on whose argument is not in order, or the
/// number of arguments where there is none.
pub open spec fn first_bad_arg(
    params: Seq<Shape>,
    cells: Seq<Cell>,
    args: Seq<Value>,
    from: int,
) -> int
    decreases args.len() - from,
{
    if from < 0 || from >= args.len() {
        args.len() as int
    } else if !arg_ok(params, cells, args, from) {
        from
    } else {
        first_bad_arg(params, cells, args, from + 1)
    }
}

impl Shape {
    /// A shape that admits every value.
    pub fn any() -> (s: Shape)
        ensures
            s.cfg is None,
            s.kind is None,
            s.len is None,
    {
        Shape { cfg: None, kind: None, len: None }
    }

    /// The shape of values with layout `cfg`, of any type.
    pub fn of_cfg(cfg: Cfg) -> (s: Shape)
        ensures
            s.cfg == Some(cfg),
            s.kind is None,
            s.len is None,
    {
        Shape { cfg: Some(cfg), kind: None, len: None }
    }

    /// The shape of values with layout `cfg` and type `kind`.
    pub fn typed(cfg: Cfg, kind: Kind) -> (s: Shape)
        ensures
            s.cfg == Some(cfg),
            s.kind == Some(kind),
            s.len is None,
    {
        Shape { cfg: Some(cfg), kind: Some(kind), len: None }
    }

    /// The shape of arrays of `len` elements of type `kind`.
    pub fn array(kind: Kind, len: usize) -> (s: Shape)
        ensures
            s.cfg == Some(Cfg::VecArr),
            s.kind == Some(kind),
            s.len == Some(len),
    {
        Shape { cfg: Some(Cfg::VecArr), kind: Some(kind), len: Some(len) }
    }

    /// Whether the datum `d` has this shape.
    pub fn admits(&self, d: &Datum) -> (ok: bool)
        ensures
            ok == shape_matches(*self, *d),
    {
        let cfg_ok: bool = match self.cfg {
            Some(c) => c == d.cfg(),
            None => true,
        };
        let kind_ok: bool = match self.kind {
            Some(k) => match d.kind() {
                Some(dk) => dk == k,
                None => false,
            },
            None => true,
        };
        let len_ok: bool = match self.len {
            Some(n) => match d {
                Datum::VecArr(_, words) => words.len() == n,
                _ => false,
            },
            None => true,
        };
        cfg_ok && kind_ok && len_ok
    }
}

impl Bridge {
    /// A bridge without procedures.
    pub fn new() -> (b: Bridge)
        ensures
            b.procs@.len() == 0,
    {
        Bridge { procs: Vec::new() }
    }

    /// Number of registered procedures.
    pub fn len(&self) -> (n: usize)
        ensures
            n == self.procs@.len(),
    {
        self.procs.len()
    }

    /// Registers a native procedure: interns `name`, allocates a procedure
    /// value whose arity is the number of `params`, and binds it to the name
    /// in the frame `env` itself. The procedure's number is the number of
    /// procedures registered before it.
    ///
    /// The name is interned in any case. In order, fails with
    /// `SymbolsExhausted`, `ProcsExhausted`, `NoSuchFrame`, `FrameFull` and
    /// `RegionExhausted`; a failed call changes neither the bridge nor the
    /// region.
    pub fn register(
        &mut self,
        region: &mut Region,
        table: &mut SymbolTable,
        env: Value,
        name: &str,
        params: Vec<Shape>,
    ) -> (res: Result<Value, RegisterError>)
        requires
            old(region).wf(),
            old(table).wf(),
        ensures
            final(region).wf(),
            final(table).wf(),
            final(region).capacity == old(region).capacity,
            final(table)@ == table_after_intern(old(table)@, name@),
            match res {
                Ok(v) => {
                    &&& id_after_intern(old(table)@, name@) is Some
                    &&& old(self).procs@.len() < u32::MAX
                    &&& is_frame(old(region).cells@, env.idx as int)
                    &&& old(region).cursor + 24 <= old(region).capacity
                    &&& v.idx == old(region).cells@.len()
                    &&& final(region).cursor == old(region).cursor + 24
                    &&& final(region).cells@.len() == old(region).cells@.len() + 1
                    &&& final(region).cells@[v.idx as int].datum == Datum::Native(
                        old(self).procs@.len() as u32,
                        params@.len() as usize,
                    )
                    &&& final(region).cells@[v.idx as int].offset == old(region).cursor
                    &&& final(region).cells@[v.idx as int].size == 24
                    &&& forall|i: int|
                        0 <= i < old(region).cells@.len() && i != env.idx
                            ==> final(region).cells@[i] == old(region).cells@[i]
                    &&& is_frame(final(region).cells@, env.idx as int)
                    &&& final(region).cells@[env.idx as int].offset == old(
                        region,
                    ).cells@[env.idx as int].offset
                    &&& final(region).cells@[env.idx as int].size == old(
                        region,
                    ).cells@[env.idx as int].size
                    &&& frame_at(final(region).cells@, env.idx as int).capacity == frame_at(
                        old(region).cells@,
                        env.idx as int,
                    ).capacity
                    &&& frame_at(final(region).cells@, env.idx as int).parent == frame_at(
                        old(region).cells@,
                        env.idx as int,
                    ).parent
                    &&& bindings(frame_at(final(region).cells@, env.idx as int)) == bindings(
                        frame_at(old(region).cells@, env.idx as int),
                    ).insert(id_after_intern(old(table)@, name@)->0 as u32, v)
                    &&& final(self).procs@.len() == old(self).procs@.len() + 1
                    &&& forall|i: int|
                        0 <= i < old(self).procs@.len()
                            ==> final(self).procs@[i] == old(self).procs@[i]
                    &&& final(self).procs@[old(self).procs@.len() as int].name == id_after_intern(
                        old(table)@,
                        name@,
                    )->0
                    &&& final(self).procs@[old(self).procs@.len() as int].params == params
                },
                Err(e) => {
                    &&& *final(region) == *old(region)
                    &&& *final(self) == *old(self)
                    &&& e == RegisterError::SymbolsExhausted <==> id_after_intern(
                        old(table)@,
                        name@,
                    ) is None
                    &&& e == RegisterError::ProcsExhausted <==> id_after_intern(
                        old(table)@,
                        name@,
                    ) is Some && old(self).procs@.len() >= u32::MAX
                    &&& e == RegisterError::NoSuchFrame <==> id_after_intern(
                        old(table)@,
                        name@,
                    ) is Some && old(self).procs@.len() < u32::MAX && !is_frame(
                        old(region).cells@,
                        env.idx as int,
                    )
                    &&& e == RegisterError::FrameFull <==> id_after_intern(
                        old(table)@,
                        name@,
                    ) is Some
                        && old(self).procs@.len() < u32::MAX && is_frame(
                        old(region).cells@,
                        env.idx as int,
                    ) && !bindings(frame_at(old(region).cells@, env.idx as int)).contains_key(
                        id_after_intern(old(table)@, name@)->0 as u32,
                    ) && frame_at(old(region).cells@, env.idx as int).keys@.len() >= frame_at(
                        old(region).cells@,
                        env.idx as int,
                    ).capacity
                    &&& e == RegisterError::RegionExhausted <==> id_after_intern(
                        old(table)@,
                        name@,
                    ) is Some && old(self).procs@.len() < u32::MAX && is_frame(
                        old(region).cells@,
                        env.idx as int,
                    ) && (bindings(frame_at(old(region).cells@, env.idx as int)).contains_key(
                        id_after_intern(old(table)@, name@)->0 as u32,
                    ) || frame_at(old(region).cells@, env.idx as int).keys@.len() < frame_at(
                        old(region).cells@,
                        env.idx as int,
                    ).capacity) && old(region).cursor + 24 > old(region).capacity
                },
            },
    {
        let key: u32 = match table.intern(name) {
            Some(k) => k,
            None => {
                return Err(RegisterError::SymbolsExhausted);
            },
        };
        let number: usize = self.procs.len();
        if number >= u32::MAX as usize {
            return Err(RegisterError::ProcsExhausted);
        }
        match check_insert(region, env, key) {
            Ok(_) => {},
            Err(EnvError::Full) => {
                return Err(RegisterError::FrameFull);
            },
            Err(_) => {
                return Err(RegisterError::NoSuchFrame);
            },
        }
        let arity: usize = params.len();
        let v = match region.allocate(Datum::Native(number as u32, arity)) {
            Ok(v) => v,
            Err(_) => {
                return Err(RegisterError::RegionExhausted);
            },
        };
        let ghost mid = region.cells@;
        match insert(region, env, key, v) {
            Ok(_) => {},
            Err(_) => {
                proof {
                    assert(false);
                }
            },
        }
        self.procs.push(Signature { name: key, params });
        Ok(v)
    }

    /// Checks a call of procedure `proc` with `args` against its signature.
    pub fn check_call(&self, region: &Region, proc: u32, args: &Vec<Value>) -> (res: Result<
        (),
        BoundaryError,
    >)
        ensures
            res == boundary_verdict(self.procs@, region.cells@, proc, args@),
    {
        if proc as usize >= self.procs.len() {
            return Err(BoundaryError::NoSuchProc);
        }
        check_shapes(&self.procs[proc as usize].params, region, args)
    }
}

/// Checks `args` against the parameters `params`.
pub fn check_shapes(params: &Vec<Shape>, region: &Region, args: &Vec<Value>) -> (res: Result<
    (),
    BoundaryError,
>)
    ensures
        res == shapes_verdict(params@, region.cells@, args@),
{
    let n: usize = args.len();
    if n != params.len() {
        return Err(BoundaryError::WrongArity);
    }
    let mut i: usize = 0;
    while i < n
        invariant
            i <= n,
            n == args@.len(),
            n == params@.len(),
            forall|j: int| 0 <= j < i ==> arg_ok(params@, region.cells@, args@, j),
            first_bad_arg(params@, region.cells@, args@, 0) == first_bad_arg(
                params@,
                region.cells@,
                args@,
                i as int,
            ),
        decreases n - i,
    {
        let a: Value = args[i];
        let ok: bool = if a.idx < region.cells.len() {
            params[i].admits(&region.cells[a.idx].datum)
        } else {
            false
        };
        if !ok {
            proof {
                assert(!arg_ok(params@, region.cells@, args@, i as int));
                assert(first_bad_arg(params@, region.cells@, args@, i as int) == i);
            }
            return Err(BoundaryError::WrongShape(i));
        }
        i = i + 1;
    }
    Ok(())
}

/// A call with a number of arguments other than the arity of the procedure is
/// turned away, and so is a call with an argument of the wrong shape,
/// whatever the other arguments are.
pub proof fn lemma_boundary_rejects(
    procs: Seq<Signature>,
    cells: Seq<Cell>,
    proc: u32,
    args: Seq<Value>,
    i: int,
)
    requires
        proc < procs.len(),
    ensures
        args.len() != procs[proc as int].params@.len()
            ==> boundary_verdict(procs, cells, proc, args)
            == Err::<(), BoundaryError>(BoundaryError::WrongArity),
        0 <= i < args.len() && !arg_ok(procs[proc as int].params@, cells, args, i)
            ==> boundary_verdict(procs, cells, proc, args) is Err,
        boundary_verdict(procs, cells, proc, args) is Ok ==> args.len()
            == procs[proc as int].params@.len() && (0 <= i < args.len() ==> arg_ok(
            procs[proc as int].params@,
            cells,
            args,
            i,
        )),
{
}

} // verus!
