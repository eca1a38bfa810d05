//! Regions: fixed-capacity arenas with a bump cursor. A region belongs to one
//! thread; its values die with it.

use vstd::prelude::*;
use crate::value::{Cfg, Datum, Kind, Value, cfg_of, kind_of, footprint, is_scalar, HEADER_BYTES};

verus! {

/// Why a region refused an operation.
#[derive(Clone, Copy, PartialEq, Eq, Debug, Structural)]
pub enum RegionError {
    /// The arena has too few bytes left.
    Exhausted,
    /// The datum refers to a value that the region does not hold, or is a
    /// frame that already has bindings or a parent.
    Malformed,
    /// The handle designates no value of this region.
    NoSuchValue,
    /// The value's layout or type is not the one the operation expects.
    TagMismatch,
    /// The index lies beyond the array's last element.
    OutOfRange,
}

/// One allocated value: the bytes it occupies and what it holds.
#[derive(Clone, Debug, PartialEq, Eq)]
pub struct Cell {
    pub offset: usize,
    pub size: usize,
    pub datum: Datum,
}

/// A fixed-capacity arena. Its values are kept as cells, each with the bytes it
/// takes; `cursor` is the first free byte.
#[derive(Debug)]
pub struct Region {
    pub capacity: usize,
    pub cursor: usize,
    pub cells: Vec<Cell>,
}

/// Whether `d` may be stored as the next cell after `cells`: every value it
/// refers to is there already, a procedure's environment is a frame, and a
/// frame is empty and has no parent in either region.
pub open spec fn admissible(cells: Seq<Cell>, d: Datum) -> bool {
    match d {
        Datum::Pair(a, b) => a.idx < cells.len() && b.idx < cells.len(),
        Datum::Lambda(p, b, e) => {
            &&& p.idx < cells.len()
            &&& b.idx < cells.len()
            &&& e.idx < cells.len()
            &&& cells[e.idx as int].datum is Frame
        },
        Datum::Frame(f) => f.keys@.len() == 0 && f.vals@.len() == 0 && f.parent is None
            && f.outer is None,
        _ => true,
    }
}

/// The cells fill the bytes below `cursor` without a gap: the first begins at
/// byte zero, each of the others where the one before it ends, and the last
/// ends at the cursor.
pub open spec fn packed(cells: Seq<Cell>, cursor: int) -> bool {
    &&& cells.len() == 0 ==> cursor == 0
    &&& cells.len() > 0 ==> cells[0].offset == 0 && cursor == cells.last().offset
        + cells.last().size
    &&& forall|i: int, j: int|
        0 <= i && j == i + 1 && j < cells.len() ==> (#[trigger] cells[j]).offset == (
        #[trigger] cells[i]).offset + cells[i].size
}

/// No two positions of `keys` hold the same identifier.
pub open spec fn distinct(keys: Seq<u32>) -> bool {
    forall|i: int, j: int| 0 <= i < j < keys.len() ==> keys[i] != keys[j]
}

/// What holds of the cell at position `i`: references point to older cells,
/// and a frame's bindings to cells of the region.
pub open spec fn cell_ok(cells: Seq<Cell>, i: int) -> bool {
    match cells[i].datum {
        Datum::Pair(a, b) => a.idx < i && b.idx < i,
        Datum::Lambda(p, b, e) => {
            &&& p.idx < i
            &&& b.idx < i
            &&& e.idx < i
            &&& cells[e.idx as int].datum is Frame
        },
        Datum::Frame(f) => {
            &&& f.keys@.len() == f.vals@.len()
            &&& f.keys@.len() <= f.capacity
            &&& distinct(f.keys@)
            &&& forall|k: int| 0 <= k < f.vals@.len() ==> (#[trigger] f.vals@[k]).idx < cells.len()
            &&& match f.parent {
                Some(p) => p.idx < i && cells[p.idx as int].datum is Frame && f.outer is None,
                None => true,
            }
        },
        _ => true,
    }
}

impl Region {
    /// Number of values allocated so far.
    pub open spec fn count(&self) -> nat {
        self.cells@.len()
    }

    /// Whether `v` designates a value of this region.
    pub open spec fn holds(&self, v: Value) -> bool {
        v.idx < self.cells@.len()
    }

    /// What the value `v` holds.
    pub open spec fn datum(&self, v: Value) -> Datum {
        self.cells@[v.idx as int].datum
    }

    /// First byte of the value `v`.
    pub open spec fn first_byte(&self, v: Value) -> int {
        self.cells@[v.idx as int].offset as int
    }

    /// The byte after the last byte of the value `v`.
    pub open spec fn end_byte(&self, v: Value) -> int {
        self.cells@[v.idx as int].offset + self.cells@[v.idx as int].size
    }

    /// The region's invariant: the cells lie one after another, without gaps,
    /// from the arena's first byte to the cursor, each as large as its datum,
    /// and every reference stays inside.
    pub open spec fn wf(&self) -> bool {
        &&& self.cursor <= self.capacity
        &&& forall|i: int|
            0 <= i < self.cells@.len() ==> {
                &&& (#[trigger] self.cells@[i]).size == footprint(self.cells@[i].datum)
                &&& self.cells@[i].offset + self.cells@[i].size <= self.cursor
            }
        &&& forall|i: int, j: int|
            0 <= i < j < self.cells@.len() ==> (#[trigger] self.cells@[i]).offset
                + self.cells@[i].size <= (#[trigger] self.cells@[j]).offset
        &&& forall|i: int| 0 <= i < self.cells@.len() ==> #[trigger] cell_ok(self.cells@, i)
        &&& packed(self.cells@, self.cursor as int)
    }

    /// An empty arena of `capacity` bytes.
    pub fn acquire(capacity: usize) -> (r: Region)
        ensures
            r.wf(),
            r.capacity == capacity,
            r.cursor == 0,
            r.cells@.len() == 0,
    {
        Region { capacity, cursor: 0, cells: Vec::new() }
    }

    /// Bytes in use.
    pub fn used(&self) -> (n: usize)
        ensures
            n == self.cursor,
    {
        self.cursor
    }

    /// Bytes that the arena was acquired with.
    pub fn capacity(&self) -> (n: usize)
        ensures
            n == self.capacity,
    {
        self.capacity
    }

    /// Number of values allocated so far.
    pub fn len(&self) -> (n: usize)
        ensures
            n == self.cells@.len(),
    {
        self.cells.len()
    }

    /// Whether `d` may be stored as the next cell.
    pub fn admits(&self, d: &Datum) -> (ok: bool)
        ensures
            ok == admissible(self.cells@, *d),
    {
        let n: usize = self.cells.len();
        match d {
            Datum::Pair(a, b) => a.idx < n && b.idx < n,
            Datum::Lambda(p, b, e) => {
                if p.idx < n && b.idx < n && e.idx < n {
                    match &self.cells[e.idx].datum {
                        Datum::Frame(_) => true,
                        _ => false,
                    }
                } else {
                    false
                }
            },
            Datum::Frame(f) => f.keys.len() == 0 && f.vals.len() == 0 && f.parent.is_none()
                && f.outer.is_none(),
            _ => true,
        }
    }

    /// Carves the bytes for `datum` from the free cursor and stores it there.
    ///
    /// Fails with `Malformed` where the datum is not admissible, else with
    /// `Exhausted` where its bytes do not fit in what is left; a failed call
    /// changes nothing.
    pub fn allocate(&mut self, datum: Datum) -> (res: Result<Value, RegionError>)
        requires
            old(self).wf(),
        ensures
            final(self).wf(),
            final(self).capacity == old(self).capacity,
            match res {
                Ok(v) => {
                    &&& admissible(old(self).cells@, datum)
                    &&& old(self).cursor + footprint(datum) <= old(self).capacity
                    &&& v.idx == old(self).cells@.len()
                    &&& final(self).cursor == old(self).cursor + footprint(datum)
                    &&& final(self).cells@ == old(self).cells@.push(
                        (Cell {
                            offset: old(self).cursor,
                            size: footprint(datum) as usize,
                            datum: datum,
                        }),
                    )
                },
                Err(e) => {
                    &&& *final(self) == *old(self)
                    &&& e == RegionError::Malformed <==> !admissible(old(self).cells@, datum)
                    &&& e == RegionError::Exhausted <==> admissible(old(self).cells@, datum)
                        && old(self).cursor + footprint(datum) > old(self).capacity
                    &&& e == RegionError::Malformed || e == RegionError::Exhausted
                },
            },
    {
        if !self.admits(&datum) {
            return Err(RegionError::Malformed);
        }
        let size: usize = match datum.size() {
            Some(n) => n,
            None => {
                return Err(RegionError::Exhausted);
            },
        };
        if size > self.capacity - self.cursor {
            return Err(RegionError::Exhausted);
        }
        let idx: usize = self.cells.len();
        let ghost before = self.cells@;
        self.cells.push(Cell { offset: self.cursor, size, datum });
        self.cursor = self.cursor + size;
        proof {
            let after = self.cells@;
            assert forall|i: int| 0 <= i < after.len() implies #[trigger] cell_ok(after, i) by {
                if i < before.len() {
                    assert(cell_ok(before, i));
                    assert(after[i] == before[i]);
                }
            }
        }
        Ok(Value { idx })
    }

    /// The datum of the value `v`, if the region holds it.
    pub fn get(&self, v: Value) -> (d: Option<&Datum>)
        ensures
            d is Some <==> self.holds(v),
            d is Some ==> *d->0 == self.datum(v),
    {
        if v.idx < self.cells.len() {
            Some(&self.cells[v.idx].datum)
        } else {
            None
        }
    }

    /// The configuration tag of the value `v`, if the region holds it.
    pub fn get_cfg(&self, v: Value) -> (c: Option<Cfg>)
        ensures
            c == if self.holds(v) { Some(cfg_of(self.datum(v))) } else { None },
    {
        if v.idx < self.cells.len() {
            Some(self.cells[v.idx].datum.cfg())
        } else {
            None
        }
    }

    /// The bytes that the value `v` occupies: its first byte and its length.
    pub fn block(&self, v: Value) -> (b: Option<(usize, usize)>)
        ensures
            b == if self.holds(v) {
                Some((self.cells@[v.idx as int].offset, self.cells@[v.idx as int].size))
            } else {
                None
            },
    {
        if v.idx < self.cells.len() {
            Some((self.cells[v.idx].offset, self.cells[v.idx].size))
        } else {
            None
        }
    }

    /// Overwrites a scalar in place with another scalar of the same layout and
    /// type.
    ///
    /// Fails with `NoSuchValue` where the region does not hold `v`, else with
    /// `TagMismatch` where the value is no scalar or `datum` differs from it in
    /// layout or type; a failed call changes nothing.
    pub fn write_scalar(&mut self, v: Value, datum: Datum) -> (res: Result<(), RegionError>)
        requires
            old(self).wf(),
        ensures
            final(self).wf(),
            match res {
                Ok(_) => {
                    &&& old(self).holds(v)
                    &&& same_scalar_shape(old(self).datum(v), datum)
                    &&& final(self).capacity == old(self).capacity
                    &&& final(self).cursor == old(self).cursor
                    &&& final(self).cells@ == old(self).cells@.update(
                        v.idx as int,
                        (Cell {
                            offset: old(self).cells@[v.idx as int].offset,
                            size: old(self).cells@[v.idx as int].size,
                            datum: datum,
                        }),
                    )
                },
                Err(e) => {
                    &&& *final(self) == *old(self)
                    &&& e == RegionError::NoSuchValue <==> !old(self).holds(v)
                    &&& e == RegionError::TagMismatch <==> old(self).holds(v) && !same_scalar_shape(
                        old(self).datum(v),
                        datum,
                    )
                    &&& e == RegionError::NoSuchValue || e == RegionError::TagMismatch
                },
            },
    {
        if v.idx >= self.cells.len() {
            return Err(RegionError::NoSuchValue);
        }
        let fits: bool = scalar_shapes_agree(&self.cells[v.idx].datum, &datum);
        if !fits {
            return Err(RegionError::TagMismatch);
        }
        let ghost before = self.cells@;
        let offset: usize = self.cells[v.idx].offset;
        let size: usize = self.cells[v.idx].size;
        self.cells[v.idx] = Cell { offset, size, datum };
        proof {
            assert(cell_ok(before, v.idx as int));
            lemma_update_keeps_wf(*old(self), *self, v.idx as int);
        }
        Ok(())
    }

    /// Overwrites element `i` of an array in place.
    ///
    /// Fails with `NoSuchValue` where the region does not hold `v`, else with
    /// `TagMismatch` where the value is no array, else with `OutOfRange` where
    /// the array has no element `i`; a failed call changes nothing.
    pub fn write_elem(&mut self, v: Value, i: usize, word: u32) -> (res: Result<(), RegionError>)
        requires
            old(self).wf(),
        ensures
            final(self).wf(),
            match res {
                Ok(_) => {
                    &&& old(self).holds(v)
                    &&& old(self).datum(v) is VecArr
                    &&& i < old(self).datum(v)->VecArr_1@.len()
                    &&& final(self).capacity == old(self).capacity
                    &&& final(self).cursor == old(self).cursor
                    &&& final(self).cells@.len() == old(self).cells@.len()
                    &&& forall|j: int|
                        0 <= j < old(self).cells@.len() && j != v.idx ==> final(self).cells@[j]
                            == old(self).cells@[j]
                    &&& final(self).datum(v) is VecArr
                    &&& final(self).datum(v)->VecArr_0 == old(self).datum(v)->VecArr_0
                    &&& final(self).datum(v)->VecArr_1@ == old(self).datum(v)->VecArr_1@.update(
                        i as int,
                        word,
                    )
                },
                Err(e) => {
                    &&& *final(self) == *old(self)
                    &&& e == RegionError::NoSuchValue <==> !old(self).holds(v)
                    &&& e == RegionError::TagMismatch <==> old(self).holds(v) && !(old(self).datum(
                        v,
                    ) is VecArr)
                    &&& e == RegionError::OutOfRange <==> old(self).holds(v) && old(self).datum(
                        v,
                    ) is VecArr && i >= old(self).datum(v)->VecArr_1@.len()
                    &&& e == RegionError::NoSuchValue || e == RegionError::TagMismatch || e
                        == RegionError::OutOfRange
                },
            },
    {
        if v.idx >= self.cells.len() {
            return Err(RegionError::NoSuchValue);
        }
        match &self.cells[v.idx].datum {
            Datum::VecArr(_, words) => {
                if i >= words.len() {
                    return Err(RegionError::OutOfRange);
                }
            },
            _ => {
                return Err(RegionError::TagMismatch);
            },
        }
        let ghost before = self.cells@;
        match &mut self.cells[v.idx].datum {
            Datum::VecArr(_, words) => {
                words[i] = word;
            },
            _ => {},
        }
        proof {
            assert(cell_ok(before, v.idx as int));
            lemma_update_keeps_wf(*old(self), *self, v.idx as int);
        }
        Ok(())
    }
}

/// Two scalars of one layout and one type.
pub open spec fn same_scalar_shape(a: Datum, b: Datum) -> bool {
    is_scalar(a) && is_scalar(b) && cfg_of(a) == cfg_of(b) && kind_of(a) == kind_of(b)
}

/// Whether `a` and `b` are scalars of one layout and one type.
pub fn scalar_shapes_agree(a: &Datum, b: &Datum) -> (r: bool)
    ensures
        r == same_scalar_shape(*a, *b),
{
    match (a, b) {
        (Datum::Nil, Datum::Nil) => true,
        (Datum::Bool(_), Datum::Bool(_)) => true,
        (Datum::U32(_), Datum::U32(_)) => true,
        (Datum::I64(_), Datum::I64(_)) => true,
        (Datum::F32(_), Datum::F32(_)) => true,
        (Datum::Symbol(_), Datum::Symbol(_)) => true,
        _ => false,
    }
}

/// A region stays in order when one of its cells gets another datum of the
/// same footprint that is itself in order, a frame staying a frame.
pub proof fn lemma_update_keeps_wf(before: Region, after: Region, at: int)
    requires
        before.wf(),
        0 <= at < before.cells@.len(),
        after.capacity == before.capacity,
        after.cursor == before.cursor,
        after.cells@.len() == before.cells@.len(),
        forall|i: int|
            0 <= i < before.cells@.len() && i != at ==> after.cells@[i] == before.cells@[i],
        after.cells@[at].offset == before.cells@[at].offset,
        after.cells@[at].size == before.cells@[at].size,
        footprint(after.cells@[at].datum) == footprint(before.cells@[at].datum),
        before.cells@[at].datum is Frame ==> after.cells@[at].datum is Frame,
        cell_ok(after.cells@, at),
    ensures
        after.wf(),
{
    let b = before.cells@;
    let a = after.cells@;
    assert forall|i: int| 0 <= i < a.len() implies (#[trigger] a[i]).size == footprint(a[i].datum)
        && a[i].offset + a[i].size <= after.cursor by {
        assert(b[i].size == footprint(b[i].datum));
    }
    assert forall|i: int, j: int| 0 <= i < j < a.len() implies (#[trigger] a[i]).offset + a[i].size
        <= (#[trigger] a[j]).offset by {
        assert(b[i].offset + b[i].size <= b[j].offset);
    }
    assert forall|i: int| 0 <= i < a.len() implies #[trigger] cell_ok(a, i) by {
        if i != at {
            assert(cell_ok(b, i));
            assert(a[i] == b[i]);
        }
    }
    assert forall|i: int, j: int| 0 <= i && j == i + 1 && j < a.len() implies (
    #[trigger] a[j]).offset == (#[trigger] a[i]).offset + a[i].size by {
        assert(b[j].offset == b[i].offset + b[i].size);
    }
}

/// Two values of a region never share a byte, and each lies inside the arena.
pub proof fn lemma_allocations_disjoint(r: Region, a: Value, b: Value)
    requires
        r.wf(),
        r.holds(a),
        r.holds(b),
        a != b,
    ensures
        r.end_byte(a) <= r.first_byte(b) || r.end_byte(b) <= r.first_byte(a),
        0 <= r.first_byte(a) < r.end_byte(a) <= r.capacity,
        r.end_byte(a) - r.first_byte(a) == footprint(r.datum(a)),
{
    let i = a.idx as int;
    let j = b.idx as int;
    assert(r.cells@[i].size == footprint(r.cells@[i].datum));
    assert(r.cells@[j].size == footprint(r.cells@[j].datum));
    if i < j {
        assert(r.cells@[i].offset + r.cells@[i].size <= r.cells@[j].offset);
    } else {
        assert(r.cells@[j].offset + r.cells@[j].size <= r.cells@[i].offset);
    }
}

} // verus!
