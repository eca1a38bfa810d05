//! Environments: chains of frames inside a region. A lookup that misses in a
//! frame goes on in its parent; an insertion lands in the frame it names.

use vstd::prelude::*;
use crate::region::{Cell, Region, RegionError, cell_ok, distinct, lemma_update_keeps_wf};
use crate::value::{Datum, Frame, Value, footprint};

verus! {

/// Why an environment operation failed.
#[derive(Clone, Copy, PartialEq, Eq, Debug, Structural)]
pub enum EnvError {
    /// The handle designates no frame of the region.
    NoSuchFrame,
    /// The value to bind is not in the region.
    NoSuchValue,
    /// The frame holds as many bindings as it was created for.
    Full,
    /// The frame has a parent already.
    AlreadyLinked,
    /// The parent is no frame, or is not older than its child.
    BadParent,
    /// No frame of the chain binds the symbol.
    Unbound,
}

/// Whether the frame has a parent, in its own region or in the outer one.
pub open spec fn linked(f: Frame) -> bool {
    f.parent is Some || f.outer is Some
}

/// Where a lookup over two regions found its value.
#[derive(Clone, Copy, PartialEq, Eq, Debug, Structural)]
pub enum Found {
    /// In the region of the frame that the lookup began at.
    Here(Value),
    /// In the outer region.
    Outer(Value),
}

/// The bindings of one frame.
pub open spec fn bindings(f: Frame) -> Map<u32, Value> {
    Map::new(|k: u32| f.keys@.contains(k), |k: u32| f.vals@[f.keys@.index_of(k)])
}

/// Whether position `i` of `cells` holds a frame.
pub open spec fn is_frame(cells: Seq<Cell>, i: int) -> bool {
    0 <= i < cells.len() && cells[i].datum is Frame
}

/// The frame at position `i`.
pub open spec fn frame_at(cells: Seq<Cell>, i: int) -> Frame {
    cells[i].datum->Frame_0
}

/// The value that `key` resolves to from the frame at position `i`: its own
/// binding, else what its parent resolves it to, else nothing.
pub open spec fn chain_lookup(cells: Seq<Cell>, i: int, key: u32) -> Option<Value>
    decreases i,
{
    if is_frame(cells, i) {
        let f = frame_at(cells, i);
        if bindings(f).contains_key(key) {
            Some(bindings(f)[key])
        } else {
            match f.parent {
                Some(p) => if p.idx < i {
                    chain_lookup(cells, p.idx as int, key)
                } else {
                    None
                },
                None => None,
            }
        }
    } else {
        None
    }
}

/// Position of `key` among the keys of `f`.
fn find_key(f: &Frame, key: u32) -> (pos: Option<usize>)
    requires
        distinct(f.keys@),
    ensures
        match pos {
            Some(k) => k < f.keys@.len() && f.keys@[k as int] == key && f.keys@.contains(key)
                && f.keys@.index_of(key) == k,
            None => !f.keys@.contains(key),
        },
{
    let n: usize = f.keys.len();
    let mut i: usize = 0;
    while i < n
        invariant
            n == f.keys@.len(),
            i <= n,
            distinct(f.keys@),
            forall|j: int| 0 <= j < i ==> f.keys@[j] != key,
        decreases n - i,
    {
        if f.keys[i] == key {
            proof {
                assert(f.keys@.contains(key));
                let k = f.keys@.index_of(key);
                assert(0 <= k < f.keys@.len() && f.keys@[k] == key);
                if k < i {
                    assert(f.keys@[k] != f.keys@[i as int]);
                } else if k > i {
                    assert(f.keys@[i as int] != f.keys@[k]);
                }
            }
            return Some(i);
        }
        i = i + 1;
    }
    proof {
        if f.keys@.contains(key) {
            let k = choose|k: int| 0 <= k < f.keys@.len() && f.keys@[k] == key;
            assert(f.keys@[k] != key);
        }
    }
    None
}

/// Allocates an empty frame without a parent, with room for `capacity`
/// bindings. Fails with `Exhausted` exactly where the region has too few
/// bytes left for it.
pub fn create_frame(region: &mut Region, capacity: usize) -> (res: Result<Value, RegionError>)
    requires
        old(region).wf(),
    ensures
        final(region).wf(),
        final(region).capacity == old(region).capacity,
        match res {
            Ok(v) => {
                &&& old(region).cursor + 16 + 16 * capacity <= old(region).capacity
                &&& v.idx == old(region).cells@.len()
                &&& final(region).cells@.len() == old(region).cells@.len() + 1
                &&& final(region).cursor == old(region).cursor + 16 + 16 * capacity
                &&& forall|i: int|
                    0 <= i < old(region).cells@.len() ==> final(region).cells@[i] == old(
                        region,
                    ).cells@[i]
                &&& is_frame(final(region).cells@, v.idx as int)
                &&& final(region).cells@[v.idx as int].offset == old(region).cursor
                &&& final(region).cells@[v.idx as int].size == 16 + 16 * capacity
                &&& frame_at(final(region).cells@, v.idx as int).capacity == capacity
                &&& frame_at(final(region).cells@, v.idx as int).parent is None
                &&& frame_at(final(region).cells@, v.idx as int).outer is None
                &&& frame_at(final(region).cells@, v.idx as int).keys@.len() == 0
                &&& bindings(frame_at(final(region).cells@, v.idx as int)) == Map::<
                    u32,
                    Value,
                >::empty()
            },
            Err(e) => {
                &&& *final(region) == *old(region)
                &&& e == RegionError::Exhausted
                &&& old(region).cursor + 16 + 16 * capacity > old(region).capacity
            },
        },
{
    let f = Frame { capacity, keys: Vec::new(), vals: Vec::new(), parent: None, outer: None };
    let res = region.allocate(Datum::Frame(f));
    proof {
        assert(footprint(Datum::Frame(f)) == 16 + 16 * capacity);
        if res is Ok {
            assert(bindings(f) =~= Map::<u32, Value>::empty());
        }
    }
    res
}

/// Sets the parent of `frame`, once, to a frame of the same region. In order,
/// fails with `NoSuchFrame` where `frame` is no frame of the region, with
/// `AlreadyLinked` where it has a parent in either region, and with
/// `BadParent` where `parent` is no frame allocated before `frame`; a failed
/// call changes nothing.
pub fn link(region: &mut Region, frame: Value, parent: Value) -> (res: Result<(), EnvError>)
    requires
        old(region).wf(),
    ensures
        final(region).wf(),
        final(region).capacity == old(region).capacity,
        final(region).cursor == old(region).cursor,
        match res {
            Ok(_) => {
                &&& is_frame(old(region).cells@, frame.idx as int)
                &&& !linked(frame_at(old(region).cells@, frame.idx as int))
                &&& is_frame(old(region).cells@, parent.idx as int)
                &&& parent.idx < frame.idx
                &&& final(region).cells@.len() == old(region).cells@.len()
                &&& forall|i: int|
                    0 <= i < old(region).cells@.len() && i != frame.idx ==> final(region).cells@[i]
                        == old(region).cells@[i]
                &&& is_frame(final(region).cells@, frame.idx as int)
                &&& final(region).cells@[frame.idx as int].offset == old(
                    region,
                ).cells@[frame.idx as int].offset
                &&& final(region).cells@[frame.idx as int].size == old(
                    region,
                ).cells@[frame.idx as int].size
                &&& frame_at(final(region).cells@, frame.idx as int).parent == Some(parent)
                &&& frame_at(final(region).cells@, frame.idx as int).outer is None
                &&& frame_at(final(region).cells@, frame.idx as int).capacity == frame_at(
                    old(region).cells@,
                    frame.idx as int,
                ).capacity
                &&& frame_at(final(region).cells@, frame.idx as int).keys == frame_at(
                    old(region).cells@,
                    frame.idx as int,
                ).keys
                &&& frame_at(final(region).cells@, frame.idx as int).vals == frame_at(
                    old(region).cells@,
                    frame.idx as int,
                ).vals
            },
            Err(e) => {
                &&& *final(region) == *old(region)
                &&& e == EnvError::NoSuchFrame <==> !is_frame(old(region).cells@, frame.idx as int)
                &&& e == EnvError::AlreadyLinked <==> is_frame(old(region).cells@, frame.idx as int)
                    && linked(frame_at(old(region).cells@, frame.idx as int))
                &&& e == EnvError::BadParent <==> is_frame(old(region).cells@, frame.idx as int)
                    && !linked(frame_at(old(region).cells@, frame.idx as int)) && !(is_frame(
                    old(region).cells@,
                    parent.idx as int,
                ) && parent.idx < frame.idx)
                &&& e == EnvError::NoSuchFrame || e == EnvError::AlreadyLinked || e
                    == EnvError::BadParent
            },
        },
{
    if frame.idx >= region.cells.len() {
        return Err(EnvError::NoSuchFrame);
    }
    match &region.cells[frame.idx].datum {
        Datum::Frame(f) => {
            if f.parent.is_some() || f.outer.is_some() {
                return Err(EnvError::AlreadyLinked);
            }
        },
        _ => {
            return Err(EnvError::NoSuchFrame);
        },
    }
    if parent.idx >= frame.idx {
        return Err(EnvError::BadParent);
    }
    match &region.cells[parent.idx].datum {
        Datum::Frame(_) => {},
        _ => {
            return Err(EnvError::BadParent);
        },
    }
    let ghost before = region.cells@;
    match &mut region.cells[frame.idx].datum {
        Datum::Frame(f) => {
            f.parent = Some(parent);
        },
        _ => {},
    }
    proof {
        assert(cell_ok(before, frame.idx as int));
        assert(frame_at(region.cells@, frame.idx as int).vals == frame_at(
            before,
            frame.idx as int,
        ).vals);
        assert(region.cells@[parent.idx as int] == before[parent.idx as int]);
        lemma_update_keeps_wf(*old(region), *region, frame.idx as int);
    }
    Ok(())
}

/// Whether `insert` of `key` into `frame` would find the frame and room in
/// it: fails with `NoSuchFrame` where `frame` is no frame of the region, and
/// with `Full` where the key is new and the frame has no room.
pub fn check_insert(region: &Region, frame: Value, key: u32) -> (res: Result<(), EnvError>)
    requires
        region.wf(),
    ensures
        match res {
            Ok(_) => {
                &&& is_frame(region.cells@, frame.idx as int)
                &&& bindings(frame_at(region.cells@, frame.idx as int)).contains_key(key)
                    || frame_at(region.cells@, frame.idx as int).keys@.len() < frame_at(
                    region.cells@,
                    frame.idx as int,
                ).capacity
            },
            Err(e) => {
                &&& e == EnvError::NoSuchFrame <==> !is_frame(region.cells@, frame.idx as int)
                &&& e == EnvError::Full <==> is_frame(region.cells@, frame.idx as int) && !bindings(
                    frame_at(region.cells@, frame.idx as int),
                ).contains_key(key) && frame_at(region.cells@, frame.idx as int).keys@.len()
                    >= frame_at(region.cells@, frame.idx as int).capacity
                &&& e == EnvError::NoSuchFrame || e == EnvError::Full
            },
        },
{
    if frame.idx >= region.cells.len() {
        return Err(EnvError::NoSuchFrame);
    }
    proof {
        assert(cell_ok(region.cells@, frame.idx as int));
    }
    match &region.cells[frame.idx].datum {
        Datum::Frame(f) => {
            if find_key(f, key).is_none() && f.keys.len() >= f.capacity {
                Err(EnvError::Full)
            } else {
                Ok(())
            }
        },
        _ => Err(EnvError::NoSuchFrame),
    }
}

/// Binds `key` to `val` in `frame` itself, replacing the frame's own binding
/// of `key` if it has one. In order, fails with `NoSuchFrame` where `frame` is
/// no frame of the region, with `NoSuchValue` where the region does not hold
/// `val`, and with `Full` where the key is new and the frame has no room; a
/// failed call changes nothing.
pub fn insert(region: &mut Region, frame: Value, key: u32, val: Value) -> (res: Result<
    (),
    EnvError,
>)
    requires
        old(region).wf(),
    ensures
        final(region).wf(),
        final(region).capacity == old(region).capacity,
        final(region).cursor == old(region).cursor,
        match res {
            Ok(_) => {
                &&& is_frame(old(region).cells@, frame.idx as int)
                &&& old(region).holds(val)
                &&& bindings(frame_at(old(region).cells@, frame.idx as int)).contains_key(key)
                    || frame_at(old(region).cells@, frame.idx as int).keys@.len() < frame_at(
                    old(region).cells@,
                    frame.idx as int,
                ).capacity
                &&& final(region).cells@.len() == old(region).cells@.len()
                &&& forall|i: int|
                    0 <= i < old(region).cells@.len() && i != frame.idx ==> final(region).cells@[i]
                        == old(region).cells@[i]
                &&& is_frame(final(region).cells@, frame.idx as int)
                &&& final(region).cells@[frame.idx as int].offset == old(
                    region,
                ).cells@[frame.idx as int].offset
                &&& final(region).cells@[frame.idx as int].size == old(
                    region,
                ).cells@[frame.idx as int].size
                &&& frame_at(final(region).cells@, frame.idx as int).parent == frame_at(
                    old(region).cells@,
                    frame.idx as int,
                ).parent
                &&& frame_at(final(region).cells@, frame.idx as int).outer == frame_at(
                    old(region).cells@,
                    frame.idx as int,
                ).outer
                &&& frame_at(final(region).cells@, frame.idx as int).capacity == frame_at(
                    old(region).cells@,
                    frame.idx as int,
                ).capacity
                &&& bindings(frame_at(final(region).cells@, frame.idx as int)) == bindings(
                    frame_at(old(region).cells@, frame.idx as int),
                ).insert(key, val)
                &&& frame_at(final(region).cells@, frame.idx as int).keys@.len() == if bindings(
                    frame_at(old(region).cells@, frame.idx as int),
                ).contains_key(key) {
                    frame_at(old(region).cells@, frame.idx as int).keys@.len()
                } else {
                    frame_at(old(region).cells@, frame.idx as int).keys@.len() + 1
                }
            },
            Err(e) => {
                &&& *final(region) == *old(region)
                &&& e == EnvError::NoSuchFrame <==> !is_frame(old(region).cells@, frame.idx as int)
                &&& e == EnvError::NoSuchValue <==> is_frame(old(region).cells@, frame.idx as int)
                    && !old(region).holds(val)
                &&& e == EnvError::Full <==> is_frame(old(region).cells@, frame.idx as int) && old(
                    region,
                ).holds(val) && !bindings(
                    frame_at(old(region).cells@, frame.idx as int),
                ).contains_key(key) && frame_at(old(region).cells@, frame.idx as int).keys@.len()
                    >= frame_at(old(region).cells@, frame.idx as int).capacity
                &&& e == EnvError::NoSuchFrame || e == EnvError::NoSuchValue || e == EnvError::Full
            },
        },
{
    if frame.idx >= region.cells.len() {
        return Err(EnvError::NoSuchFrame);
    }
    proof {
        assert(cell_ok(region.cells@, frame.idx as int));
    }
    let pos: Option<usize>;
    let full: bool;
    match &region.cells[frame.idx].datum {
        Datum::Frame(f) => {
            pos = find_key(f, key);
            full = f.keys.len() >= f.capacity;
        },
        _ => {
            return Err(EnvError::NoSuchFrame);
        },
    }
    if val.idx >= region.cells.len() {
        return Err(EnvError::NoSuchValue);
    }
    if pos.is_none() && full {
        return Err(EnvError::Full);
    }
    let ghost before = frame_at(region.cells@, frame.idx as int);
    match &mut region.cells[frame.idx].datum {
        Datum::Frame(f) => {
            match pos {
                Some(k) => {
                    f.vals[k] = val;
                },
                None => {
                    f.keys.push(key);
                    f.vals.push(val);
                },
            }
        },
        _ => {},
    }
    proof {
        let after = frame_at(region.cells@, frame.idx as int);
        lemma_bindings_after_insert(before, after, key, val);
        lemma_update_keeps_wf(*old(region), *region, frame.idx as int);
    }
    Ok(())
}

/// Resolves `key` from `frame` through the chain of parents. Fails with
/// `NoSuchFrame` where `frame` is no frame of the region, and with `Unbound`
/// where no frame of the chain binds the key.
pub fn lookup(region: &Region, frame: Value, key: u32) -> (res: Result<Value, EnvError>)
    requires
        region.wf(),
    ensures
        match res {
            Ok(v) => chain_lookup(region.cells@, frame.idx as int, key) == Some(v) && region.holds(
                v,
            ),
            Err(e) => {
                &&& e == EnvError::NoSuchFrame <==> !is_frame(region.cells@, frame.idx as int)
                &&& e == EnvError::Unbound <==> is_frame(region.cells@, frame.idx as int)
                    && chain_lookup(region.cells@, frame.idx as int, key) is None
                &&& e == EnvError::NoSuchFrame || e == EnvError::Unbound
            },
        },
{
    if frame.idx >= region.cells.len() {
        return Err(EnvError::NoSuchFrame);
    }
    match &region.cells[frame.idx].datum {
        Datum::Frame(_) => {},
        _ => {
            return Err(EnvError::NoSuchFrame);
        },
    }
    let mut cur: usize = frame.idx;
    loop
        invariant
            region.wf(),
            is_frame(region.cells@, cur as int),
            is_frame(region.cells@, frame.idx as int),
            chain_lookup(region.cells@, cur as int, key) == chain_lookup(
                region.cells@,
                frame.idx as int,
                key,
            ),
        decreases cur,
    {
        proof {
            assert(cell_ok(region.cells@, cur as int));
        }
        match &region.cells[cur].datum {
            Datum::Frame(f) => {
                match find_key(f, key) {
                    Some(k) => {
                        return Ok(f.vals[k]);
                    },
                    None => {
                        match f.parent {
                            Some(p) => {
                                cur = p.idx;
                            },
                            None => {
                                return Err(EnvError::Unbound);
                            },
                        }
                    },
                }
            },
            _ => {
                return Err(EnvError::Unbound);
            },
        }
    }
}

/// The value that `key` resolves to from the frame at position `i` of `cells`
/// when the chain may go on in an outer region: a binding of the chain in
/// `cells`, else, where the last frame of that chain names a frame of
/// `outer`, what `key` resolves to from there.
pub open spec fn lookup_across(cells: Seq<Cell>, outer: Seq<Cell>, i: int, key: u32) -> Option<
    Found,
>
    decreases i,
{
    if is_frame(cells, i) {
        let f = frame_at(cells, i);
        if bindings(f).contains_key(key) {
            Some(Found::Here(bindings(f)[key]))
        } else {
            match f.parent {
                Some(p) => if p.idx < i {
                    lookup_across(cells, outer, p.idx as int, key)
                } else {
                    None
                },
                None => match f.outer {
                    Some(q) => match chain_lookup(outer, q.idx as int, key) {
                        Some(v) => Some(Found::Outer(v)),
                        None => None,
                    },
                    None => None,
                },
            }
        }
    } else {
        None
    }
}

/// Sets the parent of `frame`, once, to the frame `parent` of the region
/// `outer`: lookups that miss in `frame` go on there. In order, fails with
/// `NoSuchFrame` where `frame` is no frame of `region`, with `AlreadyLinked`
/// where it has a parent in either region, and with `BadParent` where
/// `parent` is no frame of `outer`; a failed call changes nothing.
pub fn link_outer(region: &mut Region, frame: Value, outer: &Region, parent: Value) -> (res: Result<
    (),
    EnvError,
>)
    requires
        old(region).wf(),
    ensures
        final(region).wf(),
        final(region).capacity == old(region).capacity,
        final(region).cursor == old(region).cursor,
        match res {
            Ok(_) => {
                &&& is_frame(old(region).cells@, frame.idx as int)
                &&& !linked(frame_at(old(region).cells@, frame.idx as int))
                &&& is_frame(outer.cells@, parent.idx as int)
                &&& final(region).cells@.len() == old(region).cells@.len()
                &&& forall|i: int|
                    0 <= i < old(region).cells@.len() && i != frame.idx ==> final(region).cells@[i]
                        == old(region).cells@[i]
                &&& is_frame(final(region).cells@, frame.idx as int)
                &&& final(region).cells@[frame.idx as int].offset == old(
                    region,
                ).cells@[frame.idx as int].offset
                &&& final(region).cells@[frame.idx as int].size == old(
                    region,
                ).cells@[frame.idx as int].size
                &&& frame_at(final(region).cells@, frame.idx as int).outer == Some(parent)
                &&& frame_at(final(region).cells@, frame.idx as int).parent is None
                &&& frame_at(final(region).cells@, frame.idx as int).capacity == frame_at(
                    old(region).cells@,
                    frame.idx as int,
                ).capacity
                &&& frame_at(final(region).cells@, frame.idx as int).keys == frame_at(
                    old(region).cells@,
                    frame.idx as int,
                ).keys
                &&& frame_at(final(region).cells@, frame.idx as int).vals == frame_at(
                    old(region).cells@,
                    frame.idx as int,
                ).vals
            },
            Err(e) => {
                &&& *final(region) == *old(region)
                &&& e == EnvError::NoSuchFrame <==> !is_frame(old(region).cells@, frame.idx as int)
                &&& e == EnvError::AlreadyLinked <==> is_frame(old(region).cells@, frame.idx as int)
                    && linked(frame_at(old(region).cells@, frame.idx as int))
                &&& e == EnvError::BadParent <==> is_frame(old(region).cells@, frame.idx as int)
                    && !linked(frame_at(old(region).cells@, frame.idx as int)) && !is_frame(
                    outer.cells@,
                    parent.idx as int,
                )
                &&& e == EnvError::NoSuchFrame || e == EnvError::AlreadyLinked || e
                    == EnvError::BadParent
            },
        },
{
    if frame.idx >= region.cells.len() {
        return Err(EnvError::NoSuchFrame);
    }
    match &region.cells[frame.idx].datum {
        Datum::Frame(f) => {
            if f.parent.is_some() || f.outer.is_some() {
                return Err(EnvError::AlreadyLinked);
            }
        },
        _ => {
            return Err(EnvError::NoSuchFrame);
        },
    }
    if parent.idx >= outer.cells.len() {
        return Err(EnvError::BadParent);
    }
    match &outer.cells[parent.idx].datum {
        Datum::Frame(_) => {},
        _ => {
            return Err(EnvError::BadParent);
        },
    }
    let ghost before = region.cells@;
    match &mut region.cells[frame.idx].datum {
        Datum::Frame(f) => {
            f.outer = Some(parent);
        },
        _ => {},
    }
    proof {
        assert(cell_ok(before, frame.idx as int));
        assert(frame_at(region.cells@, frame.idx as int).vals == frame_at(
            before,
            frame.idx as int,
        ).vals);
        lemma_update_keeps_wf(*old(region), *region, frame.idx as int);
    }
    Ok(())
}

/// Resolves `key` from `frame` through the chain of parents in `region` and,
/// where that chain ends in a frame with a parent in `outer`, through the
/// chain there; says in which region the value lies. Fails with `NoSuchFrame`
/// where `frame` is no frame of `region`, and with `Unbound` where no frame of
/// either chain binds the key.
pub fn lookup_over(region: &Region, outer: &Region, frame: Value, key: u32) -> (res: Result<
    Found,
    EnvError,
>)
    requires
        region.wf(),
        outer.wf(),
    ensures
        match res {
            Ok(found) => {
                &&& lookup_across(region.cells@, outer.cells@, frame.idx as int, key) == Some(found)
                &&& found matches Found::Here(v) ==> region.holds(v)
                &&& found matches Found::Outer(v) ==> outer.holds(v)
            },
            Err(e) => {
                &&& e == EnvError::NoSuchFrame <==> !is_frame(region.cells@, frame.idx as int)
                &&& e == EnvError::Unbound <==> is_frame(region.cells@, frame.idx as int)
                    && lookup_across(region.cells@, outer.cells@, frame.idx as int, key) is None
                &&& e == EnvError::NoSuchFrame || e == EnvError::Unbound
            },
        },
{
    if frame.idx >= region.cells.len() {
        return Err(EnvError::NoSuchFrame);
    }
    match &region.cells[frame.idx].datum {
        Datum::Frame(_) => {},
        _ => {
            return Err(EnvError::NoSuchFrame);
        },
    }
    let mut cur: usize = frame.idx;
    loop
        invariant
            region.wf(),
            outer.wf(),
            is_frame(region.cells@, cur as int),
            is_frame(region.cells@, frame.idx as int),
            lookup_across(region.cells@, outer.cells@, cur as int, key) == lookup_across(
                region.cells@,
                outer.cells@,
                frame.idx as int,
                key,
            ),
        decreases cur,
    {
        proof {
            assert(cell_ok(region.cells@, cur as int));
        }
        match &region.cells[cur].datum {
            Datum::Frame(f) => {
                match find_key(f, key) {
                    Some(k) => {
                        return Ok(Found::Here(f.vals[k]));
                    },
                    None => {
                        match f.parent {
                            Some(p) => {
                                cur = p.idx;
                            },
                            None => {
                                return match f.outer {
                                    Some(q) => match lookup(outer, q, key) {
                                        Ok(v) => Ok(Found::Outer(v)),
                                        Err(_) => Err(EnvError::Unbound),
                                    },
                                    None => Err(EnvError::Unbound),
                                };
                            },
                        }
                    },
                }
            },
            _ => {
                return Err(EnvError::Unbound);
            },
        }
    }
}

/// What binding `key` to `val` does to a frame's bindings, whether the key was
/// bound before or is appended.
proof fn lemma_bindings_after_insert(before: Frame, after: Frame, key: u32, val: Value)
    requires
        distinct(before.keys@),
        before.keys@.len() == before.vals@.len(),
        before.keys@.contains(key) ==> after.keys@ == before.keys@ && after.vals@
            == before.vals@.update(before.keys@.index_of(key), val),
        !before.keys@.contains(key) ==> after.keys@ == before.keys@.push(key) && after.vals@
            == before.vals@.push(val),
    ensures
        distinct(after.keys@),
        after.keys@.len() == after.vals@.len(),
        bindings(after) == bindings(before).insert(key, val),
{
    let bk = before.keys@;
    let ak = after.keys@;
    if bk.contains(key) {
        let p = bk.index_of(key);
        assert(0 <= p < bk.len() && bk[p] == key);
        assert forall|k: u32| #[trigger] bindings(after).contains_key(k) implies bindings(after)[k]
            == bindings(before).insert(key, val)[k] by {
            let q = bk.index_of(k);
            assert(0 <= q < bk.len() && bk[q] == k);
            if k != key {
                assert(q != p);
            } else {
                if q < p {
                    assert(bk[q] != bk[p]);
                } else if p < q {
                    assert(bk[p] != bk[q]);
                }
            }
        }
        assert(bindings(after) =~= bindings(before).insert(key, val));
    } else {
        assert forall|i: int, j: int| 0 <= i < j < ak.len() implies ak[i] != ak[j] by {
            if j < bk.len() {
                assert(bk[i] != bk[j]);
            } else {
                assert(bk.contains(bk[i]));
            }
        }
        assert forall|k: u32| bindings(after).contains_key(k) <==> bindings(before).insert(
            key,
            val,
        ).contains_key(k) by {
            if bk.contains(k) {
                let q = bk.index_of(k);
                assert(0 <= q < bk.len() && bk[q] == k);
                assert(ak[q] == k);
            }
            if k == key {
                assert(ak[bk.len() as int] == key);
            }
            if ak.contains(k) && k != key {
                let q = ak.index_of(k);
                assert(0 <= q < ak.len() && ak[q] == k);
                assert(q < bk.len());
                assert(bk[q] == k);
            }
        }
        assert forall|k: u32| #[trigger] bindings(after).contains_key(k) implies bindings(after)[k]
            == bindings(before).insert(key, val)[k] by {
            let q = ak.index_of(k);
            assert(0 <= q < ak.len() && ak[q] == k);
            if k == key {
                assert(ak[bk.len() as int] == key);
                if q < bk.len() {
                    assert(ak[q] != ak[bk.len() as int]);
                }
            } else {
                assert(q < bk.len());
                let q0 = bk.index_of(k);
                assert(bk.contains(k));
                assert(0 <= q0 < bk.len() && bk[q0] == k);
                if q0 < q {
                    assert(bk[q0] != bk[q]);
                } else if q < q0 {
                    assert(bk[q] != bk[q0]);
                }
            }
        }
        assert(bindings(after) =~= bindings(before).insert(key, val));
    }
}

/// A frame's own binding wins: whatever its ancestors bind, a lookup rooted at
/// the frame yields what the frame itself binds the key to.
pub proof fn lemma_own_binding_shadows(cells: Seq<Cell>, i: int, key: u32)
    requires
        is_frame(cells, i),
        bindings(frame_at(cells, i)).contains_key(key),
    ensures
        chain_lookup(cells, i, key) == Some(bindings(frame_at(cells, i))[key]),
{
}

/// A lookup that misses in a frame goes on in the parent: it yields what a
/// lookup rooted at the parent yields.
pub proof fn lemma_miss_falls_back(cells: Seq<Cell>, i: int, parent: Value, key: u32)
    requires
        is_frame(cells, i),
        !bindings(frame_at(cells, i)).contains_key(key),
        frame_at(cells, i).parent == Some(parent),
        parent.idx < i,
    ensures
        chain_lookup(cells, i, key) == chain_lookup(cells, parent.idx as int, key),
{
}

/// A lookup depends on the cells up to its root only: a change to a younger
/// cell, such as an insertion into a descendant frame, leaves it as it was.
pub proof fn lemma_lookup_ignores_younger(a: Seq<Cell>, b: Seq<Cell>, i: int, key: u32)
    requires
        0 <= i < a.len(),
        i < b.len(),
        forall|j: int| 0 <= j <= i ==> a[j] == b[j],
    ensures
        chain_lookup(a, i, key) == chain_lookup(b, i, key),
    decreases i,
{
    if is_frame(a, i) {
        let f = frame_at(a, i);
        if !bindings(f).contains_key(key) {
            match f.parent {
                Some(p) => {
                    if p.idx < i {
                        lemma_lookup_ignores_younger(a, b, p.idx as int, key);
                    }
                },
                None => {},
            }
        }
    }
}

/// In a chain of three frames, the root last, a key bound in the root alone is
/// seen from the innermost frame; binding it in the innermost frame then
/// shadows the root's binding there and leaves the root's own answer as it
/// was.
pub proof fn lemma_chain_of_three(
    before: Seq<Cell>,
    after: Seq<Cell>,
    f0: Value,
    f1: Value,
    f2: Value,
    key: u32,
    v: Value,
    w: Value,
)
    requires
        is_frame(before, f0.idx as int),
        is_frame(before, f1.idx as int),
        is_frame(before, f2.idx as int),
        f2.idx < f1.idx < f0.idx,
        frame_at(before, f0.idx as int).parent == Some(f1),
        frame_at(before, f1.idx as int).parent == Some(f2),
        frame_at(before, f2.idx as int).parent is None,
        !bindings(frame_at(before, f0.idx as int)).contains_key(key),
        !bindings(frame_at(before, f1.idx as int)).contains_key(key),
        bindings(frame_at(before, f2.idx as int)).contains_key(key),
        bindings(frame_at(before, f2.idx as int))[key] == v,
        after.len() == before.len(),
        forall|i: int| 0 <= i < before.len() && i != f0.idx ==> after[i] == before[i],
        is_frame(after, f0.idx as int),
        bindings(frame_at(after, f0.idx as int)) == bindings(
            frame_at(before, f0.idx as int),
        ).insert(key, w),
    ensures
        chain_lookup(before, f0.idx as int, key) == Some(v),
        chain_lookup(after, f0.idx as int, key) == Some(w),
        chain_lookup(after, f2.idx as int, key) == Some(v),
{
    lemma_own_binding_shadows(before, f2.idx as int, key);
    lemma_miss_falls_back(before, f1.idx as int, f2, key);
    lemma_miss_falls_back(before, f0.idx as int, f1, key);
    lemma_own_binding_shadows(after, f0.idx as int, key);
    lemma_lookup_ignores_younger(before, after, f2.idx as int, key);
}

/// Where no chain leaves the region, a lookup over two regions is the lookup
/// in the one: it finds what `chain_lookup` finds, in the same region.
pub proof fn lemma_across_agrees(cells: Seq<Cell>, outer: Seq<Cell>, i: int, key: u32)
    ensures
        chain_lookup(cells, i, key) matches Some(v) ==> lookup_across(cells, outer, i, key)
            == Some(Found::Here(v)),
        lookup_across(cells, outer, i, key) matches Some(Found::Here(v)) ==> chain_lookup(
            cells,
            i,
            key,
        ) == Some(v),
    decreases i,
{
    if is_frame(cells, i) {
        let f = frame_at(cells, i);
        if !bindings(f).contains_key(key) {
            match f.parent {
                Some(p) => {
                    if p.idx < i {
                        lemma_across_agrees(cells, outer, p.idx as int, key);
                    }
                },
                None => {},
            }
        }
    }
}

/// A frame whose parent lies in the outer region sees the bindings of that
/// parent's chain, unless it binds the key itself: its own binding shadows
/// the outer one, and the outer region's own answer stays as it was.
pub proof fn lemma_outer_parent_is_seen(
    cells: Seq<Cell>,
    outer: Seq<Cell>,
    frame: Value,
    parent: Value,
    key: u32,
)
    requires
        is_frame(cells, frame.idx as int),
        frame_at(cells, frame.idx as int).parent is None,
        frame_at(cells, frame.idx as int).outer == Some(parent),
    ensures
        lookup_across(cells, outer, frame.idx as int, key) == if bindings(
            frame_at(cells, frame.idx as int),
        ).contains_key(key) {
            Some(Found::Here(bindings(frame_at(cells, frame.idx as int))[key]))
        } else {
            match chain_lookup(outer, parent.idx as int, key) {
                Some(v) => Some(Found::Outer(v)),
                None => None,
            }
        },
{
}

} // verus!
