use stark::env::{
    check_insert, create_frame, insert, link, link_outer, lookup, lookup_over, EnvError, Found,
};
use stark::region::{Region, RegionError};
use stark::value::{Datum, Value};

#[test]
fn a_binding_in_the_root_is_seen_from_the_innermost_frame() {
    let mut r = Region::acquire(4096);
    let f2 = create_frame(&mut r, 4).unwrap();
    let f1 = create_frame(&mut r, 4).unwrap();
    let f0 = create_frame(&mut r, 4).unwrap();
    assert_eq!(link(&mut r, f1, f2), Ok(()));
    assert_eq!(link(&mut r, f0, f1), Ok(()));
    let v = r.allocate(Datum::I64(10)).unwrap();
    let w = r.allocate(Datum::I64(20)).unwrap();
    let k: u32 = 42;
    assert_eq!(lookup(&r, f0, k), Err(EnvError::Unbound));
    assert_eq!(insert(&mut r, f2, k, v), Ok(()));
    assert_eq!(lookup(&r, f0, k), Ok(v));
    assert_eq!(lookup(&r, f1, k), Ok(v));
    assert_eq!(lookup(&r, f2, k), Ok(v));
    assert_eq!(insert(&mut r, f0, k, w), Ok(()));
    assert_eq!(lookup(&r, f0, k), Ok(w));
    assert_eq!(lookup(&r, f1, k), Ok(v));
    assert_eq!(lookup(&r, f2, k), Ok(v));
}

#[test]
fn an_insertion_never_walks_to_the_parent() {
    let mut r = Region::acquire(4096);
    let root = create_frame(&mut r, 2).unwrap();
    let child = create_frame(&mut r, 2).unwrap();
    link(&mut r, child, root).unwrap();
    let v = r.allocate(Datum::U32(1)).unwrap();
    insert(&mut r, child, 7, v).unwrap();
    assert_eq!(lookup(&r, child, 7), Ok(v));
    assert_eq!(lookup(&r, root, 7), Err(EnvError::Unbound));
}

#[test]
fn rebinding_replaces_and_takes_no_room() {
    let mut r = Region::acquire(4096);
    let f = create_frame(&mut r, 2).unwrap();
    let a = r.allocate(Datum::U32(1)).unwrap();
    let b = r.allocate(Datum::U32(2)).unwrap();
    let used = r.used();
    assert_eq!(insert(&mut r, f, 1, a), Ok(()));
    assert_eq!(insert(&mut r, f, 2, a), Ok(()));
    assert_eq!(insert(&mut r, f, 3, a), Err(EnvError::Full));
    assert_eq!(insert(&mut r, f, 1, b), Ok(()));
    assert_eq!(insert(&mut r, f, 2, b), Ok(()));
    assert_eq!(lookup(&r, f, 1), Ok(b));
    assert_eq!(lookup(&r, f, 2), Ok(b));
    assert_eq!(lookup(&r, f, 3), Err(EnvError::Unbound));
    assert_eq!(r.used(), used);
    assert_eq!(check_insert(&r, f, 1), Ok(()));
    assert_eq!(check_insert(&r, f, 3), Err(EnvError::Full));
    assert_eq!(check_insert(&r, a, 3), Err(EnvError::NoSuchFrame));
}

#[test]
fn a_frame_takes_sixteen_bytes_and_sixteen_for_each_binding() {
    let mut r = Region::acquire(100);
    let f = create_frame(&mut r, 3).unwrap();
    assert_eq!(r.block(f), Some((0, 64)));
    assert_eq!(create_frame(&mut r, 2), Err(RegionError::Exhausted));
    let g = create_frame(&mut r, 1).unwrap();
    assert_eq!(r.block(g), Some((64, 32)));
    assert_eq!(create_frame(&mut r, 0), Err(RegionError::Exhausted));
    assert_eq!(create_frame(&mut r, usize::MAX), Err(RegionError::Exhausted));
    assert_eq!(r.used(), 96);
}

#[test]
fn a_frame_without_room_binds_nothing() {
    let mut r = Region::acquire(1000);
    let f = create_frame(&mut r, 0).unwrap();
    let v = r.allocate(Datum::Nil).unwrap();
    assert_eq!(insert(&mut r, f, 1, v), Err(EnvError::Full));
    assert_eq!(lookup(&r, f, 1), Err(EnvError::Unbound));
}

#[test]
fn the_parent_is_set_once_and_is_older() {
    let mut r = Region::acquire(4096);
    let a = create_frame(&mut r, 1).unwrap();
    let b = create_frame(&mut r, 1).unwrap();
    let c = create_frame(&mut r, 1).unwrap();
    let n = r.allocate(Datum::Nil).unwrap();
    assert_eq!(link(&mut r, a, b), Err(EnvError::BadParent));
    assert_eq!(link(&mut r, a, a), Err(EnvError::BadParent));
    assert_eq!(link(&mut r, n, a), Err(EnvError::NoSuchFrame));
    assert_eq!(link(&mut r, Value { idx: 99 }, a), Err(EnvError::NoSuchFrame));
    let m = r.allocate(Datum::Nil).unwrap();
    let d = create_frame(&mut r, 1).unwrap();
    assert_eq!(link(&mut r, d, m), Err(EnvError::BadParent));
    assert_eq!(link(&mut r, d, Value { idx: 99 }), Err(EnvError::BadParent));
    assert_eq!(link(&mut r, c, a), Ok(()));
    assert_eq!(link(&mut r, c, b), Err(EnvError::AlreadyLinked));
    assert_eq!(link(&mut r, c, Value { idx: 99 }), Err(EnvError::AlreadyLinked));
    let v = r.allocate(Datum::U32(5)).unwrap();
    insert(&mut r, a, 1, v).unwrap();
    insert(&mut r, b, 2, v).unwrap();
    assert_eq!(lookup(&r, c, 1), Ok(v));
    assert_eq!(lookup(&r, c, 2), Err(EnvError::Unbound));
}

#[test]
fn handles_that_are_no_frames_are_refused() {
    let mut r = Region::acquire(4096);
    let f = create_frame(&mut r, 1).unwrap();
    let v = r.allocate(Datum::U32(5)).unwrap();
    assert_eq!(insert(&mut r, v, 1, v), Err(EnvError::NoSuchFrame));
    assert_eq!(insert(&mut r, Value { idx: 50 }, 1, v), Err(EnvError::NoSuchFrame));
    assert_eq!(insert(&mut r, f, 1, Value { idx: 50 }), Err(EnvError::NoSuchValue));
    assert_eq!(lookup(&r, v, 1), Err(EnvError::NoSuchFrame));
    assert_eq!(lookup(&r, Value { idx: 50 }, 1), Err(EnvError::NoSuchFrame));
    assert_eq!(lookup(&r, f, 1), Err(EnvError::Unbound));
}

#[test]
fn a_frame_may_bind_a_value_allocated_after_it() {
    let mut r = Region::acquire(4096);
    let f = create_frame(&mut r, 2).unwrap();
    let g = create_frame(&mut r, 2).unwrap();
    let v = r.allocate(Datum::U32(5)).unwrap();
    assert_eq!(insert(&mut r, f, 9, v), Ok(()));
    assert_eq!(insert(&mut r, f, 8, g), Ok(()));
    assert_eq!(lookup(&r, f, 9), Ok(v));
    assert_eq!(lookup(&r, f, 8), Ok(g));
}

#[test]
fn a_frame_sees_the_bindings_of_its_parent_in_the_outer_region() {
    let mut main = Region::acquire(4096);
    let root = create_frame(&mut main, 4).unwrap();
    let globals = create_frame(&mut main, 4).unwrap();
    link(&mut main, globals, root).unwrap();
    let ten = main.allocate(Datum::I64(10)).unwrap();
    let twenty = main.allocate(Datum::I64(20)).unwrap();
    insert(&mut main, root, 1, ten).unwrap();
    insert(&mut main, globals, 2, twenty).unwrap();

    let mut rndr = Region::acquire(4096);
    let pad = rndr.allocate(Datum::Nil).unwrap();
    let base = create_frame(&mut rndr, 4).unwrap();
    let inner = create_frame(&mut rndr, 4).unwrap();
    link(&mut rndr, inner, base).unwrap();
    assert_eq!(lookup_over(&rndr, &main, inner, 1), Err(EnvError::Unbound));
    assert_eq!(link_outer(&mut rndr, base, &main, globals), Ok(()));
    assert_eq!(lookup_over(&rndr, &main, inner, 1), Ok(Found::Outer(ten)));
    assert_eq!(lookup_over(&rndr, &main, inner, 2), Ok(Found::Outer(twenty)));
    assert_eq!(lookup_over(&rndr, &main, base, 2), Ok(Found::Outer(twenty)));
    assert_eq!(lookup_over(&rndr, &main, inner, 3), Err(EnvError::Unbound));
    assert_eq!(lookup(&rndr, inner, 1), Err(EnvError::Unbound));

    let mine = rndr.allocate(Datum::I64(30)).unwrap();
    insert(&mut rndr, inner, 1, mine).unwrap();
    assert_eq!(lookup_over(&rndr, &main, inner, 1), Ok(Found::Here(mine)));
    assert_eq!(lookup_over(&rndr, &main, base, 1), Ok(Found::Outer(ten)));
    assert_eq!(lookup(&main, globals, 1), Ok(ten));
    assert_eq!(lookup_over(&rndr, &main, pad, 1), Err(EnvError::NoSuchFrame));
    assert_eq!(lookup_over(&rndr, &main, Value { idx: 99 }, 1), Err(EnvError::NoSuchFrame));
}

#[test]
fn the_outer_parent_is_set_once_and_is_a_frame() {
    let mut main = Region::acquire(4096);
    let root = create_frame(&mut main, 1).unwrap();
    let n = main.allocate(Datum::Nil).unwrap();
    let mut rndr = Region::acquire(4096);
    let a = create_frame(&mut rndr, 1).unwrap();
    let b = create_frame(&mut rndr, 1).unwrap();
    let c = create_frame(&mut rndr, 1).unwrap();
    let v = rndr.allocate(Datum::Nil).unwrap();
    assert_eq!(link_outer(&mut rndr, v, &main, root), Err(EnvError::NoSuchFrame));
    assert_eq!(link_outer(&mut rndr, Value { idx: 50 }, &main, root), Err(EnvError::NoSuchFrame));
    assert_eq!(link_outer(&mut rndr, a, &main, n), Err(EnvError::BadParent));
    assert_eq!(link_outer(&mut rndr, a, &main, Value { idx: 50 }), Err(EnvError::BadParent));
    assert_eq!(link_outer(&mut rndr, a, &main, root), Ok(()));
    assert_eq!(link_outer(&mut rndr, a, &main, root), Err(EnvError::AlreadyLinked));
    assert_eq!(link(&mut rndr, b, a), Ok(()));
    assert_eq!(link_outer(&mut rndr, b, &main, root), Err(EnvError::AlreadyLinked));
    assert_eq!(link_outer(&mut rndr, b, &main, n), Err(EnvError::AlreadyLinked));
    assert_eq!(link_outer(&mut rndr, c, &main, root), Ok(()));
    assert_eq!(link(&mut rndr, c, a), Err(EnvError::AlreadyLinked));
    let used = rndr.used();
    let x = main.allocate(Datum::U32(4)).unwrap();
    insert(&mut main, root, 9, x).unwrap();
    assert_eq!(lookup_over(&rndr, &main, b, 9), Ok(Found::Outer(x)));
    assert_eq!(lookup_over(&rndr, &main, c, 9), Ok(Found::Outer(x)));
    assert_eq!(rndr.used(), used);
}
