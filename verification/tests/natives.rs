use stark::bridge::{check_shapes, BoundaryError, Bridge, RegisterError, Shape};
use stark::env::{create_frame, insert, lookup};
use stark::region::Region;
use stark::render::{
    first_true, memory_type, vertex_range, Effect, Engine, RenderCommand, RenderProc,
    FIRST_BUFLEN, ONE_BITS,
};
use stark::symbol::SymbolTable;
use stark::value::{Cfg, Datum, Kind, Value};

#[test]
fn register_interns_allocates_and_binds() {
    let mut r = Region::acquire(4096);
    let mut t = SymbolTable::new();
    let mut b = Bridge::new();
    let env = create_frame(&mut r, 4).unwrap();
    let used = r.used();
    let sig = vec![Shape::any(), Shape::of_cfg(Cfg::B8Other)];
    let v = b.register(&mut r, &mut t, env, "poke", sig.clone()).unwrap();
    let id = t.find("poke").unwrap();
    assert_eq!(id, 13);
    assert_eq!(r.get(v), Some(&Datum::Native(0, 2)));
    assert_eq!(r.used(), used + 24);
    assert_eq!(lookup(&r, env, id), Ok(v));
    assert_eq!(b.len(), 1);
    assert_eq!(b.procs[0].name, id);
    assert_eq!(b.procs[0].params, sig);
    let w = b.register(&mut r, &mut t, env, "peek", vec![]).unwrap();
    assert_eq!(r.get(w), Some(&Datum::Native(1, 0)));
    assert_eq!(t.find("peek"), Some(14));
    let again = b.register(&mut r, &mut t, env, "poke", vec![Shape::any()]).unwrap();
    assert_eq!(r.get(again), Some(&Datum::Native(2, 1)));
    assert_eq!(lookup(&r, env, id), Ok(again));
    assert_eq!(t.len(), 15);
    assert_eq!(b.len(), 3);
}

#[test]
fn a_failed_registration_leaves_bridge_and_region_alone() {
    let mut r = Region::acquire(16 + 16 + 24 + 8 + 23);
    let mut t = SymbolTable::new();
    let mut b = Bridge::new();
    let env = create_frame(&mut r, 1).unwrap();
    let nil = r.allocate(Datum::Nil).unwrap();
    assert_eq!(
        b.register(&mut r, &mut t, nil, "a", vec![]),
        Err(RegisterError::NoSuchFrame)
    );
    assert_eq!(
        b.register(&mut r, &mut t, Value { idx: 40 }, "a", vec![]),
        Err(RegisterError::NoSuchFrame)
    );
    assert_eq!(t.find("a"), Some(13));
    assert_eq!(b.len(), 0);
    assert!(b.register(&mut r, &mut t, env, "a", vec![]).is_ok());
    let used = r.used();
    assert_eq!(b.register(&mut r, &mut t, env, "b", vec![]), Err(RegisterError::FrameFull));
    assert_eq!(
        b.register(&mut r, &mut t, env, "a", vec![]),
        Err(RegisterError::RegionExhausted)
    );
    assert_eq!(r.used(), used);
    assert_eq!(b.len(), 1);
    assert_eq!(t.find("b"), Some(14));
}

#[test]
fn a_call_with_two_arguments_for_three_parameters_is_rejected() {
    let mut r = Region::acquire(4096);
    let mut t = SymbolTable::new();
    let mut b = Bridge::new();
    let env = create_frame(&mut r, 4).unwrap();
    let sig = vec![
        Shape::of_cfg(Cfg::B8Other),
        Shape::typed(Cfg::B4, Kind::U32),
        Shape::typed(Cfg::B4, Kind::U32),
    ];
    b.register(&mut r, &mut t, env, "frame-size", sig).unwrap();
    let h = r.allocate(Datum::Other(1)).unwrap();
    let w = r.allocate(Datum::U32(1280)).unwrap();
    let x = r.allocate(Datum::U32(720)).unwrap();
    let f = r.allocate(Datum::F32(720)).unwrap();
    let i = r.allocate(Datum::I64(720)).unwrap();
    assert_eq!(b.check_call(&r, 0, &vec![h, w, x]), Ok(()));
    assert_eq!(b.check_call(&r, 0, &vec![h, w]), Err(BoundaryError::WrongArity));
    assert_eq!(b.check_call(&r, 0, &vec![]), Err(BoundaryError::WrongArity));
    assert_eq!(b.check_call(&r, 0, &vec![h, w, x, x]), Err(BoundaryError::WrongArity));
    assert_eq!(b.check_call(&r, 0, &vec![w, w, x]), Err(BoundaryError::WrongShape(0)));
    assert_eq!(b.check_call(&r, 0, &vec![h, f, x]), Err(BoundaryError::WrongShape(1)));
    assert_eq!(b.check_call(&r, 0, &vec![h, w, i]), Err(BoundaryError::WrongShape(2)));
    assert_eq!(b.check_call(&r, 0, &vec![w, f, i]), Err(BoundaryError::WrongShape(0)));
    assert_eq!(
        b.check_call(&r, 0, &vec![h, w, Value { idx: 999 }]),
        Err(BoundaryError::WrongShape(2))
    );
    assert_eq!(b.check_call(&r, 1, &vec![h, w, x]), Err(BoundaryError::NoSuchProc));
    assert_eq!(b.check_call(&r, 1, &vec![]), Err(BoundaryError::NoSuchProc));
}

#[test]
fn shapes_leave_open_what_they_do_not_name() {
    let mut r = Region::acquire(4096);
    let u = r.allocate(Datum::U32(1)).unwrap();
    let f = r.allocate(Datum::F32(1)).unwrap();
    let a3 = r.allocate(Datum::VecArr(Kind::F32, vec![1, 2, 3])).unwrap();
    let a4 = r.allocate(Datum::VecArr(Kind::F32, vec![1, 2, 3, 4])).unwrap();
    let u3 = r.allocate(Datum::VecArr(Kind::U32, vec![1, 2, 3])).unwrap();
    let all = [u, f, a3, a4, u3];
    let admitted = |s: Shape| -> Vec<bool> {
        all.iter().map(|v| check_shapes(&vec![s], &r, &vec![*v]).is_ok()).collect()
    };
    assert_eq!(admitted(Shape::any()), vec![true, true, true, true, true]);
    assert_eq!(admitted(Shape::of_cfg(Cfg::B4)), vec![true, true, false, false, false]);
    assert_eq!(admitted(Shape::of_cfg(Cfg::VecArr)), vec![false, false, true, true, true]);
    assert_eq!(admitted(Shape::typed(Cfg::B4, Kind::F32)), vec![false, true, false, false, false]);
    assert_eq!(
        admitted(Shape::typed(Cfg::VecArr, Kind::F32)),
        vec![false, false, true, true, false]
    );
    assert_eq!(admitted(Shape::array(Kind::F32, 3)), vec![false, false, true, false, false]);
    assert_eq!(admitted(Shape::array(Kind::U32, 3)), vec![false, false, false, false, true]);
    assert_eq!(
        admitted(Shape { cfg: None, kind: Some(Kind::F32), len: None }),
        vec![false, true, true, true, false]
    );
    assert!(Shape::array(Kind::F32, 3).admits(&Datum::VecArr(Kind::F32, vec![0, 0, 0])));
    assert!(!Shape::array(Kind::F32, 3).admits(&Datum::Nil));
}

#[test]
fn the_rendering_procedures_have_their_names_and_parameters() {
    let h = Shape::of_cfg(Cfg::B8Other);
    let u = Shape::typed(Cfg::B4, Kind::U32);
    let f = Shape::typed(Cfg::B4, Kind::F32);
    assert_eq!(RenderProc::Redraw.name(), "redraw");
    assert_eq!(RenderProc::FrameSize.name(), "frame-size");
    assert_eq!(RenderProc::AddLine.name(), "add-line");
    assert_eq!(RenderProc::PopLine.name(), "pop-line");
    assert_eq!(RenderProc::BgCol.name(), "bg-col");
    assert_eq!(RenderProc::Clear.name(), "clear");
    assert_eq!(RenderProc::Redraw.shapes(), Vec::<Shape>::new());
    assert_eq!(RenderProc::FrameSize.shapes(), vec![h, u, u]);
    assert_eq!(
        RenderProc::AddLine.shapes(),
        vec![h, Shape::array(Kind::F32, 4), Shape::array(Kind::F32, 3)]
    );
    assert_eq!(RenderProc::PopLine.shapes(), vec![h]);
    assert_eq!(RenderProc::BgCol.shapes(), vec![h, f, f, f]);
    assert_eq!(RenderProc::Clear.shapes(), vec![h]);
}

#[test]
fn rendering_calls_are_checked_and_read_out() {
    let mut r = Region::acquire(4096);
    let h = r.allocate(Datum::Other(0x1000)).unwrap();
    let w = r.allocate(Datum::U32(1280)).unwrap();
    let x = r.allocate(Datum::U32(720)).unwrap();
    let half = r.allocate(Datum::F32(0x3F00_0000)).unwrap();
    let one = r.allocate(Datum::F32(ONE_BITS)).unwrap();
    let zero = r.allocate(Datum::F32(0)).unwrap();
    let pts = r.allocate(Datum::VecArr(Kind::F32, vec![1, 2, 3, 4])).unwrap();
    let col = r.allocate(Datum::VecArr(Kind::F32, vec![5, 6, 7])).unwrap();
    let ints = r.allocate(Datum::VecArr(Kind::U32, vec![5, 6, 7])).unwrap();
    assert_eq!(RenderProc::Redraw.decode(&r, &vec![]), Ok(RenderCommand::Redraw));
    assert_eq!(RenderProc::PopLine.decode(&r, &vec![h]), Ok(RenderCommand::PopLine));
    assert_eq!(RenderProc::Clear.decode(&r, &vec![h]), Ok(RenderCommand::Clear));
    assert_eq!(
        RenderProc::FrameSize.decode(&r, &vec![h, w, x]),
        Ok(RenderCommand::FrameSize(1280, 720))
    );
    assert_eq!(
        RenderProc::AddLine.decode(&r, &vec![h, pts, col]),
        Ok(RenderCommand::AddLine(1, 2, 3, 4, 5, 6, 7))
    );
    assert_eq!(
        RenderProc::BgCol.decode(&r, &vec![h, half, one, zero]),
        Ok(RenderCommand::BgCol(0x3F00_0000, ONE_BITS, 0))
    );
    assert_eq!(RenderProc::Redraw.decode(&r, &vec![h]), Err(BoundaryError::WrongArity));
    assert_eq!(RenderProc::PopLine.decode(&r, &vec![w]), Err(BoundaryError::WrongShape(0)));
    assert_eq!(RenderProc::PopLine.decode(&r, &vec![]), Err(BoundaryError::WrongArity));
    assert_eq!(RenderProc::Redraw.decode(&r, &vec![h, h]), Err(BoundaryError::WrongArity));
    assert_eq!(RenderProc::FrameSize.decode(&r, &vec![h, w]), Err(BoundaryError::WrongArity));
    assert_eq!(
        RenderProc::FrameSize.decode(&r, &vec![h, w, half]),
        Err(BoundaryError::WrongShape(2))
    );
    assert_eq!(
        RenderProc::AddLine.decode(&r, &vec![h, col, col]),
        Err(BoundaryError::WrongShape(1))
    );
    assert_eq!(
        RenderProc::AddLine.decode(&r, &vec![h, pts, pts]),
        Err(BoundaryError::WrongShape(2))
    );
    assert_eq!(
        RenderProc::AddLine.decode(&r, &vec![h, pts, ints]),
        Err(BoundaryError::WrongShape(2))
    );
    assert_eq!(
        RenderProc::BgCol.decode(&r, &vec![h, half, w, zero]),
        Err(BoundaryError::WrongShape(2))
    );
    assert_eq!(
        RenderProc::BgCol.decode(&r, &vec![h, half, one, Value { idx: 77 }]),
        Err(BoundaryError::WrongShape(3))
    );
}

#[test]
fn a_new_engine_clears_to_opaque_black() {
    let e = Engine::new();
    assert_eq!(e.clear, [0, 0, 0, 1.0f32.to_bits()]);
    assert_eq!(ONE_BITS, 1.0f32.to_bits());
    assert!(e.lines.is_empty());
    assert!(e.colors.is_empty());
    assert_eq!(e.buflen, 256);
    assert_eq!(FIRST_BUFLEN, 256);
    assert!(e.should_configure_swapchain);
    assert_eq!(e.line_bytes(), 0);
}

#[test]
fn the_buffer_doubles_when_the_lines_reach_its_length() {
    let mut e = Engine::new();
    for i in 0..15u32 {
        let eff = e.apply(RenderCommand::AddLine(i, 0, 0, 0, 9, 9, i));
        assert_eq!(eff, Effect::Nothing);
        assert_eq!(e.buflen, 256);
    }
    assert_eq!(e.line_bytes(), 240);
    assert_eq!(e.apply(RenderCommand::AddLine(15, 0, 0, 0, 9, 9, 15)), Effect::RebuildBuffer(512));
    assert_eq!(e.buflen, 512);
    assert_eq!(e.line_bytes(), 256);
    for i in 16..31u32 {
        assert_eq!(e.apply(RenderCommand::AddLine(i, 0, 0, 0, 9, 9, i)), Effect::Nothing);
    }
    assert_eq!(e.apply(RenderCommand::AddLine(31, 0, 0, 0, 9, 9, 31)), Effect::RebuildBuffer(1024));
    assert_eq!(e.lines.len(), 32);
    assert_eq!(e.colors.len(), 32);
    assert_eq!(e.lines[17], [17, 0, 0, 0]);
    assert_eq!(e.colors[17], [9, 9, 17]);
    assert_eq!(e.apply(RenderCommand::Clear), Effect::Nothing);
    assert!(e.lines.is_empty() && e.colors.is_empty());
    assert_eq!(e.buflen, 1024);
}

#[test]
fn commands_change_the_engine_as_they_say() {
    let mut e = Engine::new();
    e.should_configure_swapchain = false;
    assert_eq!(e.apply(RenderCommand::Redraw), Effect::DrawFrame);
    assert!(!e.should_configure_swapchain);
    assert_eq!(e.apply(RenderCommand::FrameSize(800, 600)), Effect::SetExtent(800, 600));
    assert!(e.should_configure_swapchain);
    assert_eq!(e.apply(RenderCommand::BgCol(1, 2, 3)), Effect::Nothing);
    assert_eq!(e.clear, [1, 2, 3, ONE_BITS]);
    assert_eq!(e.apply(RenderCommand::PopLine), Effect::Nothing);
    assert!(e.lines.is_empty());
    e.apply(RenderCommand::AddLine(1, 2, 3, 4, 5, 6, 7));
    e.apply(RenderCommand::AddLine(8, 9, 10, 11, 12, 13, 14));
    assert_eq!(e.lines, vec![[1, 2, 3, 4], [8, 9, 10, 11]]);
    assert_eq!(e.colors, vec![[5, 6, 7], [12, 13, 14]]);
    assert_eq!(e.apply(RenderCommand::PopLine), Effect::Nothing);
    assert_eq!(e.lines, vec![[1, 2, 3, 4]]);
    assert_eq!(e.colors, vec![[5, 6, 7]]);
    assert_eq!(e.clear, [1, 2, 3, ONE_BITS]);
    assert_eq!(e.line_bytes(), 16);
}

#[test]
fn each_line_has_two_vertices() {
    assert_eq!(vertex_range(0), (0, 2));
    assert_eq!(vertex_range(1), (2, 4));
    assert_eq!(vertex_range(0x7FFF_FFFE), (0xFFFF_FFFC, 0xFFFF_FFFE));
}

#[test]
fn a_script_drives_the_engine_through_the_bridge() {
    let mut r = Region::acquire(1 << 16);
    let mut t = SymbolTable::new();
    let mut b = Bridge::new();
    let env = create_frame(&mut r, 16).unwrap();
    let procs = [
        RenderProc::Redraw,
        RenderProc::FrameSize,
        RenderProc::AddLine,
        RenderProc::PopLine,
        RenderProc::BgCol,
        RenderProc::Clear,
    ];
    for p in procs {
        b.register(&mut r, &mut t, env, p.name(), p.shapes()).unwrap();
    }
    let handle = r.allocate(Datum::Other(0xE)).unwrap();
    insert(&mut r, env, stark::symbol::S_ENGINE, handle).unwrap();
    let add_line = r.allocate(Datum::Symbol(t.find("add-line").unwrap())).unwrap();
    let engine_sym = r.allocate(Datum::Symbol(stark::symbol::S_ENGINE)).unwrap();
    let pts = r.allocate(Datum::VecArr(Kind::F32, vec![10, 20, 30, 40])).unwrap();
    let col = r.allocate(Datum::VecArr(Kind::F32, vec![1, 2, 3])).unwrap();
    let nil = r.allocate(Datum::Nil).unwrap();
    let l3 = r.allocate(Datum::Pair(col, nil)).unwrap();
    let l2 = r.allocate(Datum::Pair(pts, l3)).unwrap();
    let l1 = r.allocate(Datum::Pair(engine_sym, l2)).unwrap();
    let expr = r.allocate(Datum::Pair(add_line, l1)).unwrap();
    let mut engine = Engine::new();
    let mut stack = stark::eval::EvalStack::new(100);
    stack.start(env, expr).unwrap();
    let mut effects = Vec::new();
    while !stack.is_empty() {
        if let stark::eval::Step::Call(p, args) = stack.step(&mut r, &b) {
            let cmd = procs[p as usize].decode(&r, &args).unwrap();
            effects.push(engine.apply(cmd));
            stack.resume(&r, nil).unwrap();
        }
    }
    assert_eq!(stack.result(), stark::eval::Slot::Done(nil));
    assert_eq!(effects, vec![Effect::Nothing]);
    assert_eq!(engine.lines, vec![[10, 20, 30, 40]]);
    assert_eq!(engine.colors, vec![[1, 2, 3]]);
}

#[test]
fn redraw_takes_no_argument_in_a_script() {
    let mut r = Region::acquire(1 << 16);
    let mut t = SymbolTable::new();
    let mut b = Bridge::new();
    let env = create_frame(&mut r, 16).unwrap();
    b.register(&mut r, &mut t, env, RenderProc::Redraw.name(), RenderProc::Redraw.shapes())
        .unwrap();
    let expr = stark::parser::parse(&mut r, &mut t, "(redraw)").unwrap();
    let mut stack = stark::eval::EvalStack::new(8);
    stack.start(env, expr).unwrap();
    let mut engine = Engine::new();
    let mut effects = Vec::new();
    let mut steps = 0;
    while !stack.is_empty() {
        steps += 1;
        if let stark::eval::Step::Call(p, args) = stack.step(&mut r, &b) {
            assert_eq!(p, 0);
            assert!(args.is_empty());
            effects.push(engine.apply(RenderProc::Redraw.decode(&r, &args).unwrap()));
            let nil = r.allocate(Datum::Nil).unwrap();
            stack.resume(&r, nil).unwrap();
        }
    }
    assert_eq!(steps, 3);
    assert_eq!(effects, vec![Effect::DrawFrame]);
}

#[test]
fn the_swapchain_flag_is_set_and_reset() {
    let mut e = Engine::new();
    assert!(e.needs_configuring());
    e.mark_configured();
    assert!(!e.needs_configuring());
    assert!(!e.should_configure_swapchain);
    e.mark_configured();
    assert!(!e.needs_configuring());
    e.mark_out_of_date();
    assert!(e.needs_configuring());
    e.apply(RenderCommand::AddLine(1, 2, 3, 4, 5, 6, 7));
    e.mark_out_of_date();
    assert!(e.needs_configuring());
    assert_eq!(e.lines, vec![[1, 2, 3, 4]]);
    assert_eq!(e.buflen, 256);
    e.mark_configured();
    assert_eq!(e.apply(RenderCommand::FrameSize(3, 4)), Effect::SetExtent(3, 4));
    assert!(e.needs_configuring());
}

#[test]
fn the_first_set_flag_is_chosen() {
    assert_eq!(first_true(&vec![]), None);
    assert_eq!(first_true(&vec![false, false]), None);
    assert_eq!(first_true(&vec![true]), Some(0));
    assert_eq!(first_true(&vec![false, true, true]), Some(1));
    assert_eq!(first_true(&vec![false, false, false, true]), Some(3));
}

#[test]
fn the_lowest_admitted_memory_type_with_the_properties_is_chosen() {
    assert_eq!(memory_type(0, &vec![true, true]), None);
    assert_eq!(memory_type(0b11, &vec![]), None);
    assert_eq!(memory_type(0b11, &vec![false, false]), None);
    assert_eq!(memory_type(0b01, &vec![true, true]), Some(0));
    assert_eq!(memory_type(0b10, &vec![true, true]), Some(1));
    assert_eq!(memory_type(0b110, &vec![true, false, true]), Some(2));
    assert_eq!(memory_type(0b101, &vec![false, true, true]), Some(2));
    assert_eq!(memory_type(0b010, &vec![true, false, true]), None);
    assert_eq!(memory_type(u32::MAX, &vec![false, false, false, true]), Some(3));
    let mut many = vec![false; 40];
    many[35] = true;
    assert_eq!(memory_type(u32::MAX, &many), None);
    many[31] = true;
    assert_eq!(memory_type(u32::MAX, &many), Some(31));
    assert_eq!(memory_type(0x8000_0000, &many), Some(31));
    assert_eq!(memory_type(0x7FFF_FFFF, &many), None);
}
