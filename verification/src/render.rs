//! The procedures that the rendering host offers to interpreted code, and the
//! state they act on. The library checks and decodes each call and keeps the
//! list of lines; what touches the graphics device is left to the host.

use vstd::prelude::*;
use crate::bridge::{BoundaryError, Shape, arg_ok, check_shapes, shapes_verdict};
use crate::region::{Cell, Region};
use crate::value::{Cfg, Datum, Kind, Value};

verus! {

/// The bits of the floating-point number one.
pub const ONE_BITS: u32 = 0x3F80_0000;

/// The vertex buffer's first length in bytes.
pub const FIRST_BUFLEN: u64 = 256;

/// Bytes of one line: two endpoints of two coordinates each.
pub const LINE_BYTES: u64 = 16;

/// The number of lines below which every vertex index fits 32 bits.
pub const MAX_LINES: usize = 0x7FFF_FFFF;

/// A procedure of the rendering host.
#[derive(Clone, Copy, PartialEq, Eq, Debug, Structural)]
pub enum RenderProc {
    /// `redraw`: submit one frame.
    Redraw,
    /// `frame-size`: set the surface's width and height.
    FrameSize,
    /// `add-line`: add a line, given as four coordinates and three colour
    /// components.
    AddLine,
    /// `pop-line`: remove the line added last.
    PopLine,
    /// `bg-col`: set the clear colour.
    BgCol,
    /// `clear`: remove all lines.
    Clear,
}

/// A checked call of a rendering procedure, with its arguments read out.
/// Floating-point arguments are given as their bits.
#[derive(Clone, Copy, PartialEq, Eq, Debug, Structural)]
pub enum RenderCommand {
    Redraw,
    FrameSize(u32, u32),
    AddLine(u32, u32, u32, u32, u32, u32, u32),
    PopLine,
    BgCol(u32, u32, u32),
    Clear,
}

/// The shape of the engine's handle.
pub open spec fn handle_shape() -> Shape {
    Shape { cfg: Some(Cfg::B8Other), kind: None, len: None }
}

/// The shape of a scalar of type `kind` in four bytes.
pub open spec fn word_shape(kind: Kind) -> Shape {
    Shape { cfg: Some(Cfg::B4), kind: Some(kind), len: None }
}

/// The shape of an array of `len` floating-point numbers.
pub open spec fn floats_shape(len: usize) -> Shape {
    Shape { cfg: Some(Cfg::VecArr), kind: Some(Kind::F32), len: Some(len) }
}

/// The parameters of each rendering procedure: `redraw` has none, each of
/// the others takes the engine's handle first.
pub open spec fn render_shapes(p: RenderProc) -> Seq<Shape> {
    match p {
        RenderProc::Redraw => Seq::empty(),
        RenderProc::FrameSize => seq![
            handle_shape(),
            word_shape(Kind::U32),
            word_shape(Kind::U32),
        ],
        RenderProc::AddLine => seq![handle_shape(), floats_shape(4), floats_shape(3)],
        RenderProc::PopLine => seq![handle_shape()],
        RenderProc::BgCol => seq![
            handle_shape(),
            word_shape(Kind::F32),
            word_shape(Kind::F32),
            word_shape(Kind::F32),
        ],
        RenderProc::Clear => seq![handle_shape()],
    }
}

/// The name under which each rendering procedure is registered.
pub open spec fn render_name(p: RenderProc) -> Seq<char> {
    match p {
        RenderProc::Redraw => "redraw"@,
        RenderProc::FrameSize => "frame-size"@,
        RenderProc::AddLine => "add-line"@,
        RenderProc::PopLine => "pop-line"@,
        RenderProc::BgCol => "bg-col"@,
        RenderProc::Clear => "clear"@,
    }
}

/// The four bytes of the scalar `v`.
pub open spec fn word_at(cells: Seq<Cell>, v: Value) -> u32 {
    match cells[v.idx as int].datum {
        Datum::U32(x) => x,
        Datum::F32(x) => x,
        Datum::Symbol(x) => x,
        _ => 0,
    }
}

/// Element `i` of the array `v`.
pub open spec fn elem_at(cells: Seq<Cell>, v: Value, i: int) -> u32 {
    cells[v.idx as int].datum->VecArr_1@[i]
}

/// The command that a call of `p` with the checked arguments `args` stands
/// for.
pub open spec fn render_command(
    p: RenderProc,
    cells: Seq<Cell>,
    args: Seq<Value>,
) -> RenderCommand {
    match p {
        RenderProc::Redraw => RenderCommand::Redraw,
        RenderProc::FrameSize => RenderCommand::FrameSize(
            word_at(cells, args[1]),
            word_at(cells, args[2]),
        ),
        RenderProc::AddLine => RenderCommand::AddLine(
            elem_at(cells, args[1], 0),
            elem_at(cells, args[1], 1),
            elem_at(cells, args[1], 2),
            elem_at(cells, args[1], 3),
            elem_at(cells, args[2], 0),
            elem_at(cells, args[2], 1),
            elem_at(cells, args[2], 2),
        ),
        RenderProc::PopLine => RenderCommand::PopLine,
        RenderProc::BgCol => RenderCommand::BgCol(
            word_at(cells, args[1]),
            word_at(cells, args[2]),
            word_at(cells, args[3]),
        ),
        RenderProc::Clear => RenderCommand::Clear,
    }
}

/// The four bytes of the scalar `v`.
fn read_word(region: &Region, v: Value) -> (w: u32)
    requires
        region.holds(v),
    ensures
        w == word_at(region.cells@, v),
{
    match &region.cells[v.idx].datum {
        Datum::U32(x) => *x,
        Datum::F32(x) => *x,
        Datum::Symbol(x) => *x,
        _ => 0,
    }
}

/// Element `i` of the array `v`.
fn read_elem(region: &Region, v: Value, i: usize) -> (w: u32)
    requires
        region.holds(v),
        region.datum(v) is VecArr,
        i < region.datum(v)->VecArr_1@.len(),
    ensures
        w == elem_at(region.cells@, v, i as int),
{
    match &region.cells[v.idx].datum {
        Datum::VecArr(_, words) => words[i],
        _ => 0,
    }
}

impl RenderProc {
    /// The name under which the procedure is registered.
    pub fn name(self) -> (n: &'static str)
        ensures
            n@ == render_name(self),
    {
        match self {
            RenderProc::Redraw => "redraw",
            RenderProc::FrameSize => "frame-size",
            RenderProc::AddLine => "add-line",
            RenderProc::PopLine => "pop-line",
            RenderProc::BgCol => "bg-col",
            RenderProc::Clear => "clear",
        }
    }

    /// The procedure's parameters.
    pub fn shapes(self) -> (s: Vec<Shape>)
        ensures
            s@ == render_shapes(self),
    {
        let mut s: Vec<Shape> = Vec::new();
        match self {
            RenderProc::Redraw => {},
            _ => {
                s.push(Shape::of_cfg(Cfg::B8Other));
            },
        }
        match self {
            RenderProc::FrameSize => {
                s.push(Shape::typed(Cfg::B4, Kind::U32));
                s.push(Shape::typed(Cfg::B4, Kind::U32));
            },
            RenderProc::AddLine => {
                s.push(Shape::array(Kind::F32, 4));
                s.push(Shape::array(Kind::F32, 3));
            },
            RenderProc::BgCol => {
                s.push(Shape::typed(Cfg::B4, Kind::F32));
                s.push(Shape::typed(Cfg::B4, Kind::F32));
                s.push(Shape::typed(Cfg::B4, Kind::F32));
            },
            _ => {},
        }
        proof {
            assert(s@ =~= render_shapes(self));
        }
        s
    }

    /// Checks the arguments of a call against the procedure's parameters and
    /// reads them out. The error is the boundary's verdict on the call.
    pub fn decode(self, region: &Region, args: &Vec<Value>) -> (res: Result<
        RenderCommand,
        BoundaryError,
    >)
        ensures
            match res {
                Ok(cmd) => shapes_verdict(render_shapes(self), region.cells@, args@) is Ok && cmd
                    == render_command(self, region.cells@, args@),
                Err(e) => shapes_verdict(render_shapes(self), region.cells@, args@) == Err::<
                    (),
                    BoundaryError,
                >(e),
            },
    {
        let shapes: Vec<Shape> = self.shapes();
        match check_shapes(&shapes, region, args) {
            Ok(_) => {},
            Err(e) => {
                return Err(e);
            },
        }
        proof {
            assert forall|i: int| 0 <= i < args@.len() implies arg_ok(
                shapes@,
                region.cells@,
                args@,
                i,
            ) by {}
        }
        match self {
            RenderProc::Redraw => Ok(RenderCommand::Redraw),
            RenderProc::FrameSize => {
                proof {
                    assert(arg_ok(shapes@, region.cells@, args@, 1));
                    assert(arg_ok(shapes@, region.cells@, args@, 2));
                }
                Ok(RenderCommand::FrameSize(read_word(region, args[1]), read_word(region, args[2])))
            },
            RenderProc::AddLine => {
                proof {
                    assert(arg_ok(shapes@, region.cells@, args@, 1));
                    assert(arg_ok(shapes@, region.cells@, args@, 2));
                }
                Ok(
                    RenderCommand::AddLine(
                        read_elem(region, args[1], 0),
                        read_elem(region, args[1], 1),
                        read_elem(region, args[1], 2),
                        read_elem(region, args[1], 3),
                        read_elem(region, args[2], 0),
                        read_elem(region, args[2], 1),
                        read_elem(region, args[2], 2),
                    ),
                )
            },
            RenderProc::PopLine => Ok(RenderCommand::PopLine),
            RenderProc::BgCol => {
                proof {
                    assert(arg_ok(shapes@, region.cells@, args@, 1));
                    assert(arg_ok(shapes@, region.cells@, args@, 2));
                    assert(arg_ok(shapes@, region.cells@, args@, 3));
                }
                Ok(
                    RenderCommand::BgCol(
                        read_word(region, args[1]),
                        read_word(region, args[2]),
                        read_word(region, args[3]),
                    ),
                )
            },
            RenderProc::Clear => Ok(RenderCommand::Clear),
        }
    }
}

/// What the host has to do after a command.
#[derive(Clone, Copy, PartialEq, Eq, Debug, Structural)]
pub enum Effect {
    /// Nothing.
    Nothing,
    /// Draw one frame.
    DrawFrame,
    /// Set the surface's extent; the swapchain is then configured anew.
    SetExtent(u32, u32),
    /// Replace the vertex buffer by one of this many bytes.
    RebuildBuffer(u64),
}

/// The state of the graphics engine that the rendering procedures act on:
/// clear colour, lines with their colours, the vertex buffer's length, and
/// whether the swapchain is to be configured. Numbers are kept as their bits.
#[derive(Debug)]
pub struct Engine {
    pub clear: [u32; 4],
    pub lines: Vec<[u32; 4]>,
    pub colors: Vec<[u32; 3]>,
    pub buflen: u64,
    pub should_configure_swapchain: bool,
}

impl Engine {
    /// The engine's invariant: each line has its colour, and the vertex
    /// buffer has room for all lines and one byte more.
    pub open spec fn wf(&self) -> bool {
        &&& self.lines@.len() == self.colors@.len()
        &&& self.lines@.len() <= MAX_LINES
        &&& self.buflen >= FIRST_BUFLEN
        &&& LINE_BYTES * self.lines@.len() < self.buflen
    }

    /// An engine without lines that clears to opaque black.
    pub fn new() -> (e: Engine)
        ensures
            e.wf(),
            e.clear@ == seq![0u32, 0u32, 0u32, ONE_BITS],
            e.lines@.len() == 0,
            e.colors@.len() == 0,
            e.buflen == FIRST_BUFLEN,
            e.should_configure_swapchain,
    {
        let e = Engine {
            clear: [0, 0, 0, ONE_BITS],
            lines: Vec::new(),
            colors: Vec::new(),
            buflen: FIRST_BUFLEN,
            should_configure_swapchain: true,
        };
        proof {
            assert(e.clear@ =~= seq![0u32, 0u32, 0u32, ONE_BITS]);
        }
        e
    }

    /// Notes that the surface no longer fits the swapchain: it is to be
    /// configured before the next frame.
    pub fn mark_out_of_date(&mut self)
        ensures
            final(self).should_configure_swapchain,
            final(self).clear == old(self).clear,
            final(self).lines == old(self).lines,
            final(self).colors == old(self).colors,
            final(self).buflen == old(self).buflen,
    {
        self.should_configure_swapchain = true;
    }

    /// Notes that the swapchain has been configured.
    pub fn mark_configured(&mut self)
        ensures
            !final(self).should_configure_swapchain,
            final(self).clear == old(self).clear,
            final(self).lines == old(self).lines,
            final(self).colors == old(self).colors,
            final(self).buflen == old(self).buflen,
    {
        self.should_configure_swapchain = false;
    }

    /// Whether the swapchain is to be configured before the next frame.
    pub fn needs_configuring(&self) -> (b: bool)
        ensures
            b == self.should_configure_swapchain,
    {
        self.should_configure_swapchain
    }

    /// Bytes of vertex data: sixteen for each line.
    pub fn line_bytes(&self) -> (n: u64)
        requires
            self.wf(),
        ensures
            n == LINE_BYTES * self.lines@.len(),
            n < self.buflen,
    {
        (self.lines.len() as u64) * LINE_BYTES
    }

    /// Carries out a command and says what is left for the host to do.
    ///
    /// A line is added with its colour; where the vertex data then reaches
    /// the buffer's length, the length doubles and the buffer is to be
    /// rebuilt. `pop-line` on an engine without lines does nothing.
    pub fn apply(&mut self, cmd: RenderCommand) -> (eff: Effect)
        requires
            old(self).wf(),
            cmd is AddLine ==> old(self).lines@.len() < MAX_LINES,
        ensures
            final(self).wf(),
            match cmd {
                RenderCommand::Redraw => *final(self) == *old(self) && eff == Effect::DrawFrame,
                RenderCommand::FrameSize(w, h) => {
                    &&& final(self).should_configure_swapchain
                    &&& final(self).clear == old(self).clear
                    &&& final(self).lines == old(self).lines
                    &&& final(self).colors == old(self).colors
                    &&& final(self).buflen == old(self).buflen
                    &&& eff == Effect::SetExtent(w, h)
                },
                RenderCommand::AddLine(x0, y0, x1, y1, r, g, b) => {
                    &&& final(self).lines@.len() == old(self).lines@.len() + 1
                    &&& final(self).lines@.drop_last() == old(self).lines@
                    &&& final(self).lines@.last()@ == seq![x0, y0, x1, y1]
                    &&& final(self).colors@.drop_last() == old(self).colors@
                    &&& final(self).colors@.last()@ == seq![r, g, b]
                    &&& final(self).clear == old(self).clear
                    &&& final(self).should_configure_swapchain == old(
                        self,
                    ).should_configure_swapchain
                    &&& if LINE_BYTES * (old(self).lines@.len() + 1) >= old(self).buflen {
                        final(self).buflen == 2 * old(self).buflen && eff == Effect::RebuildBuffer(
                            final(self).buflen,
                        )
                    } else {
                        final(self).buflen == old(self).buflen && eff == Effect::Nothing
                    }
                },
                RenderCommand::PopLine => {
                    &&& final(self).lines@ == if old(self).lines@.len() > 0 {
                        old(self).lines@.drop_last()
                    } else {
                        old(self).lines@
                    }
                    &&& final(self).colors@ == if old(self).colors@.len() > 0 {
                        old(self).colors@.drop_last()
                    } else {
                        old(self).colors@
                    }
                    &&& final(self).clear == old(self).clear
                    &&& final(self).buflen == old(self).buflen
                    &&& final(self).should_configure_swapchain == old(
                        self,
                    ).should_configure_swapchain
                    &&& eff == Effect::Nothing
                },
                RenderCommand::BgCol(r, g, b) => {
                    &&& final(self).clear@ == seq![r, g, b, ONE_BITS]
                    &&& final(self).lines == old(self).lines
                    &&& final(self).colors == old(self).colors
                    &&& final(self).buflen == old(self).buflen
                    &&& final(self).should_configure_swapchain == old(
                        self,
                    ).should_configure_swapchain
                    &&& eff == Effect::Nothing
                },
                RenderCommand::Clear => {
                    &&& final(self).lines@.len() == 0
                    &&& final(self).colors@.len() == 0
                    &&& final(self).clear == old(self).clear
                    &&& final(self).buflen == old(self).buflen
                    &&& final(self).should_configure_swapchain == old(
                        self,
                    ).should_configure_swapchain
                    &&& eff == Effect::Nothing
                },
            },
    {
        match cmd {
            RenderCommand::Redraw => Effect::DrawFrame,
            RenderCommand::FrameSize(w, h) => {
                self.should_configure_swapchain = true;
                Effect::SetExtent(w, h)
            },
            RenderCommand::AddLine(x0, y0, x1, y1, r, g, b) => {
                let points: [u32; 4] = [x0, y0, x1, y1];
                let color: [u32; 3] = [r, g, b];
                proof {
                    assert(points@ =~= seq![x0, y0, x1, y1]);
                    assert(color@ =~= seq![r, g, b]);
                }
                self.lines.push(points);
                self.colors.push(color);
                proof {
                    assert(self.lines@.drop_last() =~= old(self).lines@);
                    assert(self.colors@.drop_last() =~= old(self).colors@);
                }
                let bytes: u64 = (self.lines.len() as u64) * LINE_BYTES;
                if bytes >= self.buflen {
                    self.buflen = 2 * self.buflen;
                    Effect::RebuildBuffer(self.buflen)
                } else {
                    Effect::Nothing
                }
            },
            RenderCommand::PopLine => {
                self.lines.pop();
                self.colors.pop();
                Effect::Nothing
            },
            RenderCommand::BgCol(r, g, b) => {
                self.clear = [r, g, b, ONE_BITS];
                proof {
                    assert(self.clear@ =~= seq![r, g, b, ONE_BITS]);
                }
                Effect::Nothing
            },
            RenderCommand::Clear => {
                self.lines.clear();
                self.colors.clear();
                Effect::Nothing
            },
        }
    }
}

/// The position of the first flag that is set, or `None` where none is.
pub fn first_true(flags: &Vec<bool>) -> (pick: Option<usize>)
    ensures
        match pick {
            Some(i) => i < flags@.len() && flags@[i as int] && forall|j: int|
                0 <= j < i ==> !flags@[j],
            None => forall|j: int| 0 <= j < flags@.len() ==> !flags@[j],
        },
{
    let n: usize = flags.len();
    let mut i: usize = 0;
    while i < n
        invariant
            n == flags@.len(),
            i <= n,
            forall|j: int| 0 <= j < i ==> !flags@[j],
        decreases n - i,
    {
        if flags[i] {
            return Some(i);
        }
        i = i + 1;
    }
    None
}

/// Whether a device's requirements admit memory type `i`: bit `i` of the
/// mask is set.
pub open spec fn mask_admits(type_mask: u32, i: int) -> bool {
    0 <= i < 32 && (type_mask & (1u32 << (i as u32))) != 0
}

/// The memory type to allocate from: the lowest that the mask admits and that
/// has the wanted properties, or `None` where there is none. `has_props` says
/// of each memory type whether it has them.
pub fn memory_type(type_mask: u32, has_props: &Vec<bool>) -> (pick: Option<usize>)
    ensures
        match pick {
            Some(i) => {
                &&& i < has_props@.len()
                &&& mask_admits(type_mask, i as int)
                &&& has_props@[i as int]
                &&& forall|j: int|
                    0 <= j < i ==> !(mask_admits(type_mask, j) && has_props@[j])
            },
            None => forall|j: int|
                0 <= j < has_props@.len() ==> !(mask_admits(type_mask, j) && has_props@[j]),
        },
{
    let n: usize = has_props.len();
    let mut i: usize = 0;
    while i < n && i < 32
        invariant
            n == has_props@.len(),
            i <= n,
            i <= 32,
            forall|j: int| 0 <= j < i ==> !(mask_admits(type_mask, j) && has_props@[j]),
        decreases n - i,
    {
        let bit: u32 = 1u32 << (i as u32);
        if (type_mask & bit) != 0 && has_props[i] {
            return Some(i);
        }
        i = i + 1;
    }
    None
}

/// The vertices of line number `line`: the first, and the one after the last.
pub fn vertex_range(line: u32) -> (r: (u32, u32))
    requires
        line < MAX_LINES,
    ensures
        r.0 == 2 * line,
        r.1 == 2 * line + 2,
{
    (2 * line, 2 * line + 2)
}

} // verus!
