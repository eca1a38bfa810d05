//! Tagged values: the closed set of shapes a datum inside a region can take.

use vstd::prelude::*;

verus! {

/// Bytes that precede the payload of every value: the tag, the type
/// discriminant and the length.
pub const HEADER_BYTES: usize = 8;

/// Handle to a value: the position of its cell in the region that owns it.
#[derive(Clone, Copy, PartialEq, Eq, Debug, Structural)]
pub struct Value {
    pub idx: usize,
}

/// Configuration tag: the physical layout of a value.
#[derive(Clone, Copy, PartialEq, Eq, Debug, Structural)]
pub enum Cfg {
    /// Inline scalar without payload.
    B0,
    /// Inline scalar of four bytes.
    B4,
    /// Inline scalar of eight bytes.
    B8,
    /// Opaque external handle: eight bytes that only the host interprets.
    B8Other,
    /// Array of four-byte elements.
    VecArr,
    /// Pointer-bearing pair.
    Pair,
    /// Native procedure.
    ProcNative,
    /// Interpreted procedure.
    ProcLambda,
    /// Environment frame.
    Env,
    /// Sending endpoint of a queue.
    QueueTx,
    /// Receiving endpoint of a queue.
    QueueRx,
}

/// Type discriminant of scalars and of array elements.
#[derive(Clone, Copy, PartialEq, Eq, Debug, Structural)]
pub enum Kind {
    Nil,
    Bool,
    U32,
    I64,
    F32,
    Symbol,
}

/// One environment frame: bindings from symbol identifiers to values, and the
/// frame that lookups fall back to. That frame is either `parent`, a frame of
/// the same region, or `outer`, a frame of the region that this one was set
/// up under; a frame has at most one of the two.
#[derive(Clone, Debug, PartialEq, Eq)]
pub struct Frame {
    pub capacity: usize,
    pub keys: Vec<u32>,
    pub vals: Vec<Value>,
    pub parent: Option<Value>,
    pub outer: Option<Value>,
}

/// What a cell holds. Floating-point numbers are kept as their bit patterns.
#[derive(Clone, Debug, PartialEq, Eq)]
pub enum Datum {
    Nil,
    Bool(bool),
    U32(u32),
    I64(i64),
    F32(u32),
    Symbol(u32),
    /// Opaque external handle.
    Other(u64),
    /// Head and tail, both in the same region.
    Pair(Value, Value),
    /// Element type and elements, each element as four raw bytes.
    VecArr(Kind, Vec<u32>),
    /// Native procedure: its number in the bridge's table, and its arity.
    Native(u32, usize),
    /// Interpreted procedure: parameter list, body, defining frame.
    Lambda(Value, Value, Value),
    Frame(Frame),
    /// Sending endpoint of the channel with this number.
    Sender(u32),
    /// Receiving endpoint of the channel with this number.
    Receiver(u32),
}

/// The layout of a datum.
pub open spec fn cfg_of(d: Datum) -> Cfg {
    match d {
        Datum::Nil => Cfg::B0,
        Datum::Bool(_) => Cfg::B0,
        Datum::U32(_) => Cfg::B4,
        Datum::I64(_) => Cfg::B8,
        Datum::F32(_) => Cfg::B4,
        Datum::Symbol(_) => Cfg::B4,
        Datum::Other(_) => Cfg::B8Other,
        Datum::Pair(_, _) => Cfg::Pair,
        Datum::VecArr(_, _) => Cfg::VecArr,
        Datum::Native(_, _) => Cfg::ProcNative,
        Datum::Lambda(_, _, _) => Cfg::ProcLambda,
        Datum::Frame(_) => Cfg::Env,
        Datum::Sender(_) => Cfg::QueueTx,
        Datum::Receiver(_) => Cfg::QueueRx,
    }
}

/// The type discriminant of a datum: of a scalar its own kind, of an array
/// that of its elements, of anything else none.
pub open spec fn kind_of(d: Datum) -> Option<Kind> {
    match d {
        Datum::Nil => Some(Kind::Nil),
        Datum::Bool(_) => Some(Kind::Bool),
        Datum::U32(_) => Some(Kind::U32),
        Datum::I64(_) => Some(Kind::I64),
        Datum::F32(_) => Some(Kind::F32),
        Datum::Symbol(_) => Some(Kind::Symbol),
        Datum::VecArr(k, _) => Some(k),
        _ => None,
    }
}

/// Bytes of payload that a datum occupies after its header.
pub open spec fn payload_bytes(d: Datum) -> int {
    match d {
        Datum::Nil => 0,
        Datum::Bool(_) => 0,
        Datum::U32(_) => 4,
        Datum::I64(_) => 8,
        Datum::F32(_) => 4,
        Datum::Symbol(_) => 4,
        Datum::Other(_) => 8,
        Datum::Pair(_, _) => 16,
        Datum::VecArr(_, v) => 4 * (v@.len() as int),
        Datum::Native(_, _) => 16,
        Datum::Lambda(_, _, _) => 24,
        Datum::Frame(f) => 8 + 16 * (f.capacity as int),
        Datum::Sender(_) => 8,
        Datum::Receiver(_) => 8,
    }
}

/// Bytes that a datum occupies in a region, header included.
pub open spec fn footprint(d: Datum) -> int {
    HEADER_BYTES + payload_bytes(d)
}

/// A scalar: a datum that holds no reference and no out-of-line payload.
pub open spec fn is_scalar(d: Datum) -> bool {
    d is Nil || d is Bool || d is U32 || d is I64 || d is F32 || d is Symbol
}

/// A literal: a datum that evaluates to itself.
pub open spec fn is_literal(d: Datum) -> bool {
    !(d is Symbol) && !(d is Pair)
}

impl Datum {
    /// The configuration tag.
    pub fn cfg(&self) -> (c: Cfg)
        ensures
            c == cfg_of(*self),
    {
        match self {
            Datum::Nil => Cfg::B0,
            Datum::Bool(_) => Cfg::B0,
            Datum::U32(_) => Cfg::B4,
            Datum::I64(_) => Cfg::B8,
            Datum::F32(_) => Cfg::B4,
            Datum::Symbol(_) => Cfg::B4,
            Datum::Other(_) => Cfg::B8Other,
            Datum::Pair(_, _) => Cfg::Pair,
            Datum::VecArr(_, _) => Cfg::VecArr,
            Datum::Native(_, _) => Cfg::ProcNative,
            Datum::Lambda(_, _, _) => Cfg::ProcLambda,
            Datum::Frame(_) => Cfg::Env,
            Datum::Sender(_) => Cfg::QueueTx,
            Datum::Receiver(_) => Cfg::QueueRx,
        }
    }

    /// The type discriminant, where the datum has one.
    pub fn kind(&self) -> (k: Option<Kind>)
        ensures
            k == kind_of(*self),
    {
        match self {
            Datum::Nil => Some(Kind::Nil),
            Datum::Bool(_) => Some(Kind::Bool),
            Datum::U32(_) => Some(Kind::U32),
            Datum::I64(_) => Some(Kind::I64),
            Datum::F32(_) => Some(Kind::F32),
            Datum::Symbol(_) => Some(Kind::Symbol),
            Datum::VecArr(k, _) => Some(*k),
            _ => None,
        }
    }

    /// The bytes this datum occupies in a region, or `None` where that number
    /// does not fit the machine's word.
    pub fn size(&self) -> (n: Option<usize>)
        ensures
            n is Some <==> footprint(*self) <= usize::MAX,
            n is Some ==> n->0 == footprint(*self),
    {
        let payload: Option<usize> = match self {
            Datum::Nil => Some(0),
            Datum::Bool(_) => Some(0),
            Datum::U32(_) => Some(4),
            Datum::I64(_) => Some(8),
            Datum::F32(_) => Some(4),
            Datum::Symbol(_) => Some(4),
            Datum::Other(_) => Some(8),
            Datum::Pair(_, _) => Some(16),
            Datum::VecArr(_, v) => v.len().checked_mul(4),
            Datum::Native(_, _) => Some(16),
            Datum::Lambda(_, _, _) => Some(24),
            Datum::Frame(f) => match f.capacity.checked_mul(16) {
                Some(b) => b.checked_add(8),
                None => None,
            },
            Datum::Sender(_) => Some(8),
            Datum::Receiver(_) => Some(8),
        };
        match payload {
            Some(p) => p.checked_add(HEADER_BYTES),
            None => None,
        }
    }
}

} // verus!
