//! An interpreter runtime for a small embedded scripting language: thread-owned
//! memory regions, tagged values, interned symbols, chained environments, an
//! evaluator that the host advances one step at a time, a bridge to native
//! procedures, and queues that copy values from one region into another. With
//! it come a reader for source text, integer procedures, and the state that
//! the rendering procedures act on.

pub mod arith;
pub mod bridge;
pub mod env;
pub mod eval;
pub mod parser;
pub mod queue;
pub mod region;
pub mod render;
pub mod run;
pub mod symbol;
pub mod value;
