//! A small mark-and-sweep garbage collector over an arena of cells, with a
//! tagged value model whose `Ref` variant links cells into arbitrary graphs.

pub mod collector;
pub mod graph;
pub mod handle;
pub mod trace;
pub mod value;

pub use collector::Gc;
pub use handle::Handle;
pub use trace::Trace;
pub use value::Value;
