//! A synchronous reactive dataflow engine: values, links that read and write
//! them, and an event graph that propagates changes in dependency order.
pub mod graph;
pub mod prim;
pub mod list;

pub use crate::graph::{EventGraph, Id, IntoValue, Link, LinkTrait, ProcessingContext, Value, ValueState, NULL_ID};
pub use crate::list::{Change, List, ListMut_, WeakList};
pub use crate::prim::{HistPrim, HistPrimMut_, Prim, PrimMut_, WeakHistPrim, WeakPrim};
