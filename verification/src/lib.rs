//! Graph model, compilation and realtime transport rules of a native audio engine.
use vstd::prelude::*;

pub mod audio;
pub mod compile;
pub mod error;
pub mod event;
pub mod graph;
pub mod link;
pub mod pipewire;
pub mod plugin;
pub mod project;
pub mod report;
pub mod runtime;
pub mod scheduler;
pub mod text;
pub mod topo;

verus! {

} // verus!
