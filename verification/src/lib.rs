//! A small game engine core: entity-component storage and queries, system scheduling
//! and execution, work splitting for parallel iteration, virtual filesystem paths,
//! render graph compilation and supporting types.
use vstd::prelude::*;

pub mod ecs;
pub mod filesystem;
pub mod gfx;
pub mod text;
pub mod reflection;
pub mod shader;
pub mod ui;
pub mod render_graph;
pub mod jobs;

verus! {

} // verus!
