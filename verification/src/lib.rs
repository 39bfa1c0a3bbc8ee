use vstd::prelude::*;

pub mod game;
pub mod text;
pub mod graph;
pub mod rules;
pub mod minimax;
pub mod solver;
pub mod api;
pub mod play;
pub mod cli;
pub mod debug;
pub mod render;
pub mod explore;
pub mod laws;
pub mod completeness;

verus! {

} // verus!
