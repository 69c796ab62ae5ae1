//! The verified core of a small 3D rendering engine: the logic that decides
//! what a frame contains and in which order, kept apart from the GPU and the
//! window system that carry it out.
use vstd::prelude::*;

pub mod graph;
pub mod harness;
pub mod backend;
pub mod capture;
pub mod clipboard;
pub mod draw;
pub mod frame;
pub mod input;
pub mod mesh;
pub mod png;
pub mod tasks;
pub mod text;
pub mod ui;

verus! {

} // verus!
