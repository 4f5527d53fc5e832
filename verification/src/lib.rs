//! Turns triangle meshes into flat vector outlines, assembles them into animation
//! layers, and keeps the state of the frame stepper and of the exporter that drive
//! them.
//!
//! - `path`: corner outlines (sets of edges) and how they merge;
//! - `mapping`: the vertex map that the faces of a mesh are outlined into;
//! - `vectorize`: walking the vertex map into closed outlines, batch by batch;
//! - `outline`: what every outline is made of, and why bounding a walk is safe;
//! - `shape`: outlines and their closed sub-paths;
//! - `lottie`: animation layers made of outline groups;
//! - `frames`: frame stepping, cached mesh data, export progress, drawing order;
//! - `shader`: the vertex layout of the position-capturing material.
pub mod frames;
pub mod lottie;
pub mod mapping;
pub mod outline;
pub mod path;
pub mod shader;
pub mod shape;
pub mod vectorize;
