//! Node-graph core of a real-time audio-reactive renderer.
//!
//! The library holds what the renderer decides: the editable graph model
//! and its topological order, the plan that turns a model into a runtime
//! graph, the runtime graph's slot bookkeeping and execution order, and
//! the integer side of audio analysis (chunking and frequency bands).
//! GPU work, windowing, audio capture and floating-point signal processing
//! stay with the application that drives it.

pub mod audio;
pub mod graph;
pub mod model;
pub mod order;
pub mod plan;
pub mod state;
pub mod text;
