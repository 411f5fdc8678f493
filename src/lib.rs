//! Core of a terminal waveform viewer: a time-indexed signal store with
//! range queries, a hierarchical scope tree with its derived views, a
//! waveform renderer and the viewport/focus state machine.

pub mod controller;
pub mod ingest;
pub mod render;
pub mod ruler;
pub mod selection;
pub mod text;
pub mod vcd_types;
pub mod timeseries;
