//! Trace-to-event pipeline and timeline playback engine for page-fault and
//! cache-miss profiling traces.
//!
//! The library parses line-oriented trace text into samples and memory-map
//! records, resolves each sample address to the mapped object and in-object
//! offset it touched, aggregates per-object statistics, persists the event
//! stream in a fixed-layout binary record format with a JSON side table, and
//! replays the stream under several timing disciplines with markers, looping,
//! and per-object breakpoints.

pub mod cli;
pub mod interner;
pub mod kind;
pub mod parse;
pub mod perf;
pub mod sidetable;
pub mod playback;
pub mod records;
pub mod resolver;
pub mod table;
pub mod textutil;
