//! The archetype-driven track-and-media timeline: its schema words, ids,
//! errors, the checks an asset passes before it becomes a document, the
//! selection, editor handles, and the bounded undo history of the editing
//! surface.
//!
//! The history is generic over the document it snapshots; the document
//! itself, with its clip times and numeric curves, works in floating point.

pub mod archetype;
pub mod model;
pub mod serial;
pub mod surface;
pub mod widget;
