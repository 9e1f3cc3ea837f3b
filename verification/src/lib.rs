//! The retained-mode UI toolkit's logic, with its contracts proved: the
//! generational node arena, focus and navigation, text composition, markup
//! and input-method state, font fallback, themes and paint recipes,
//! virtualised lists, thumbnail streaming, `.somui` document checks, and
//! the timeline's asset checks and undo history.
//!
//! Floating-point geometry, GPU work, windowing and file I/O live in the
//! application crate beside this one and hand the library plain values.

use vstd::prelude::*;

pub mod keyed;
pub mod message;
pub mod path;
pub mod pool;
pub mod runtime;
pub mod semantic_authoring;
pub mod shaped;
pub mod somui;
pub mod style;
pub mod text;
pub mod thumbnail;
pub mod timeline;
pub mod theme;
pub mod types;
pub mod typography;
pub mod ui;
pub mod viewport_layout;
pub mod virtual_list;

