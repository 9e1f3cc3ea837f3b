//! Runtime canvases: sorting layers and directional navigation.

pub mod canvas;
pub mod nav;
