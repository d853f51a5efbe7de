//! Stroke geometry for a pannable, zoomable drawing canvas.
//!
//! World positions are fixed-point integers (`UNITS_PER_PIXEL` units per world
//! pixel). The library simplifies and smooths strokes, lays out their ribbon
//! meshes, culls them against the viewport and keeps undo/redo history in step
//! with a per-stroke mesh cache.

pub mod canvas;
pub mod command;
pub mod input;
pub mod point;
pub mod simplify;
pub mod smooth;
pub mod stroke;
pub mod tessellate;
pub mod visibility;
