//! Rasterization of simple geometric primitives — points, lines, rectangles,
//! triangles and circles — onto an addressable pixel surface, with
//! pseudo-random colors and placement.
//!
//! The surface is modelled by [`canvas::Canvas`], which records every pixel
//! write it receives; each primitive's `draw` states exactly which writes it
//! appends.

pub mod canvas;
pub mod geometrical_shapes;
pub mod rounding;
mod rng;
