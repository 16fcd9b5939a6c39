//! Escape-time pictures of the Mandelbrot set, drawn with characters.
//!
//! A picture is made in three steps. For every cell of a grid an orbit is
//! followed until it leaves the set or a budget of steps runs out
//! ([`escape`]); the counts of all cells form a grid ([`grid`]); and every
//! count is drawn as one character of a fixed table ([`render`]).
//!
//! The arithmetic of the orbit itself is handed in by the caller as a
//! function: this crate decides how often it is applied, where the result
//! goes and how it is drawn.

pub mod escape;
pub mod grid;
pub mod render;
