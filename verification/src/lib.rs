//! Tiled rendering core of a path tracer.
//!
//! The image is cut into a grid of rectangular tiles ([`grid`]), the tiles
//! are dealt out in fixed batches to a pool of workers ([`split`]), each
//! worker shades the pixels of its tiles into the tiles' own buffers
//! ([`renderer`]), and when all workers are done the tiles are copied into
//! one framebuffer ([`compositor`], [`frame`]). [`scheduler`] puts the stages
//! together and states what the whole guarantees: with a balanced split every
//! pixel of the image is rendered exactly once.
//!
//! The library decides which pixels are rendered, by whom, and where their
//! colors go. What color a pixel gets is the caller's business: the shading
//! function is handed in.

pub mod color;
pub mod compositor;
pub mod frame;
pub mod grid;
pub mod renderer;
pub mod scheduler;
pub mod split;
