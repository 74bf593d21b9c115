//! A pixel based drawing engine: sprites, colors, shapes, text and input state.

pub mod color;
pub mod drawing;
pub mod gpu_layout;
pub mod inputs;
pub mod sprite;
pub mod swap_buffer;
pub mod text;
pub mod vector2;
