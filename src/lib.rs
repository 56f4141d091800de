//! A small geometry kernel: a rectangular matrix container, a pixel canvas and
//! the plain-text portable pixel map encoder that serialises it.

pub mod canvas;
pub mod grid_text;
pub mod matrix;
pub mod ppm;
