//! Color parsing, RGB/HSL conversion and formatting over exact rational
//! components.
pub mod ratio;
pub mod convert;
pub mod text;
pub mod color;
pub mod laws;

pub use color::{Color, ColorError};
pub use ratio::Ratio;
