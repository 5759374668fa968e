//! Self-similar raster images: a boolean grid, a builder that stamps a brush
//! pattern into itself to a given depth, and a compositor that magnifies a
//! grid by drawing a stencil pattern in place of each of its on-cells.
pub mod canvas;
pub mod data;
pub mod error;
pub mod fractal;
pub mod model;
pub mod pattern;
pub mod pixmap;

pub use canvas::Canvas;
pub use data::Data;
pub use error::GridError;
pub use pixmap::Pixmap;
