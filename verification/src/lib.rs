//! Connected-component extraction on raster surfaces.
//!
//! A surface is any type that implements [`Image`]: a grid of pixels that can
//! be read and written by coordinate. [`fill`] floods the 4-connected region
//! around a seed with a fill value and reports the smallest box around the
//! region; [`bboxes`] sweeps a whole surface, floods every region that does
//! not have the fill value yet, and reports each with its colour.
//!
//! The contracts are stated over [`surface::Surface`], the grid that an image
//! holds, and over the regions of such a grid, which [`region`] defines.
//! [`laws`] proves what follows from the contracts: that each pixel belongs to
//! one listed region, that a region has one smallest box, and that a surface
//! has one region list.

pub mod bitmap;
mod bounds;
pub mod fill;
mod frontier;
pub mod image;
pub mod laws;
mod paint;
pub mod rect;
pub mod region;
pub mod scan;
mod steps;
pub mod surface;
mod tally;

pub use bitmap::Bitmap;
pub use fill::fill;
pub use image::Image;
pub use rect::Rect;
pub use scan::bboxes;
