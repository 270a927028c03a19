//! Detection of flat-colored regions in a decoded image: maximal groups of
//! edge-adjacent pixels of one color, pure white and pure black left out,
//! each reported with its color and its bounding box.

pub mod boundary;
pub mod bounds;
pub mod connectivity;
pub mod detect;
pub mod fill;
pub mod grid;
pub mod laws;
pub mod raster;
pub mod scan;

pub use crate::boundary::{Report, Status};
pub use crate::detect::{parse_image, try_parse_image, Region};
pub use crate::fill::flood_fill;
pub use crate::raster::VisitedMask;
