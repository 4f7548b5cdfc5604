//! The verified core of a converter from NOAA variable-resolution BAG bathymetry to IHO S-102:
//! reading datum and coordinate-system codes out of BAG metadata and WKT text, the size limits
//! and row order of exported grids, the cell topology of safety-depth contours, and the
//! converter session's decisions.

use vstd::prelude::*;

pub mod contour;
pub mod crs;
pub mod datum;
pub mod grid;
pub mod metadata;
pub mod polyline;
pub mod session;
pub mod text;

pub use datum::parse_vertical_datum_code;

verus! {

/// Picture shown in the preview pane.
#[derive(PartialEq, Eq, Structural, Clone, Copy, Debug)]
pub enum ViewMode {
    Depth,
    Uncertainty,
}

} // verus!
