//! Reconstruction of polygon rings from multipolygon segments, and scanline
//! filling of polygon contours.
use vstd::prelude::*;

pub mod fill;
pub mod find_polygons;
pub mod importer;

verus! {

} // verus!
