//! Batch image processing with verified logic: edge cropping, mapping-file
//! renames with undo, document enhancement stages, and per-file reports in
//! Chinese or English.

use vstd::prelude::*;

pub mod adjust;
pub mod crop;
pub mod enhance;
pub mod locale;
pub mod output;
pub mod raster;
pub mod rename;
pub mod report;
pub mod requests;
pub mod text;

verus! {

} // verus!
