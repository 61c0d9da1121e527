//! The data model of a viewer for tab-separated suffix-code dumps: parsing a dump into an
//! address-to-value mapping, the addresses shared by all loaded files, the display of values
//! in hex, binary or decimal, the grouping of files by the value they show at one address,
//! and the proportions of the charts drawn from those groups.
use vstd::prelude::*;

pub mod chart;
pub mod group;
pub mod number;
pub mod parser;
pub mod store;
pub mod text;

verus! {

} // verus!
