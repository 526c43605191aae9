//! A single-file columnar container format: rows are stored column-major in
//! row groups, followed by a checksummed footer that indexes them and a
//! fixed-width trailer that locates the footer.
use vstd::prelude::*;

pub mod bytes;
pub mod codec;
pub mod column;
pub mod error;
pub mod file;
pub mod footer;
pub mod laws;
pub mod layout;
pub mod reader;
pub mod rowgroup;
pub mod tags;
pub mod writer;

verus! {

} // verus!
