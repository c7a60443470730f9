//! Plain data handed in by the command line: where to find sprites and how
//! large the output raster may get. Parsing the command line itself is the
//! caller's business.

use vstd::prelude::*;

verus! {

/// Directories to scan for sprite images, and the output image's maximum
/// dimensions.
#[derive(Debug, Default)]
pub struct InputOptions {
    pub directories: Vec<String>,
    pub max_width: u32,
    pub max_height: u32,
}

} // verus!
