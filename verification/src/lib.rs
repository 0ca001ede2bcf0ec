pub mod algs;
pub mod error;
pub mod laws;
pub mod frac;
pub mod model;
pub mod ranking;
pub mod store;
pub mod util;

use vstd::prelude::*;

verus! {

/// Upper bound on the number of items eligible for ranking at any time.
pub const MAX_POOL_SIZE: usize = 1500;

} // verus!
