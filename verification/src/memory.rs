//! What the long-term memory hands back.

use vstd::prelude::*;

verus! {

/// A stored experience; `solution` holds the serialised practice.
#[derive(Debug, Clone)]
pub struct MemoryExperience {
    pub solution: String,
}

} // verus!
