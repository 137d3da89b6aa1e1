//! The state of the process-wide logger, as far as the library tells it.
//!
//! Installing a logger is the program's business. The program keeps a
//! process-wide marker that it sets before it builds the logger, and asks
//! here what the marker means.

use vstd::prelude::*;

verus! {

/// Whether logger initialisation has been requested: `marker` is what the
/// process-wide marker holds, `Some` once it has been set.
pub fn is_logger_initialized(marker: Option<&()>) -> (initialized: bool)
    ensures
        initialized == marker.is_some(),
{
    marker.is_some()
}

} // verus!
