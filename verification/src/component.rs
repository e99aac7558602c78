//! Components: the data attached to entities.

use vstd::prelude::*;

verus! {

/// A component holds a type of data associated with an entity.
pub trait Component: Send + Sync {

}

} // verus!
