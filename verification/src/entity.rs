//! Entities.

use vstd::prelude::*;

verus! {

/// An entity represents a "thing" within the world. It is described by the components associated
/// with it.
#[derive(Debug, Copy, Clone, PartialEq, Eq, Hash, Structural)]
pub struct Entity {
    id: u32,
    /// Since IDs are reused, a version is kept so that we can tell the difference between two
    /// entity handles with the same ID. A version is never zero.
    ver: u32,
}

/// What an entity handle holds: the id of its slot and the version of the
/// slot at the time the handle was made.
pub struct EntityView {
    pub id: int,
    pub ver: int,
}

impl View for Entity {
    type V = EntityView;

    closed spec fn view(&self) -> EntityView {
        EntityView { id: self.id as int, ver: self.ver as int }
    }
}

impl Entity {
    #[verifier::type_invariant]
    spec fn versioned(&self) -> bool {
        self.ver != 0
    }

    /// Makes a handle from an id and a version, which is not zero.
    pub fn from_raw_parts(id: u32, ver: u32) -> (r: Self)
        requires
            ver != 0,
        ensures
            r@ == (EntityView { id: id as int, ver: ver as int }),
    {
        Self { id, ver }
    }

    pub fn id(&self) -> (r: u32)
        ensures
            r == self@.id,
    {
        self.id
    }

    pub fn ver(&self) -> (r: u32)
        ensures
            r == self@.ver,
            r != 0,
    {
        proof {
            use_type_invariant(self);
        }
        self.ver
    }
}

} // verus!
