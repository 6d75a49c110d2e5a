//! The physical-state record of one entity.

use vstd::prelude::*;
use crate::location::Location;

verus! {

/// A set of categories, one bit each.
pub type Flags = u32;

/// How the world indexes a body.
#[derive(Clone, Copy, Debug, PartialEq, Eq, Structural)]
pub enum PhysicType {
    /// Never moves; indexed once, when it enters the world.
    Static,
    /// May move; indexed anew on every update.
    Dynamic,
}

/// What the world knows of an entity.
#[derive(Clone, Copy, Debug, PartialEq, Eq, Structural)]
pub struct Body {
    /// Identifier, unique within one world; `0` until the world assigns one.
    pub id: usize,
    /// Bounding region in world space.
    pub location: Location,
    /// Categories the body belongs to.
    pub group: Flags,
    /// Categories the body collides with.
    pub mask: Flags,
    pub physic_type: PhysicType,
    /// Tombstone: the world drops the body from its list at the next update.
    pub dead: bool,
}

impl Body {
    /// The body belongs to at least one category of `mask`.
    pub open spec fn in_group(self, mask: Flags) -> bool {
        self.group & mask != 0
    }

    /// The body's region overlaps `loc`.
    pub open spec fn touches(self, loc: Location) -> bool {
        self.location.overlaps(loc)
    }

    /// The same state under another identifier.
    pub open spec fn with_id(self, id: usize) -> Body {
        Body { id, ..self }
    }

    /// The state of `self` under the identifier and the indexing class of
    /// `kept`: what the world stores when the body `kept` is given a new
    /// state.
    pub open spec fn bound_to(self, kept: Body) -> Body {
        Body { id: kept.id, physic_type: kept.physic_type, ..self }
    }

    /// A live body that has not entered any world yet.
    pub fn new(location: Location, group: Flags, mask: Flags, physic_type: PhysicType) -> (body:
        Body)
        ensures
            body == (Body { id: 0, location, group, mask, physic_type, dead: false }),
    {
        Body { id: 0, location, group, mask, physic_type, dead: false }
    }

    /// Returns this state under the identifier and the indexing class of
    /// `kept`.
    pub fn rebind(self, kept: &Body) -> (body: Body)
        ensures
            body == self.bound_to(*kept),
    {
        Body { id: kept.id, physic_type: kept.physic_type, ..self }
    }

    pub fn id(&self) -> (id: usize)
        ensures
            id == self.id,
    {
        self.id
    }

    pub fn location(&self) -> (loc: Location)
        ensures
            loc == self.location,
    {
        self.location
    }

    pub fn dead(&self) -> (dead: bool)
        ensures
            dead == self.dead,
    {
        self.dead
    }

    pub fn is_static(&self) -> (fixed: bool)
        ensures
            fixed == (self.physic_type == PhysicType::Static),
    {
        match self.physic_type {
            PhysicType::Static => true,
            PhysicType::Dynamic => false,
        }
    }

    /// Tests the body's categories against a mask.
    pub fn matches(&self, mask: Flags) -> (hit: bool)
        ensures
            hit == self.in_group(mask),
    {
        self.group & mask != 0
    }

    /// Tests the body's region against `loc`.
    pub fn in_location(&self, loc: &Location) -> (hit: bool)
        ensures
            hit == self.touches(*loc),
    {
        self.location.intersects(loc)
    }
}

} // verus!
