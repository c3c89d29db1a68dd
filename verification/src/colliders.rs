//! Collider components: marking a tile as blocking or as a trigger,
//! and the per-tick lists of both gathered from the world.

use vstd::prelude::*;

use crate::tile::TileTransform;

verus! {

/// Component to mark an entity as a collider.  With `trigger` absent
/// it is a plain blocking collider; with `Some(id)` it is the trigger
/// with that id.
#[derive(Clone, Copy, Debug)]
pub struct Collider {
    pub trigger: Option<u32>,
}

impl Default for Collider {
    fn default() -> (c: Self)
        ensures
            c.trigger is None,
    {
        Collider { trigger: None }
    }
}

impl Collider {
    /// Constructor for a trigger collider; for plain colliders, use
    /// the default.
    pub fn new(trigger_id: u32) -> (c: Self)
        ensures
            c.trigger == Some(trigger_id),
    {
        Collider { trigger: Some(trigger_id) }
    }
}

/// Holds the list of all collider tiles, and of all trigger tiles,
/// each rebuilt once per tick.
pub struct ColliderList {
    colls: Vec<TileTransform>,
    triggers: Vec<(TileTransform, u32)>,
}

impl ColliderList {
    /// The collider tiles currently held.
    pub closed spec fn colls_view(self) -> Seq<TileTransform> {
        self.colls@
    }

    /// The trigger tiles and ids currently held.
    pub closed spec fn triggers_view(self) -> Seq<(TileTransform, u32)> {
        self.triggers@
    }

    /// Constructor: both lists start empty.
    pub fn new() -> (l: Self)
        ensures
            l.colls_view() == Seq::<TileTransform>::empty(),
            l.triggers_view() == Seq::<(TileTransform, u32)>::empty(),
    {
        ColliderList { colls: Vec::new(), triggers: Vec::new() }
    }

    /// Replaces the list of colliders.
    pub fn set(&mut self, c: Vec<TileTransform>)
        ensures
            final(self).colls_view() == c@,
            final(self).triggers_view() == old(self).triggers_view(),
    {
        self.colls = c;
    }

    /// Replaces the list of triggers.
    pub fn set_triggers(&mut self, t: Vec<(TileTransform, u32)>)
        ensures
            final(self).triggers_view() == t@,
            final(self).colls_view() == old(self).colls_view(),
    {
        self.triggers = t;
    }

    /// The list of colliders.
    pub fn get(&self) -> (r: &Vec<TileTransform>)
        ensures
            r@ == self.colls_view(),
    {
        &self.colls
    }

    /// The list of triggers.
    pub fn get_triggers(&self) -> (r: &Vec<(TileTransform, u32)>)
        ensures
            r@ == self.triggers_view(),
    {
        &self.triggers
    }
}

impl Default for ColliderList {
    fn default() -> (l: Self)
        ensures
            l.colls_view() == Seq::<TileTransform>::empty(),
            l.triggers_view() == Seq::<(TileTransform, u32)>::empty(),
    {
        ColliderList::new()
    }
}

} // verus!
