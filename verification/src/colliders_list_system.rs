//! The system that rebuilds the collider and trigger lists from the
//! collider components present in the world, once per tick.

use vstd::prelude::*;

use crate::colliders::Collider;
use crate::colliders::ColliderList;
use crate::tile::TileTransform;

verus! {

/// The tiles of the plain (non-trigger) colliders among `items`, in
/// order.
pub open spec fn collider_tiles(items: Seq<(TileTransform, Collider)>) -> Seq<TileTransform>
    decreases items.len(),
{
    if items.len() == 0 {
        Seq::empty()
    } else {
        let rest = collider_tiles(items.drop_last());
        if items.last().1.trigger is None {
            rest.push(items.last().0)
        } else {
            rest
        }
    }
}

/// The tiles and ids of the triggers among `items`, in order.
pub open spec fn trigger_entries(items: Seq<(TileTransform, Collider)>) -> Seq<
    (TileTransform, u32),
>
    decreases items.len(),
{
    if items.len() == 0 {
        Seq::empty()
    } else {
        let rest = trigger_entries(items.drop_last());
        match items.last().1.trigger {
            Some(id) => rest.push((items.last().0, id)),
            None => rest,
        }
    }
}

/// Fills the [`ColliderList`] resource from the colliders the world
/// currently holds.
pub struct CollidersListSystem;

impl CollidersListSystem {
    /// One tick: partitions the `(tile, collider)` pairs into the
    /// collider list and the trigger list, and stores both.
    pub fn run(&mut self, items: &Vec<(TileTransform, Collider)>, list: &mut ColliderList)
        ensures
            final(list).colls_view() == collider_tiles(items@),
            final(list).triggers_view() == trigger_entries(items@),
    {
        let mut colliders_list: Vec<TileTransform> = Vec::new();
        let mut triggers_list: Vec<(TileTransform, u32)> = Vec::new();
        let mut i: usize = 0;
        while i < items.len()
            invariant
                i <= items@.len(),
                colliders_list@ == collider_tiles(items@.take(i as int)),
                triggers_list@ == trigger_entries(items@.take(i as int)),
            decreases items@.len() - i,
        {
            let (t, c) = items[i];
            match c.trigger {
                Some(id) => triggers_list.push((t, id)),
                None => colliders_list.push(t),
            }
            proof {
                assert(items@.take(i + 1).drop_last() =~= items@.take(i as int));
                assert(items@.take(i + 1).last() == items@[i as int]);
            }
            i = i + 1;
        }
        proof {
            assert(items@.take(items@.len() as int) =~= items@);
        }
        list.set(colliders_list);
        list.set_triggers(triggers_list);
    }
}

} // verus!
