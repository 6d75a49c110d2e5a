//! Queries over the list of live entities and over the two indexes.

use vstd::prelude::*;
use crate::body::{Body, Flags};
use crate::location::Location;
use crate::world::World;

verus! {

impl World {
    /// The test that a query applies to an identifier: the body belongs to a
    /// category of `mask` and, where a region is given, its region overlaps it.
    pub open spec fn selects(&self, mask: Flags, area: Option<Location>) -> spec_fn(usize) -> bool {
        |id: usize|
            self.body_of(id).in_group(mask) && (area matches Some(loc) ==> self.body_of(id).touches(
                loc,
            ))
    }

    /// The live entities that belong to a category of `mask`, in list order.
    pub open spec fn on_group(&self, mask: Flags) -> Seq<usize> {
        self.listed().filter(self.selects(mask, None))
    }

    /// What both indexes hold in the cell `(x, y)`, the static index first,
    /// narrowed to the bodies that belong to a category of `mask`.
    pub open spec fn on_index(&self, mask: Flags, x: int, y: int) -> Seq<usize> {
        (self.static_index().bucket(x, y) + self.dynamic_index().bucket(x, y)).filter(
            self.selects(mask, None),
        )
    }

    /// What both indexes hold in the cells that `loc` covers, the static
    /// index first, narrowed to the bodies that belong to a category of `mask`
    /// and whose region overlaps `loc`. A body recorded in several of those
    /// cells occurs once for each.
    pub open spec fn locally(&self, mask: Flags, loc: Location) -> Seq<usize> {
        (self.static_index().region(loc) + self.dynamic_index().region(loc)).filter(
            self.selects(mask, Some(loc)),
        )
    }

    fn select(&self, items: &Vec<usize>, mask: Flags, area: Option<Location>) -> (kept: Vec<usize>)
        requires
            self.wf(),
            forall|i: int| 0 <= i < items.len() ==> self.knows(#[trigger] items[i]),
        ensures
            kept@ == items@.filter(self.selects(mask, area)),
    {
        let mut kept: Vec<usize> = Vec::new();
        let mut i: usize = 0;
        while i < items.len()
            invariant
                i <= items.len(),
                self.wf(),
                forall|i: int| 0 <= i < items.len() ==> self.knows(#[trigger] items[i]),
                kept@ == items@.take(i as int).filter(self.selects(mask, area)),
            decreases items.len() - i,
        {
            let id = items[i];
            let body = &self.bodies[id - 1];
            let near = match area {
                Some(loc) => body.in_location(&loc),
                None => true,
            };
            proof {
                items@.take(i as int).lemma_filter_push(id, self.selects(mask, area));
                assert(items@.take(i + 1) == items@.take(i as int).push(id));
            }
            if body.matches(mask) && near {
                kept.push(id);
            }
            i += 1;
        }
        assert(items@.take(items.len() as int) == items@);
        kept
    }

    /// The live entities that belong to a category of `mask`, in list order.
    pub fn get_on_group(&self, mask: Flags) -> (found: Vec<usize>)
        requires
            self.wf(),
        ensures
            found@ == self.on_group(mask),
    {
        self.select(&self.entity_cells, mask, None)
    }

    /// The entities that either index holds in the cell `index` and that
    /// belong to a category of `mask`.
    pub fn get_on_index(&self, mask: Flags, index: &[i32; 2]) -> (found: Vec<usize>)
        requires
            self.wf(),
        ensures
            found@ == self.on_index(mask, index[0] as int, index[1] as int),
    {
        let mut items = self.static_hashmap.get_on_index(index);
        let mut more = self.dynamic_hashmap.get_on_index(index);
        items.append(&mut more);
        self.select(&items, mask, None)
    }

    /// The entities that either index holds in the cells that `loc` covers,
    /// that belong to a category of `mask` and whose region overlaps `loc`.
    pub fn get_locally(&self, mask: Flags, loc: &Location) -> (found: Vec<usize>)
        requires
            self.wf(),
        ensures
            found@ == self.locally(mask, *loc),
    {
        let mut items = self.static_hashmap.get_locally(loc);
        let mut more = self.dynamic_hashmap.get_locally(loc);
        proof {
            self.static_hashmap.lemma_region_within(*loc, self.bodies().len() as int);
            self.dynamic_hashmap.lemma_region_within(*loc, self.bodies().len() as int);
        }
        items.append(&mut more);
        self.select(&items, mask, Some(*loc))
    }

    fn visit<F: FnMut(&Body)>(&self, ids: &Vec<usize>, callback: &mut F)
        requires
            self.wf(),
            forall|i: int| 0 <= i < ids.len() ==> self.knows(#[trigger] ids[i]),
            forall|i: int|
                0 <= i < ids.len() ==> call_requires(
                    *old(callback),
                    (&self.body_of(#[trigger] ids[i]),),
                ),
        ensures
            forall|i: int|
                0 <= i < ids.len() ==> call_ensures(
                    *old(callback),
                    (&self.body_of(#[trigger] ids[i]),),
                    (),
                ),
    {
        let mut i: usize = 0;
        while i < ids.len()
            invariant
                i <= ids.len(),
                self.wf(),
                *callback == *old(callback),
                forall|i: int| 0 <= i < ids.len() ==> self.knows(#[trigger] ids[i]),
                forall|i: int|
                    0 <= i < ids.len() ==> call_requires(
                        *old(callback),
                        (&self.body_of(#[trigger] ids[i]),),
                    ),
                forall|j: int|
                    0 <= j < i ==> call_ensures(
                        *old(callback),
                        (&self.body_of(#[trigger] ids[j]),),
                        (),
                    ),
            decreases ids.len() - i,
        {
            let id = ids[i];
            callback(&self.bodies[id - 1]);
            i += 1;
        }
    }

    /// Whether `callback` may be called on the body of each entity of `ids`.
    pub open spec fn accepts<F: FnMut(&Body)>(&self, callback: F, ids: Seq<usize>) -> bool {
        forall|i: int|
            0 <= i < ids.len() ==> call_requires(callback, (&self.body_of(#[trigger] ids[i]),))
    }

    /// `callback` has been called on the body of each entity of `ids`: its
    /// postcondition holds of every one of those calls.
    pub open spec fn visited<F: FnMut(&Body)>(&self, callback: F, ids: Seq<usize>) -> bool {
        forall|i: int|
            0 <= i < ids.len() ==> call_ensures(callback, (&self.body_of(#[trigger] ids[i]),), ())
    }

    /// Calls `callback` on every live entity that belongs to a category of
    /// `mask`, in list order.
    ///
    /// The callback sees the bodies and cannot change them. To change the
    /// entities visited, collect their identifiers, from the bodies or with
    /// `get_on_group`, and hand each new state to `set_body`.
    pub fn apply_on_group<F: FnMut(&Body)>(&self, mask: Flags, callback: &mut F)
        requires
            self.wf(),
            self.accepts(*old(callback), self.on_group(mask)),
        ensures
            self.visited(*old(callback), self.on_group(mask)),
    {
        let ids = self.get_on_group(mask);
        proof {
            self.lemma_selected_known(self.listed(), mask, None);
        }
        self.visit(&ids, callback);
    }

    /// Calls `callback` on every entity that either index holds in the cells
    /// that `loc` covers, that belongs to a category of `mask` and whose
    /// region overlaps `loc`: the static index first, then the dynamic one.
    /// An entity recorded in several of those cells is visited once for each.
    ///
    /// The callback sees the bodies and cannot change them: `set_body` is
    /// the way to change an entity that was visited.
    pub fn apply_locally<F: FnMut(&Body)>(&self, mask: Flags, loc: &Location, callback: &mut F)
        requires
            self.wf(),
            self.accepts(*old(callback), self.locally(mask, *loc)),
        ensures
            self.visited(*old(callback), self.locally(mask, *loc)),
    {
        let ids = self.get_locally(mask, loc);
        proof {
            self.static_index().lemma_region_within(*loc, self.bodies().len() as int);
            self.dynamic_index().lemma_region_within(*loc, self.bodies().len() as int);
            self.lemma_selected_known(
                self.static_index().region(*loc) + self.dynamic_index().region(*loc),
                mask,
                Some(*loc),
            );
        }
        self.visit(&ids, callback);
    }

    /// Calls `callback` on every entity that either index holds in the cell
    /// `index` and that belongs to a category of `mask`: the static index
    /// first, then the dynamic one.
    ///
    /// The callback sees the bodies and cannot change them: `set_body` is
    /// the way to change an entity that was visited.
    pub fn apply_on_index<F: FnMut(&Body)>(&self, mask: Flags, index: &[i32; 2], callback: &mut F)
        requires
            self.wf(),
            self.accepts(*old(callback), self.on_index(mask, index[0] as int, index[1] as int)),
        ensures
            self.visited(*old(callback), self.on_index(mask, index[0] as int, index[1] as int)),
    {
        let ids = self.get_on_index(mask, index);
        proof {
            self.lemma_selected_known(
                self.static_index().bucket(index[0] as int, index[1] as int)
                    + self.dynamic_index().bucket(index[0] as int, index[1] as int),
                mask,
                None,
            );
        }
        self.visit(&ids, callback);
    }

    /// A query keeps only identifiers of the sequence it narrows.
    pub proof fn lemma_selected_known(&self, items: Seq<usize>, mask: Flags, area: Option<Location>)
        requires
            forall|i: int| 0 <= i < items.len() ==> self.knows(#[trigger] items[i]),
        ensures
            forall|i: int|
                0 <= i < items.filter(self.selects(mask, area)).len() ==> self.knows(
                    #[trigger] items.filter(self.selects(mask, area))[i],
                ),
    {
        let kept = items.filter(self.selects(mask, area));
        assert forall|i: int| 0 <= i < kept.len() implies self.knows(#[trigger] kept[i]) by {
            assert(kept.contains(kept[i]));
            items.lemma_filter_contains_rev(self.selects(mask, area), kept[i]);
            let j = choose|j: int| 0 <= j < items.len() && items[j] == kept[i];
            assert(self.knows(items[j]));
        }
    }
}

} // verus!
