//! The world: the arena of bodies, the list of live entities, and the two
//! spatial indexes.
//!
//! Bodies live in an arena and are never moved: the body with identifier `id`
//! sits at arena slot `id - 1`. The list of live entities and the buckets of
//! both indexes hold identifiers, so one body can be listed in many places.

use vstd::prelude::*;
use std::collections::HashSet;
use crate::body::{Body, PhysicType};
use crate::location::in_grid;
use crate::spatial_hashing::{cell_key, key_of, SpatialHashing};

verus! {

/// Whether `cells` names the cell `(x, y)`.
pub open spec fn names_cell(cells: Seq<[i32; 2]>, x: int, y: int) -> bool {
    exists|k: int| 0 <= k < cells.len() && (#[trigger] cells[k])[0] == x && cells[k][1] == y
}

pub struct World {
    pub(crate) unit: u32,
    pub(crate) time: u64,
    pub(crate) next_id: usize,
    pub(crate) wall_map: HashSet<u64>,
    pub(crate) entity_cells: Vec<usize>,
    pub(crate) static_hashmap: SpatialHashing,
    pub(crate) dynamic_hashmap: SpatialHashing,
    pub(crate) bodies: Vec<Body>,
}

impl World {
    /// Side of a grid cell.
    pub open(crate) spec fn spec_unit(&self) -> int {
        self.unit as int
    }

    /// Simulation time, as last set.
    pub open(crate) spec fn spec_time(&self) -> u64 {
        self.time
    }

    /// The identifier that the next insertion assigns.
    pub open(crate) spec fn spec_next_id(&self) -> int {
        self.next_id as int
    }

    /// Every body that ever entered the world, by identifier: the body `id`
    /// is `bodies()[id - 1]`.
    pub open(crate) spec fn bodies(&self) -> Seq<Body> {
        self.bodies@
    }

    /// Identifiers of the live entities, in list order.
    pub open(crate) spec fn listed(&self) -> Seq<usize> {
        self.entity_cells@
    }

    /// The index built once, from the static bodies.
    pub open(crate) spec fn static_index(&self) -> SpatialHashing {
        self.static_hashmap
    }

    /// The index rebuilt on every update.
    pub open(crate) spec fn dynamic_index(&self) -> SpatialHashing {
        self.dynamic_hashmap
    }

    /// Whether the cell `(x, y)` is flagged as a wall.
    pub open(crate) spec fn wall_at(&self, x: int, y: int) -> bool {
        in_grid(x, y) && self.wall_map@.contains(cell_key(x, y) as u64)
    }

    /// `id` was assigned by this world.
    pub open spec fn knows(&self, id: usize) -> bool {
        1 <= id <= self.bodies().len()
    }

    /// The body with identifier `id`.
    pub open spec fn body_of(&self, id: usize) -> Body {
        self.bodies()[id - 1]
    }

    /// The entity `id` is on the list of live entities.
    pub open spec fn is_listed(&self, id: usize) -> bool {
        self.listed().contains(id)
    }

    pub open spec fn wf(&self) -> bool {
        &&& self.spec_unit() > 0
        &&& self.static_index().spec_unit() == self.spec_unit()
        &&& self.dynamic_index().spec_unit() == self.spec_unit()
        &&& self.spec_next_id() == self.bodies().len() + 1
        &&& forall|k: int| 0 <= k < self.bodies().len() ==> (#[trigger] self.bodies()[k]).id == k + 1
        &&& forall|i: int| 0 <= i < self.listed().len() ==> self.knows(#[trigger] self.listed()[i])
        &&& self.listed().no_duplicates()
        &&& self.static_index().within(self.bodies().len() as int)
        &&& self.dynamic_index().within(self.bodies().len() as int)
        &&& forall|x: int, y: int, i: int|
            0 <= i < self.static_index().bucket(x, y).len() ==> self.body_of(
                #[trigger] self.static_index().bucket(x, y)[i],
            ).physic_type == PhysicType::Static
    }

    /// An empty world with grid cells of side `unit`, at time zero.
    pub fn new(unit: u32) -> (world: World)
        requires
            unit > 0,
        ensures
            world.wf(),
            world.spec_unit() == unit,
            world.spec_time() == 0,
            world.spec_next_id() == 1,
            world.bodies().len() == 0,
            world.listed().len() == 0,
            world.static_index().is_empty(),
            world.dynamic_index().is_empty(),
            forall|x: int, y: int| !world.wall_at(x, y),
    {
        World {
            unit,
            time: 0,
            next_id: 1,
            wall_map: HashSet::new(),
            entity_cells: Vec::new(),
            static_hashmap: SpatialHashing::new(unit),
            dynamic_hashmap: SpatialHashing::new(unit),
            bodies: Vec::new(),
        }
    }

    pub fn unit(&self) -> (unit: u32)
        ensures
            unit == self.spec_unit(),
    {
        self.unit
    }

    pub fn time(&self) -> (time: u64)
        ensures
            time == self.spec_time(),
    {
        self.time
    }

    /// The identifier that the next insertion assigns.
    pub fn next_id(&self) -> (id: usize)
        ensures
            id == self.spec_next_id(),
    {
        self.next_id
    }

    /// Sets the simulation time; the world itself never advances it.
    pub fn set_time(&mut self, time: u64)
        ensures
            final(self).spec_time() == time,
            final(self).spec_unit() == old(self).spec_unit(),
            final(self).spec_next_id() == old(self).spec_next_id(),
            final(self).bodies() == old(self).bodies(),
            final(self).listed() == old(self).listed(),
            final(self).static_index() == old(self).static_index(),
            final(self).dynamic_index() == old(self).dynamic_index(),
            forall|x: int, y: int| final(self).wall_at(x, y) == old(self).wall_at(x, y),
    {
        self.time = time;
    }

    /// The index of the static bodies.
    pub fn static_hashmap(&self) -> (index: &SpatialHashing)
        ensures
            *index == self.static_index(),
    {
        &self.static_hashmap
    }

    /// The index that every update rebuilds.
    pub fn dynamic_hashmap(&self) -> (index: &SpatialHashing)
        ensures
            *index == self.dynamic_index(),
    {
        &self.dynamic_hashmap
    }

    /// The list of live entities.
    pub fn entity_cells(&self) -> (list: &Vec<usize>)
        ensures
            list@ == self.listed(),
    {
        &self.entity_cells
    }

    /// Whether the cell `index` is flagged as a wall.
    pub fn is_wall(&self, index: &[i32; 2]) -> (wall: bool)
        ensures
            wall == self.wall_at(index[0] as int, index[1] as int),
    {
        broadcast use vstd::std_specs::hash::group_hash_axioms;

        let key = key_of(index[0], index[1]);
        self.wall_map.contains(&key)
    }

    /// Flags the cell `index` as a wall, or takes the flag from it.
    pub fn set_wall(&mut self, index: &[i32; 2], wall: bool)
        ensures
            forall|x: int, y: int|
                final(self).wall_at(x, y) == if x == index[0] && y == index[1] {
                    wall
                } else {
                    old(self).wall_at(x, y)
                },
            final(self).spec_unit() == old(self).spec_unit(),
            final(self).spec_time() == old(self).spec_time(),
            final(self).spec_next_id() == old(self).spec_next_id(),
            final(self).bodies() == old(self).bodies(),
            final(self).listed() == old(self).listed(),
            final(self).static_index() == old(self).static_index(),
            final(self).dynamic_index() == old(self).dynamic_index(),
    {
        broadcast use vstd::std_specs::hash::group_hash_axioms;

        let key = key_of(index[0], index[1]);
        if wall {
            self.wall_map.insert(key);
        } else {
            self.wall_map.remove(&key);
        }
    }

    /// The body `id`, if this world assigned that identifier.
    pub fn body(&self, id: usize) -> (body: Option<Body>)
        requires
            self.wf(),
        ensures
            body == if self.knows(id) {
                Some(self.body_of(id))
            } else {
                None
            },
    {
        if 1 <= id && id <= self.bodies.len() {
            Some(self.bodies[id - 1])
        } else {
            None
        }
    }

    /// Replaces the state of the entity `id`, which keeps its identifier and
    /// its indexing class. Neither index is touched: a body that moves is
    /// found at its new place after the next update. Returns whether the
    /// world knows `id`; if not, nothing changes.
    pub fn set_body(&mut self, id: usize, body: Body) -> (known: bool)
        requires
            old(self).wf(),
        ensures
            final(self).wf(),
            known == old(self).knows(id),
            final(self).bodies() == if known {
                old(self).bodies().update(id - 1, body.bound_to(old(self).body_of(id)))
            } else {
                old(self).bodies()
            },
            final(self).same_frame(*old(self)),
            final(self).listed() == old(self).listed(),
            final(self).static_index() == old(self).static_index(),
            final(self).dynamic_index() == old(self).dynamic_index(),
    {
        if 1 <= id && id <= self.bodies.len() {
            let bound = body.rebind(&self.bodies[id - 1]);
            self.bodies[id - 1] = bound;
            true
        } else {
            false
        }
    }

    /// Cell size, time, identifier counter and wall cells agree with `other`.
    pub open spec fn same_frame(&self, other: World) -> bool {
        &&& self.spec_unit() == other.spec_unit()
        &&& self.spec_time() == other.spec_time()
        &&& self.spec_next_id() == other.spec_next_id()
        &&& forall|x: int, y: int| self.wall_at(x, y) == other.wall_at(x, y)
    }

    /// The same bodies are known as in `other`, each under its identifier
    /// and in its indexing class, whatever else has changed in them.
    pub open spec fn same_identities(&self, other: World) -> bool {
        &&& self.bodies().len() == other.bodies().len()
        &&& forall|k: int|
            0 <= k < self.bodies().len() ==> (#[trigger] self.bodies()[k]).id == other.bodies()[k].id
                && self.bodies()[k].physic_type == other.bodies()[k].physic_type
    }

    /// `self` is `before` after the entity `body`, already stamped with its
    /// identifier, has entered with the wall cells `walls`: the identifier
    /// counter has moved on by one, the wall cells are flagged, the body
    /// closes the arena and the list of live entities, and it is recorded, in
    /// every cell that its region covers, in the static index if it is static
    /// and in the dynamic index if not. Nothing else differs.
    pub open spec fn holds_new(&self, before: World, body: Body, walls: Seq<[i32; 2]>) -> bool {
        &&& self.spec_next_id() == before.spec_next_id() + 1
        &&& self.spec_unit() == before.spec_unit()
        &&& self.spec_time() == before.spec_time()
        &&& self.bodies() == before.bodies().push(body)
        &&& self.listed() == before.listed().push(body.id)
        &&& forall|x: int, y: int|
            self.wall_at(x, y) == (before.wall_at(x, y) || (in_grid(x, y) && names_cell(
                walls,
                x,
                y,
            )))
        &&& body.physic_type == PhysicType::Static ==> {
            &&& self.static_index().is_insertion(before.static_index(), body.location, body.id)
            &&& self.dynamic_index() == before.dynamic_index()
        }
        &&& body.physic_type != PhysicType::Static ==> {
            &&& self.dynamic_index().is_insertion(before.dynamic_index(), body.location, body.id)
            &&& self.static_index() == before.static_index()
        }
    }

    /// Takes an entity into the world and returns the identifier assigned to
    /// it: the next one in order, starting from `1`.
    ///
    /// The cells in `walls` are flagged as walls. The body is recorded in the
    /// static index if it is static, else in the dynamic index, in every cell
    /// that its region covers, and is appended to the list of live entities.
    ///
    /// An insertion only adds wall cells; `set_wall` takes a flag away.
    pub fn insert(&mut self, body: Body, walls: &Vec<[i32; 2]>) -> (id: usize)
        requires
            old(self).wf(),
            old(self).spec_next_id() < usize::MAX,
        ensures
            final(self).wf(),
            id == old(self).spec_next_id(),
            final(self).holds_new(*old(self), body.with_id(id), walls@),
    {
        broadcast use vstd::std_specs::hash::group_hash_axioms;

        let id = self.next_id;
        self.next_id = self.next_id + 1;

        let mut k: usize = 0;
        while k < walls.len()
            invariant
                k <= walls.len(),
                self.unit == old(self).unit,
                self.time == old(self).time,
                self.next_id == id + 1,
                self.bodies == old(self).bodies,
                self.entity_cells == old(self).entity_cells,
                self.static_hashmap == old(self).static_hashmap,
                self.dynamic_hashmap == old(self).dynamic_hashmap,
                forall|x: int, y: int|
                    self.wall_at(x, y) == (old(self).wall_at(x, y) || (in_grid(x, y) && names_cell(
                        walls@.take(k as int),
                        x,
                        y,
                    ))),
            decreases walls.len() - k,
        {
            let cell = walls[k];
            let ghost seen = walls@.take(k as int);
            let ghost more = walls@.take(k + 1);
            self.wall_map.insert(key_of(cell[0], cell[1]));
            proof {
                assert forall|x: int, y: int|
                    self.wall_at(x, y) == (old(self).wall_at(x, y) || (in_grid(x, y) && names_cell(
                        more,
                        x,
                        y,
                    ))) by {
                    if names_cell(seen, x, y) {
                        let j = choose|j: int|
                            0 <= j < seen.len() && (#[trigger] seen[j])[0] == x && seen[j][1] == y;
                        assert(more[j][0] == x && more[j][1] == y);
                    }
                    if x == cell[0] && y == cell[1] {
                        assert(more[k as int][0] == x && more[k as int][1] == y);
                    }
                    if names_cell(more, x, y) {
                        let j = choose|j: int|
                            0 <= j < more.len() && (#[trigger] more[j])[0] == x && more[j][1] == y;
                        if j < k {
                            assert(seen[j][0] == x && seen[j][1] == y);
                        }
                    }
                }
            }
            k += 1;
        }
        assert(walls@.take(walls.len() as int) == walls@);

        let stamped = Body { id, ..body };
        match stamped.physic_type {
            PhysicType::Static => self.static_hashmap.insert_locally(&stamped.location, id),
            PhysicType::Dynamic => self.dynamic_hashmap.insert_locally(&stamped.location, id),
        }
        self.bodies.push(stamped);
        self.entity_cells.push(id);
        proof {
            let n = old(self).bodies().len() as int;
            assert forall|i: int, j: int|
                0 <= i < self.listed().len() && 0 <= j < self.listed().len() && i != j implies self.listed()[i]
                != self.listed()[j] by {
                if i < n && j < n {
                } else if i == self.listed().len() - 1 {
                    assert(old(self).knows(old(self).listed()[j]));
                } else {
                    assert(old(self).knows(old(self).listed()[i]));
                }
            }
        }
        id
    }
}

} // verus!
