//! The update pass: behavior, reclamation of the dead, and the rebuild of the
//! dynamic index with collision resolution on the way.

use vstd::prelude::*;
use crate::body::{Body, Flags};
use crate::location::Location;
use crate::world::World;

verus! {

/// What entities do. The world keeps the bodies; the behaviors are told which
/// entity is meant by the identifier in the body they are handed.
///
/// A behavior may change anything in the body it is handed but its
/// identifier and its indexing class, which the world restores.
pub trait Behaviors {
    /// Advances the entity `body` by the time `dt`. It may look at the
    /// world, and may move the body or mark it dead.
    fn update(&mut self, body: &mut Body, dt: u32, world: &World);

    /// Draws the entity `body`.
    fn render(&mut self, body: &Body);

    /// Whether the shapes of the two bodies touch.
    fn collide(&self, body: &Body, other: &Body) -> bool;

    /// Moves `body` out of its collision with `other`.
    fn resolve_collision(&mut self, body: &mut Body, other: &Body);

    /// Tells the entity `body` that it has collided with `other`.
    fn on_collision(&mut self, body: &mut Body, other: &Body);
}

/// The list that a sweep from position `at` leaves: every entry from `at` on
/// whose body is dead is overwritten with the last entry, which shortens the
/// list by one.
pub open spec fn swept(list: Seq<usize>, at: int, bodies: Seq<Body>) -> Seq<usize>
    decreases list.len() - at,
{
    if at < 0 || at >= list.len() {
        list
    } else if bodies[list[at] - 1].dead {
        swept(list.update(at, list.last()).drop_last(), at, bodies)
    } else {
        swept(list, at + 1, bodies)
    }
}

/// A sweep keeps the entries before its start and the live entries behind
/// it, and nothing else, and does not repeat an entry.
pub proof fn lemma_swept(list: Seq<usize>, at: int, bodies: Seq<Body>)
    requires
        list.no_duplicates(),
        0 <= at,
    ensures
        swept(list, at, bodies).no_duplicates(),
        forall|id: usize|
            swept(list, at, bodies).contains(id) <==> exists|k: int|
                0 <= k < list.len() && #[trigger] list[k] == id && (k < at || !bodies[id - 1].dead),
    decreases list.len() - at,
{
    let out = swept(list, at, bodies);
    if at >= list.len() {
        assert forall|id: usize| out.contains(id) implies exists|k: int|
            0 <= k < list.len() && #[trigger] list[k] == id && (k < at || !bodies[id - 1].dead) by {
            let k = choose|k: int| 0 <= k < list.len() && list[k] == id;
            assert(list[k] == id && k < at);
        }
    } else if bodies[list[at] - 1].dead {
        let next = list.update(at, list.last()).drop_last();
        assert forall|i: int, j: int| 0 <= i < next.len() && 0 <= j < next.len() && i != j implies next[i]
            != next[j] by {
            let pi = if i == at { list.len() - 1 } else { i };
            let pj = if j == at { list.len() - 1 } else { j };
            assert(next[i] == list[pi] && next[j] == list[pj]);
        }
        lemma_swept(next, at, bodies);
        assert forall|id: usize| out.contains(id) <==> exists|k: int|
            0 <= k < list.len() && #[trigger] list[k] == id && (k < at || !bodies[id - 1].dead) by {
            if out.contains(id) {
                let k = choose|k: int|
                    0 <= k < next.len() && #[trigger] next[k] == id && (k < at || !bodies[id
                        - 1].dead);
                let pk = if k == at { list.len() - 1 } else { k };
                assert(list[pk] == id);
            }
            if exists|k: int|
                0 <= k < list.len() && #[trigger] list[k] == id && (k < at || !bodies[id
                    - 1].dead) {
                let k = choose|k: int|
                    0 <= k < list.len() && #[trigger] list[k] == id && (k < at || !bodies[id
                        - 1].dead);
                // `k` is not `at`: the body there is dead
                let nk = if k == list.len() - 1 { at } else { k };
                assert(next[nk] == id);
            }
        }
    } else {
        lemma_swept(list, at + 1, bodies);
        assert forall|id: usize| out.contains(id) <==> exists|k: int|
            0 <= k < list.len() && #[trigger] list[k] == id && (k < at || !bodies[id - 1].dead) by {
            if out.contains(id) {
                let k = choose|k: int|
                    0 <= k < list.len() && #[trigger] list[k] == id && (k < at + 1 || !bodies[id
                        - 1].dead);
                assert(list[k] == id && (k < at || !bodies[id - 1].dead));
            }
            if exists|k: int|
                0 <= k < list.len() && #[trigger] list[k] == id && (k < at || !bodies[id
                    - 1].dead) {
                let k = choose|k: int|
                    0 <= k < list.len() && #[trigger] list[k] == id && (k < at || !bodies[id
                        - 1].dead);
                assert(list[k] == id && (k < at + 1 || !bodies[id - 1].dead));
            }
        }
    }
}

/// Two tests that agree on every entry of a sequence keep the same entries.
pub proof fn lemma_filter_agree(
    items: Seq<usize>,
    first: spec_fn(usize) -> bool,
    second: spec_fn(usize) -> bool,
)
    requires
        forall|k: int| 0 <= k < items.len() ==> first(#[trigger] items[k]) == second(items[k]),
    ensures
        items.filter(first) == items.filter(second),
    decreases items.len(),
{
    reveal(Seq::filter);
    if items.len() > 0 {
        let front = items.drop_last();
        assert forall|k: int| 0 <= k < front.len() implies first(#[trigger] front[k]) == second(
            front[k],
        ) by {
            assert(front[k] == items[k]);
        }
        lemma_filter_agree(front, first, second);
        assert(first(items[items.len() - 1]) == second(items[items.len() - 1]));
    }
}

impl World {
    /// The test for being recorded in the cell `(x, y)`, given the region
    /// under which each entity was recorded: that region covers the cell.
    pub open spec fn recorded_in(&self, placed: Map<usize, Location>, x: int, y: int) -> spec_fn(
        usize,
    ) -> bool {
        |id: usize| placed.contains_key(id) && placed[id].covers(self.spec_unit(), x, y)
    }

    /// The dynamic index is what the rebuild makes of the first `upto`
    /// entities on the list when each entity `id` of them is recorded under
    /// the region `placed[id]`: each cell holds, in list order, those of them
    /// whose region covers it.
    pub open spec fn rebuilt_upto(&self, upto: int, placed: Map<usize, Location>) -> bool {
        forall|x: int, y: int|
            #[trigger] self.dynamic_index().bucket(x, y) == self.listed().take(upto).filter(
                self.recorded_in(placed, x, y),
            )
    }

    /// What both indexes hold in the cells that the region of the entity
    /// `id` covers, the static index first: the entities that its turn in the
    /// rebuild looks at, in that order. Narrowed to the mask and the region
    /// of the entity, this is what `locally` gives for them.
    pub open spec fn around(&self, id: usize) -> Seq<usize> {
        self.static_index().region(self.body_of(id).location) + self.dynamic_index().region(
            self.body_of(id).location,
        )
    }

    /// Whether the entity `id`, with the mask and the region it had when its
    /// turn began, is tested against the entity `other` as that one is now:
    /// `other` is another entity, belongs to a category of the mask, and its
    /// region overlaps the region.
    pub open spec fn is_tested(&self, id: usize, other: usize, mask: Flags, loc: Location) -> bool {
        other != id && self.body_of(other).in_group(mask) && self.body_of(other).touches(loc)
    }

    /// `self` is `before` with the dead reclaimed and the dynamic index
    /// emptied.
    pub open spec fn starts_rebuild(&self, before: World) -> bool {
        &&& self.same_frame(before)
        &&& self.bodies() == before.bodies()
        &&& self.static_index() == before.static_index()
        &&& self.listed() == before.survivors()
        &&& self.dynamic_index().is_empty()
    }

    /// `self` differs from `before` in the arena at most.
    pub open spec fn same_but_bodies(&self, before: World) -> bool {
        &&& self.same_frame(before)
        &&& self.listed() == before.listed()
        &&& self.static_index() == before.static_index()
        &&& self.dynamic_index() == before.dynamic_index()
    }

    /// The live entities once the dead are reclaimed.
    pub open spec fn survivors(&self) -> Seq<usize> {
        swept(self.listed(), 0, self.bodies())
    }

    /// Arena and indexes agree with `other`.
    pub open spec fn same_bodies(&self, other: World) -> bool {
        &&& self.bodies() == other.bodies()
        &&& self.static_index() == other.static_index()
        &&& self.dynamic_index() == other.dynamic_index()
    }

    /// Drops from the list every entity whose body is marked dead. Each one
    /// dropped is replaced by the entity that was last on the list, so the
    /// order of the others may change. Neither index is touched.
    pub fn reclaim(&mut self)
        requires
            old(self).wf(),
        ensures
            final(self).wf(),
            final(self).listed() == old(self).survivors(),
            final(self).same_frame(*old(self)),
            final(self).same_bodies(*old(self)),
    {
        let mut i: usize = 0;
        while i < self.entity_cells.len()
            invariant
                self.wf(),
                self.same_frame(*old(self)),
                self.same_bodies(*old(self)),
                swept(self.listed(), i as int, self.bodies()) == old(self).survivors(),
            decreases self.entity_cells.len() - i,
        {
            let id = self.entity_cells[i];
            if self.bodies[id - 1].dead() {
                let ghost list = self.listed();
                self.entity_cells.swap_remove(i);
                proof {
                    let next = self.listed();
                    assert forall|a: int, b: int|
                        0 <= a < next.len() && 0 <= b < next.len() && a != b implies next[a]
                        != next[b] by {
                        let pa = if a == i { list.len() - 1 } else { a };
                        let pb = if b == i { list.len() - 1 } else { b };
                        assert(next[a] == list[pa] && next[b] == list[pb]);
                    }
                    assert forall|a: int| 0 <= a < next.len() implies self.knows(
                        #[trigger] next[a],
                    ) by {
                        let pa = if a == i { list.len() - 1 } else { a };
                        assert(next[a] == list[pa]);
                    }
                }
            } else {
                i += 1;
            }
        }
    }

    /// Empties the dynamic index.
    pub fn clear_dynamic(&mut self)
        requires
            old(self).wf(),
        ensures
            final(self).wf(),
            final(self).dynamic_index().is_empty(),
            final(self).same_frame(*old(self)),
            final(self).bodies() == old(self).bodies(),
            final(self).listed() == old(self).listed(),
            final(self).static_index() == old(self).static_index(),
    {
        self.dynamic_hashmap.clear();
    }

    /// Records the entity `id` in the dynamic index, in every cell that its
    /// region covers now. Returns whether the world knows `id`; if not,
    /// nothing changes.
    pub fn reindex(&mut self, id: usize) -> (known: bool)
        requires
            old(self).wf(),
        ensures
            final(self).wf(),
            known == old(self).knows(id),
            known ==> final(self).dynamic_index().is_insertion(
                old(self).dynamic_index(),
                old(self).body_of(id).location,
                id,
            ),
            !known ==> final(self).dynamic_index() == old(self).dynamic_index(),
            final(self).same_frame(*old(self)),
            final(self).bodies() == old(self).bodies(),
            final(self).listed() == old(self).listed(),
            final(self).static_index() == old(self).static_index(),
    {
        if 1 <= id && id <= self.bodies.len() {
            let location = self.bodies[id - 1].location;
            self.dynamic_hashmap.insert_locally(&location, id);
            true
        } else {
            false
        }
    }

    /// Draws every live entity, in list order.
    ///
    /// The contract follows the behaviors from call to call: `states` holds
    /// what they were before the first call and after each one, and the call
    /// for the entity at position `k` of the list takes them from `states[k]`
    /// to `states[k + 1]` and is handed the body of that entity.
    pub fn render<B: Behaviors>(&self, behaviors: &mut B)
        requires
            self.wf(),
        ensures
            exists|states: Seq<B>|
                #![trigger states.len()]
                {
                    &&& states.len() == self.listed().len() + 1
                    &&& states[0] == *old(behaviors)
                    &&& states.last() == *final(behaviors)
                    &&& forall|k: int|
                        0 <= k < self.listed().len() ==> self.knows(#[trigger] self.listed()[k])
                            && exists|m: &mut B|
                            {
                                &&& mut_ref_current(m) == states[k]
                                &&& mut_ref_future(m) == states[k + 1]
                                &&& #[trigger] call_ensures(
                                    B::render,
                                    (m, &self.body_of(self.listed()[k])),
                                    (),
                                )
                            }
                },
    {
        let ghost mut states: Seq<B> = seq![*behaviors];
        let mut i: usize = 0;
        while i < self.entity_cells.len()
            invariant
                self.wf(),
                i <= self.listed().len(),
                states.len() == i + 1,
                states[0] == *old(behaviors),
                states.last() == *behaviors,
                forall|k: int|
                    0 <= k < i ==> self.knows(#[trigger] self.listed()[k]) && exists|m: &mut B|
                        {
                            &&& mut_ref_current(m) == states[k]
                            &&& mut_ref_future(m) == states[k + 1]
                            &&& #[trigger] call_ensures(
                                B::render,
                                (m, &self.body_of(self.listed()[k])),
                                (),
                            )
                        },
            decreases self.entity_cells.len() - i,
        {
            let id = self.entity_cells[i];
            let ghost before = states;
            behaviors.render(&self.bodies[id - 1]);
            proof {
                states = states.push(*behaviors);
                assert(forall|k: int| 0 <= k <= i ==> #[trigger] before[k] == states[k]);
            }
            i += 1;
        }
    }

    /// Runs the behavior of the entity `id`: the behaviors are handed its
    /// body, the time `dt` and the world as it is, and the body they leave,
    /// under the identifier and the indexing class of the entity, replaces
    /// the body in the arena. Nothing else in the world changes. Returns
    /// whether the world knows `id`; if not, no call is made.
    pub fn advance<B: Behaviors>(&mut self, id: usize, dt: u32, behaviors: &mut B) -> (known: bool)
        requires
            old(self).wf(),
        ensures
            final(self).wf(),
            final(self).same_but_bodies(*old(self)),
            final(self).same_identities(*old(self)),
            known == old(self).knows(id),
            !known ==> final(self).bodies() == old(self).bodies() && *final(behaviors) == *old(
                behaviors,
            ),
            known ==> exists|m: &mut B, r: &mut Body|
                {
                    &&& mut_ref_current(m) == *old(behaviors)
                    &&& mut_ref_future(m) == *final(behaviors)
                    &&& mut_ref_current(r) == old(self).body_of(id)
                    &&& #[trigger] call_ensures(B::update, (m, r, dt, &*old(self)), ())
                    &&& final(self).bodies() == old(self).bodies().update(
                        id - 1,
                        mut_ref_future(r).bound_to(old(self).body_of(id)),
                    )
                },
    {
        if !(1 <= id && id <= self.bodies.len()) {
            return false;
        }
        let mut body = self.bodies[id - 1];
        behaviors.update(&mut body, dt, &*self);
        let bound = body.rebind(&self.bodies[id - 1]);
        self.bodies[id - 1] = bound;
        true
    }

    /// Runs the behavior of every live entity, in list order.
    ///
    /// The contract follows the pass from entity to entity: `worlds` and
    /// `states` hold the world and the behaviors before the first call of
    /// `advance` and after each one, and the call for the entity at
    /// position `k` of the list takes them from `worlds[k]` and `states[k]`
    /// to `worlds[k + 1]` and `states[k + 1]`.
    #[verifier::spinoff_prover]
    pub fn behave<B: Behaviors>(&mut self, dt: u32, behaviors: &mut B)
        requires
            old(self).wf(),
        ensures
            final(self).wf(),
            final(self).same_but_bodies(*old(self)),
            final(self).same_identities(*old(self)),
            exists|worlds: Seq<World>, states: Seq<B>|
                #![trigger worlds.len(), states.len()]
                {
                    &&& worlds.len() == old(self).listed().len() + 1
                    &&& states.len() == old(self).listed().len() + 1
                    &&& worlds[0] == *old(self)
                    &&& worlds.last() == *final(self)
                    &&& states[0] == *old(behaviors)
                    &&& states.last() == *final(behaviors)
                    &&& forall|k: int|
                        0 <= k < old(self).listed().len()
                            ==> old(self).knows(#[trigger] old(self).listed()[k]) && exists|
                            w: &mut World,
                            m: &mut B,
                        |
                            {
                                &&& mut_ref_current(w) == worlds[k]
                                &&& mut_ref_future(w) == worlds[k + 1]
                                &&& mut_ref_current(m) == states[k]
                                &&& mut_ref_future(m) == states[k + 1]
                                &&& #[trigger] call_ensures(
                                    World::advance::<B>,
                                    (w, old(self).listed()[k], dt, m),
                                    true,
                                )
                            }
                },
    {
        let ghost mut worlds: Seq<World> = seq![*self];
        let ghost mut states: Seq<B> = seq![*behaviors];
        let mut i: usize = 0;
        while i < self.entity_cells.len()
            invariant
                self.wf(),
                self.same_but_bodies(*old(self)),
                self.same_identities(*old(self)),
                i <= self.listed().len(),
                worlds.len() == i + 1,
                states.len() == i + 1,
                worlds[0] == *old(self),
                worlds.last() == *self,
                states[0] == *old(behaviors),
                states.last() == *behaviors,
                forall|k: int|
                    0 <= k < i ==> old(self).knows(#[trigger] old(self).listed()[k]) && exists|
                            w: &mut World,
                            m: &mut B,
                        |
                            {
                                &&& mut_ref_current(w) == worlds[k]
                                &&& mut_ref_future(w) == worlds[k + 1]
                                &&& mut_ref_current(m) == states[k]
                                &&& mut_ref_future(m) == states[k + 1]
                                &&& #[trigger] call_ensures(
                                    World::advance::<B>,
                                    (w, old(self).listed()[k], dt, m),
                                    true,
                                )
                            },
            decreases self.entity_cells.len() - i,
        {
            let id = self.entity_cells[i];
            let ghost was_worlds = worlds;
            let ghost was_states = states;
            assert(old(self).knows(old(self).listed()[i as int]));
            self.advance(id, dt, behaviors);
            proof {
                worlds = worlds.push(*self);
                states = states.push(*behaviors);
                assert forall|k: int| 0 <= k < i + 1 implies
                    old(self).knows(#[trigger] old(self).listed()[k]) && exists|
                            w: &mut World,
                            m: &mut B,
                        |
                            {
                                &&& mut_ref_current(w) == worlds[k]
                                &&& mut_ref_future(w) == worlds[k + 1]
                                &&& mut_ref_current(m) == states[k]
                                &&& mut_ref_future(m) == states[k + 1]
                                &&& #[trigger] call_ensures(
                                    World::advance::<B>,
                                    (w, old(self).listed()[k], dt, m),
                                    true,
                                )
                            } by {
                    if k < i {
                        assert(states[k] == was_states[k]);
                        assert(states[k + 1] == was_states[k + 1]);
                        assert(worlds[k] == was_worlds[k]);
                        assert(worlds[k + 1] == was_worlds[k + 1]);
                    } else {
                        assert(worlds[k] == was_worlds[i as int]);
                        assert(states[k] == was_states[i as int]);
                    }
                }
            }
            i += 1;
        }
        assert(exists|worlds: Seq<World>, states: Seq<B>|
                #![trigger worlds.len(), states.len()]
                {
                    &&& worlds.len() == old(self).listed().len() + 1
                    &&& states.len() == old(self).listed().len() + 1
                    &&& worlds[0] == *old(self)
                    &&& worlds.last() == *self
                    &&& states[0] == *old(behaviors)
                    &&& states.last() == *behaviors
                    &&& forall|k: int|
                        0 <= k < old(self).listed().len()
                            ==> old(self).knows(#[trigger] old(self).listed()[k]) && exists|
                            w: &mut World,
                            m: &mut B,
                        |
                            {
                                &&& mut_ref_current(w) == worlds[k]
                                &&& mut_ref_future(w) == worlds[k + 1]
                                &&& mut_ref_current(m) == states[k]
                                &&& mut_ref_future(m) == states[k + 1]
                                &&& #[trigger] call_ensures(
                                    World::advance::<B>,
                                    (w, old(self).listed()[k], dt, m),
                                    true,
                                )
                            }
                });
    }

    /// Tests the entity `id` against the entity `other_id` found near it and,
    /// where their shapes touch, resolves the collision on both bodies and
    /// then tells both entities.
    ///
    /// The contract names the calls in their order. `hit` is what the test
    /// of the two bodies answered. Where it is false, nothing changes. Where
    /// it is true, the first call resolves the body of `id` against that of
    /// `other_id`, the second the body of `other_id` against what the first
    /// left, the third tells `id` and the fourth tells `other_id`, each
    /// handed what the calls before it left; the two bodies that the last two
    /// calls leave, each under the identifier and the indexing class it had,
    /// replace the two in the arena.
    ///
    /// Returns whether the world knows both identifiers and they differ; if
    /// not, no call is made.
    pub fn meet<B: Behaviors>(&mut self, id: usize, other_id: usize, behaviors: &mut B) -> (known:
        bool)
        requires
            old(self).wf(),
        ensures
            final(self).wf(),
            final(self).same_but_bodies(*old(self)),
            final(self).same_identities(*old(self)),
            known == (old(self).knows(id) && old(self).knows(other_id) && id != other_id),
            !known ==> final(self).bodies() == old(self).bodies() && *final(behaviors) == *old(
                behaviors,
            ),
            known ==> exists|hit: bool|
                {
                    &&& #[trigger] call_ensures(
                        B::collide,
                        (&*old(behaviors), &old(self).body_of(id), &old(self).body_of(other_id)),
                        hit,
                    )
                    &&& !hit ==> *final(behaviors) == *old(behaviors) && final(self).bodies() == old(
                        self,
                    ).bodies()
                    &&& hit ==> exists|m1: &mut B, r1: &mut Body|
                        {
                            &&& mut_ref_current(m1) == *old(behaviors)
                            &&& mut_ref_current(r1) == old(self).body_of(id)
                            &&& #[trigger] call_ensures(
                                B::resolve_collision,
                                (m1, r1, &old(self).body_of(other_id)),
                                (),
                            )
                            &&& exists|m2: &mut B, r2: &mut Body|
                                {
                                    &&& mut_ref_current(m2) == mut_ref_future(m1)
                                    &&& mut_ref_current(r2) == old(self).body_of(other_id)
                                    &&& #[trigger] call_ensures(
                                        B::resolve_collision,
                                        (m2, r2, &mut_ref_future(r1)),
                                        (),
                                    )
                                    &&& exists|m3: &mut B, r3: &mut Body|
                                        {
                                            &&& mut_ref_current(m3) == mut_ref_future(m2)
                                            &&& mut_ref_current(r3) == mut_ref_future(r1)
                                            &&& #[trigger] call_ensures(
                                                B::on_collision,
                                                (m3, r3, &mut_ref_future(r2)),
                                                (),
                                            )
                                            &&& exists|m4: &mut B, r4: &mut Body|
                                                {
                                                    &&& mut_ref_current(m4) == mut_ref_future(m3)
                                                    &&& mut_ref_current(r4) == mut_ref_future(r2)
                                                    &&& #[trigger] call_ensures(
                                                        B::on_collision,
                                                        (m4, r4, &mut_ref_future(r3)),
                                                        (),
                                                    )
                                                    &&& mut_ref_future(m4) == *final(behaviors)
                                                    &&& final(self).bodies() == old(
                                                        self,
                                                    ).bodies().update(
                                                        id - 1,
                                                        mut_ref_future(r3).bound_to(
                                                            old(self).body_of(id),
                                                        ),
                                                    ).update(
                                                        other_id - 1,
                                                        mut_ref_future(r4).bound_to(
                                                            old(self).body_of(other_id),
                                                        ),
                                                    )
                                                }
                                        }
                                }
                        }
                },
    {
        if !(1 <= id && id <= self.bodies.len() && 1 <= other_id && other_id <= self.bodies.len()
            && id != other_id) {
            return false;
        }
        let mut body = self.bodies[id - 1];
        let mut other = self.bodies[other_id - 1];
        if behaviors.collide(&body, &other) {
            behaviors.resolve_collision(&mut body, &other);
            behaviors.resolve_collision(&mut other, &body);
            behaviors.on_collision(&mut body, &other);
            behaviors.on_collision(&mut other, &body);
            let bound = body.rebind(&self.bodies[id - 1]);
            self.bodies[id - 1] = bound;
            let bound = other.rebind(&self.bodies[other_id - 1]);
            self.bodies[other_id - 1] = bound;
        }
        true
    }

    /// The turn of the entity `id` in the rebuild of the dynamic index: it
    /// meets what is near it, then it is recorded.
    ///
    /// With the mask and the region that its body has when the turn begins,
    /// the entity looks at what both indexes hold in the cells that the
    /// region covers, in the order of `around`. Each entity found that is
    /// another one, belongs to a category of the mask and overlaps the region
    /// as it is then, is met as `meet` says; the others are passed over.
    /// Last, the entity is recorded in the dynamic index in the cells that
    /// its region covers now.
    ///
    /// The contract follows the turn from one entity found to the next:
    /// `worlds` and `states` hold the world and the behaviors before the
    /// first and after each one.
    ///
    /// Returns whether the world knows `id`; if not, nothing changes.
    #[verifier::spinoff_prover]
    pub fn settle<B: Behaviors>(&mut self, id: usize, behaviors: &mut B) -> (known: bool)
        requires
            old(self).wf(),
        ensures
            final(self).wf(),
            final(self).same_frame(*old(self)),
            final(self).same_identities(*old(self)),
            final(self).listed() == old(self).listed(),
            final(self).static_index() == old(self).static_index(),
            known == old(self).knows(id),
            !known ==> final(self).same_bodies(*old(self)) && *final(behaviors) == *old(behaviors),
            known ==> final(self).dynamic_index().is_insertion(
                old(self).dynamic_index(),
                final(self).body_of(id).location,
                id,
            ),
            known ==> exists|worlds: Seq<World>, states: Seq<B>|
                #![trigger worlds.len(), states.len()]
                {
                    &&& worlds.len() == old(self).around(id).len() + 1
                    &&& states.len() == old(self).around(id).len() + 1
                    &&& worlds[0] == *old(self)
                    &&& states[0] == *old(behaviors)
                    &&& states.last() == *final(behaviors)
                    &&& final(self).bodies() == worlds.last().bodies()
                    &&& final(self).dynamic_index().is_insertion(
                        worlds.last().dynamic_index(),
                        worlds.last().body_of(id).location,
                        id,
                    )
                    &&& forall|k: int|
                        0 <= k < old(self).around(id).len()
                            ==> old(self).knows(#[trigger] old(self).around(id)[k])
                            && if worlds[k].is_tested(
                            id,
                            old(self).around(id)[k],
                            old(self).body_of(id).mask,
                            old(self).body_of(id).location,
                        ) {
                            exists|w: &mut World, m: &mut B|
                                {
                                    &&& mut_ref_current(w) == worlds[k]
                                    &&& mut_ref_future(w) == worlds[k + 1]
                                    &&& mut_ref_current(m) == states[k]
                                    &&& mut_ref_future(m) == states[k + 1]
                                    &&& #[trigger] call_ensures(
                                        World::meet::<B>,
                                        (w, id, old(self).around(id)[k], m),
                                        true,
                                    )
                                }
                        } else {
                            worlds[k + 1] == worlds[k] && states[k + 1] == states[k]
                        }
                },
    {
        if !(1 <= id && id <= self.bodies.len()) {
            return false;
        }
        let location = self.bodies[id - 1].location;
        let mask = self.bodies[id - 1].mask;
        let mut near = self.static_hashmap.get_locally(&location);
        let mut more = self.dynamic_hashmap.get_locally(&location);
        proof {
            self.static_hashmap.lemma_region_within(location, self.bodies().len() as int);
            self.dynamic_hashmap.lemma_region_within(location, self.bodies().len() as int);
        }
        near.append(&mut more);
        let ghost mut worlds: Seq<World> = seq![*self];
        let ghost mut states: Seq<B> = seq![*behaviors];
        let mut i: usize = 0;
        while i < near.len()
            invariant
                self.wf(),
                self.same_frame(*old(self)),
                self.same_identities(*old(self)),
                self.listed() == old(self).listed(),
                self.static_index() == old(self).static_index(),
                self.dynamic_index() == old(self).dynamic_index(),
                old(self).knows(id),
                near@ == old(self).around(id),
                location == old(self).body_of(id).location,
                mask == old(self).body_of(id).mask,
                forall|j: int| 0 <= j < near.len() ==> old(self).knows(#[trigger] near[j]),
                i <= near.len(),
                worlds.len() == i + 1,
                states.len() == i + 1,
                worlds[0] == *old(self),
                worlds.last() == *self,
                states[0] == *old(behaviors),
                states.last() == *behaviors,
                forall|k: int|
                    0 <= k < i
                        ==> old(self).knows(#[trigger] old(self).around(id)[k])
                        && if worlds[k].is_tested(
                            id,
                            old(self).around(id)[k],
                            old(self).body_of(id).mask,
                            old(self).body_of(id).location,
                        ) {
                            exists|w: &mut World, m: &mut B|
                                {
                                    &&& mut_ref_current(w) == worlds[k]
                                    &&& mut_ref_future(w) == worlds[k + 1]
                                    &&& mut_ref_current(m) == states[k]
                                    &&& mut_ref_future(m) == states[k + 1]
                                    &&& #[trigger] call_ensures(
                                        World::meet::<B>,
                                        (w, id, old(self).around(id)[k], m),
                                        true,
                                    )
                                }
                        } else {
                            worlds[k + 1] == worlds[k] && states[k + 1] == states[k]
                        },
            decreases near.len() - i,
        {
            let other_id = near[i];
            let ghost was_worlds = worlds;
            let ghost was_states = states;
            assert(old(self).knows(near[i as int]));
            if other_id != id {
                let other = &self.bodies[other_id - 1];
                if other.matches(mask) && other.in_location(&location) {
                    self.meet(id, other_id, behaviors);
                }
            }
            proof {
                worlds = worlds.push(*self);
                states = states.push(*behaviors);
                assert forall|k: int| 0 <= k < i + 1 implies
                    old(self).knows(#[trigger] old(self).around(id)[k]) && if worlds[k].is_tested(
                            id,
                            old(self).around(id)[k],
                            old(self).body_of(id).mask,
                            old(self).body_of(id).location,
                        ) {
                            exists|w: &mut World, m: &mut B|
                                {
                                    &&& mut_ref_current(w) == worlds[k]
                                    &&& mut_ref_future(w) == worlds[k + 1]
                                    &&& mut_ref_current(m) == states[k]
                                    &&& mut_ref_future(m) == states[k + 1]
                                    &&& #[trigger] call_ensures(
                                        World::meet::<B>,
                                        (w, id, old(self).around(id)[k], m),
                                        true,
                                    )
                                }
                        } else {
                            worlds[k + 1] == worlds[k] && states[k + 1] == states[k]
                        } by {
                    if k < i {
                        assert(states[k] == was_states[k]);
                        assert(states[k + 1] == was_states[k + 1]);
                        assert(worlds[k] == was_worlds[k]);
                        assert(worlds[k + 1] == was_worlds[k + 1]);
                    } else {
                        assert(worlds[k] == was_worlds[i as int]);
                        assert(states[k] == was_states[i as int]);
                        assert(old(self).around(id)[k] == other_id);
                    }
                }
            }
            i += 1;
        }
        self.reindex(id);
        assert(exists|worlds: Seq<World>, states: Seq<B>|
                #![trigger worlds.len(), states.len()]
                {
                    &&& worlds.len() == old(self).around(id).len() + 1
                    &&& states.len() == old(self).around(id).len() + 1
                    &&& worlds[0] == *old(self)
                    &&& states[0] == *old(behaviors)
                    &&& states.last() == *behaviors
                    &&& self.bodies() == worlds.last().bodies()
                    &&& self.dynamic_index().is_insertion(
                        worlds.last().dynamic_index(),
                        worlds.last().body_of(id).location,
                        id,
                    )
                    &&& forall|k: int|
                        0 <= k < old(self).around(id).len()
                            ==> old(self).knows(#[trigger] old(self).around(id)[k])
                            && if worlds[k].is_tested(
                            id,
                            old(self).around(id)[k],
                            old(self).body_of(id).mask,
                            old(self).body_of(id).location,
                        ) {
                            exists|w: &mut World, m: &mut B|
                                {
                                    &&& mut_ref_current(w) == worlds[k]
                                    &&& mut_ref_future(w) == worlds[k + 1]
                                    &&& mut_ref_current(m) == states[k]
                                    &&& mut_ref_future(m) == states[k + 1]
                                    &&& #[trigger] call_ensures(
                                        World::meet::<B>,
                                        (w, id, old(self).around(id)[k], m),
                                        true,
                                    )
                                }
                        } else {
                            worlds[k + 1] == worlds[k] && states[k + 1] == states[k]
                        }
                });
        true
    }

    /// One update of the world by the time `dt`.
    ///
    /// 1. Every live entity behaves, in list order, as `behave` says.
    /// 2. The entities now marked dead leave the list, as `reclaim` says.
    /// 3. The dynamic index is emptied.
    /// 4. Every entity left, in list order, takes its turn as `settle` says:
    ///    it meets what both indexes hold near it, then it is recorded in
    ///    the dynamic index at the place where it is now.
    ///
    /// So an entity meets the static index as it is, and in the dynamic index
    /// only the entities that come before it on the list.
    ///
    /// The contract follows these steps. The first call is that of `behave`
    /// on the old world and behaviors; what it leaves, swept of the dead and
    /// with the dynamic index emptied, is `worlds[0]`. From there `worlds` and
    /// `states` hold the world and the behaviors after the turn of each
    /// entity left, the last being the world and the behaviors that the
    /// update leaves, and `placed` holds for each of them the region under
    /// which its turn recorded it.
    #[verifier::spinoff_prover]
    pub fn update<B: Behaviors>(&mut self, dt: u32, behaviors: &mut B)
        requires
            old(self).wf(),
        ensures
            final(self).wf(),
            final(self).same_frame(*old(self)),
            final(self).same_identities(*old(self)),
            final(self).static_index() == old(self).static_index(),
            forall|id: usize| final(self).is_listed(id) ==> old(self).is_listed(id),
            exists|w: &mut World, m: &mut B|
                {
                    &&& mut_ref_current(w) == *old(self)
                    &&& mut_ref_current(m) == *old(behaviors)
                    &&& #[trigger] call_ensures(World::behave::<B>, (w, dt, m), ())
                    &&& final(self).listed() == mut_ref_future(w).survivors()
                    &&& exists|worlds: Seq<World>, states: Seq<B>, placed: Map<usize, Location>|
                        #![trigger
                            worlds.len(),
                            states.len(),
                            final(self).rebuilt_upto(final(self).listed().len() as int, placed),
                        ]
                        {
                            &&& worlds.len() == final(self).listed().len() + 1
                            &&& states.len() == final(self).listed().len() + 1
                            &&& worlds[0].starts_rebuild(mut_ref_future(w))
                            &&& states[0] == mut_ref_future(m)
                            &&& worlds.last() == *final(self)
                            &&& states.last() == *final(behaviors)
                            &&& final(self).rebuilt_upto(final(self).listed().len() as int, placed)
                            &&& forall|i: int|
                                0 <= i < final(self).listed().len()
                                    ==> final(self).knows(#[trigger] final(self).listed()[i])
                                    && placed.contains_key(final(self).listed()[i])
                                    && placed[final(self).listed()[i]] == worlds[i + 1].body_of(
                                    final(self).listed()[i],
                                ).location && exists|tw: &mut World, tm: &mut B|
                                    {
                                        &&& mut_ref_current(tw) == worlds[i]
                                        &&& mut_ref_future(tw) == worlds[i + 1]
                                        &&& mut_ref_current(tm) == states[i]
                                        &&& mut_ref_future(tm) == states[i + 1]
                                        &&& #[trigger] call_ensures(
                                            World::settle::<B>,
                                            (tw, final(self).listed()[i], tm),
                                            true,
                                        )
                                    }
                        }
                },
    {
        self.behave(dt, behaviors);
        let ghost mid = *self;
        let ghost mid_b = *behaviors;
        self.reclaim();
        proof {
            lemma_swept(mid.listed(), 0, mid.bodies());
            assert forall|id: usize| self.is_listed(id) implies old(self).is_listed(id) by {
                let k = choose|k: int|
                    0 <= k < mid.listed().len() && #[trigger] mid.listed()[k] == id;
                assert(mid.listed()[k] == id);
            }
        }
        self.clear_dynamic();

        let ghost list = self.listed();
        let ghost mut worlds: Seq<World> = seq![*self];
        let ghost mut states: Seq<B> = seq![*behaviors];
        let ghost mut placed: Map<usize, Location> = Map::empty();
        let mut i: usize = 0;
        proof {
            lemma_rebuild_starts(*self, placed);
        }
        while i < self.entity_cells.len()
            invariant
                self.wf(),
                self.same_frame(*old(self)),
                self.same_identities(*old(self)),
                self.static_index() == old(self).static_index(),
                self.listed() == list,
                list == mid.survivors(),
                i <= list.len(),
                self.rebuilt_upto(i as int, placed),
                worlds.len() == i + 1,
                states.len() == i + 1,
                worlds[0].starts_rebuild(mid),
                states[0] == mid_b,
                worlds.last() == *self,
                states.last() == *behaviors,
                forall|k: int|
                    0 <= k < i ==> self.knows(#[trigger] list[k])
                                    && placed.contains_key(list[k])
                                    && placed[list[k]] == worlds[k + 1].body_of(
                                    list[k],
                                ).location && exists|w: &mut World, m: &mut B|
                                    {
                                        &&& mut_ref_current(w) == worlds[k]
                                        &&& mut_ref_future(w) == worlds[k + 1]
                                        &&& mut_ref_current(m) == states[k]
                                        &&& mut_ref_future(m) == states[k + 1]
                                        &&& #[trigger] call_ensures(
                                            World::settle::<B>,
                                            (w, list[k], m),
                                            true,
                                        )
                                    },
            decreases self.entity_cells.len() - i,
        {
            let id = self.entity_cells[i];
            let ghost before = *self;
            let ghost was_worlds = worlds;
            let ghost was_states = states;
            let ghost was_placed = placed;
            assert(self.knows(list[i as int]));
            self.settle(id, behaviors);
            proof {
                let at = self.body_of(id).location;
                lemma_rebuild_step(before, *self, i as int, placed, at);
                placed = placed.insert(id, at);
                worlds = worlds.push(*self);
                states = states.push(*behaviors);
                assert forall|k: int| 0 <= k < i + 1 implies self.knows(#[trigger] list[k])
                                    && placed.contains_key(list[k])
                                    && placed[list[k]] == worlds[k + 1].body_of(
                                    list[k],
                                ).location && exists|w: &mut World, m: &mut B|
                                    {
                                        &&& mut_ref_current(w) == worlds[k]
                                        &&& mut_ref_future(w) == worlds[k + 1]
                                        &&& mut_ref_current(m) == states[k]
                                        &&& mut_ref_future(m) == states[k + 1]
                                        &&& #[trigger] call_ensures(
                                            World::settle::<B>,
                                            (w, list[k], m),
                                            true,
                                        )
                                    } by {
                    assert(before.knows(list[k]));
                    if k < i {
                        assert(list[k] != list[i as int]);
                        assert(was_placed.contains_key(list[k]));
                        assert(states[k] == was_states[k]);
                        assert(states[k + 1] == was_states[k + 1]);
                        assert(worlds[k] == was_worlds[k]);
                        assert(worlds[k + 1] == was_worlds[k + 1]);
                    } else {
                        assert(worlds[k] == was_worlds[i as int]);
                        assert(states[k] == was_states[i as int]);
                    }
                }
            }
            i += 1;
        }
        assert(exists|worlds: Seq<World>, states: Seq<B>, placed: Map<usize, Location>|
                        #![trigger
                            worlds.len(),
                            states.len(),
                            self.rebuilt_upto(list.len() as int, placed),
                        ]
                        {
                            &&& worlds.len() == list.len() + 1
                            &&& states.len() == list.len() + 1
                            &&& worlds[0].starts_rebuild(mid)
                            &&& states[0] == mid_b
                            &&& worlds.last() == *self
                            &&& states.last() == *behaviors
                            &&& self.rebuilt_upto(list.len() as int, placed)
                            &&& forall|i: int|
                                0 <= i < list.len() ==> self.knows(#[trigger] list[i])
                                    && placed.contains_key(list[i])
                                    && placed[list[i]] == worlds[i + 1].body_of(
                                    list[i],
                                ).location && exists|w: &mut World, m: &mut B|
                                    {
                                        &&& mut_ref_current(w) == worlds[i]
                                        &&& mut_ref_future(w) == worlds[i + 1]
                                        &&& mut_ref_current(m) == states[i]
                                        &&& mut_ref_future(m) == states[i + 1]
                                        &&& #[trigger] call_ensures(
                                            World::settle::<B>,
                                            (w, list[i], m),
                                            true,
                                        )
                                    }
                        });
    }
}

/// The rebuild starts from the empty dynamic index.
pub proof fn lemma_rebuild_starts(world: World, placed: Map<usize, Location>)
    requires
        world.dynamic_index().is_empty(),
    ensures
        world.rebuilt_upto(0, placed),
{
    assert forall|x: int, y: int| #[trigger]
        world.dynamic_index().bucket(x, y) == world.listed().take(0).filter(
            world.recorded_in(placed, x, y),
        ) by {
        world.listed().take(0).lemma_filter_len(world.recorded_in(placed, x, y));
        assert(world.listed().take(0).filter(world.recorded_in(placed, x, y)) =~= Seq::<
            usize,
        >::empty());
    }
}

/// Recording the next entity on the list under the region `at` takes the
/// rebuild one step on.
pub proof fn lemma_rebuild_step(
    before: World,
    after: World,
    upto: int,
    placed: Map<usize, Location>,
    at: Location,
)
    requires
        before.listed().no_duplicates(),
        0 <= upto < before.listed().len(),
        before.rebuilt_upto(upto, placed),
        after.spec_unit() == before.spec_unit(),
        after.listed() == before.listed(),
        before.dynamic_index().spec_unit() == before.spec_unit(),
        after.dynamic_index().is_insertion(before.dynamic_index(), at, before.listed()[upto]),
    ensures
        after.rebuilt_upto(upto + 1, placed.insert(before.listed()[upto], at)),
{
    let list = before.listed();
    let id = list[upto];
    let more = placed.insert(id, at);
    assert forall|x: int, y: int| #[trigger]
        after.dynamic_index().bucket(x, y) == list.take(upto + 1).filter(
            after.recorded_in(more, x, y),
        ) by {
        let was = before.recorded_in(placed, x, y);
        let now = after.recorded_in(more, x, y);
        assert(list.take(upto + 1) =~= list.take(upto).push(id));
        list.take(upto).lemma_filter_push(id, now);
        assert forall|k: int| 0 <= k < list.take(upto).len() implies was(
            #[trigger] list.take(upto)[k],
        ) == now(list.take(upto)[k]) by {
            assert(list[k] != list[upto]);
        }
        lemma_filter_agree(list.take(upto), was, now);
        assert(before.dynamic_index().bucket(x, y) == list.take(upto).filter(was));
    }
}

} // verus!
