//! Ray casting: the bodies that a ray hits, cell by cell along its traversal
//! of the grid, nearest first within each cell.
//!
//! Where the line of the ray cuts each body is not computed here: the caller
//! hands in a table of cuts, one entry for each identifier, `None` where the
//! line misses the body.

use vstd::prelude::*;
use std::collections::HashSet;
use crate::body::{Body, Flags};
use crate::ray::{Intersection, Ray, RayHit};
use crate::sort::{sort_by_near, sorted_by_near};
use crate::traversal::{grid_raycast, traversal};
use crate::world::World;

verus! {

/// Why a query gave no answer.
#[derive(Clone, Copy, Debug, PartialEq, Eq, Structural)]
pub enum QueryError {
    /// The world does not offer this kind of query.
    Unsupported,
}

/// The entry for the body `id` in a table of cuts; `None` past its end.
pub open spec fn cut_of(cuts: Seq<Option<Intersection>>, id: usize) -> Option<Intersection> {
    if 1 <= id <= cuts.len() {
        cuts[id - 1]
    } else {
        None
    }
}

/// The hit on the body `id` as seen from the column of cells `cell_x`, if
/// its cut reaches into the part of the ray in that column.
pub open spec fn hit_in_cell(
    ray: Ray,
    unit: int,
    cell_x: int,
    id: usize,
    cuts: Seq<Option<Intersection>>,
) -> Option<RayHit> {
    match cut_of(cuts, id) {
        Some(cut) => match cut.seen_from(
            ray,
            ray.segment_start(cell_x, unit),
            ray.segment_end(cell_x, unit),
        ) {
            Some((near, far)) => Some(RayHit { id, near: near as i64, far: far as i64 }),
            None => None,
        },
        None => None,
    }
}

/// The hits among `candidates`, examined from the last to the first.
pub open spec fn found_hits(
    ray: Ray,
    unit: int,
    cell_x: int,
    candidates: Seq<usize>,
    cuts: Seq<Option<Intersection>>,
) -> Seq<RayHit>
    decreases candidates.len(),
{
    if candidates.len() == 0 {
        Seq::empty()
    } else {
        let rest = found_hits(ray, unit, cell_x, candidates.drop_last(), cuts);
        match hit_in_cell(ray, unit, cell_x, candidates.last(), cuts) {
            Some(hit) => seq![hit] + rest,
            None => rest,
        }
    }
}

/// The identifiers of the bodies hit.
pub open spec fn hit_ids(hits: Seq<RayHit>) -> Set<usize> {
    Set::new(|id: usize| exists|k: int| 0 <= k < hits.len() && (#[trigger] hits[k]).id == id)
}

/// `callback` was called on each of the first `upto` hits and answered
/// `false`, which asks for more.
pub open spec fn refused<F: FnMut(&Body, i64, i64) -> bool>(
    world: &World,
    callback: F,
    hits: Seq<RayHit>,
    upto: int,
) -> bool {
    forall|j: int|
        0 <= j < upto ==> call_ensures(
            callback,
            (&world.body_of((#[trigger] hits[j]).id), hits[j].near, hits[j].far),
            false,
        )
}

/// How a ray cast over `hits` ended: either `callback` answered `true` on
/// the hit `stopped`, after refusing every hit before it, or it refused them
/// all.
pub open spec fn ended_with<F: FnMut(&Body, i64, i64) -> bool>(
    world: &World,
    callback: F,
    hits: Seq<RayHit>,
    stopped: Option<RayHit>,
) -> bool {
    match stopped {
        Some(hit) => exists|n: int|
            {
                &&& 0 <= n < hits.len()
                &&& #[trigger] hits[n] == hit
                &&& refused(world, callback, hits, n)
                &&& call_ensures(callback, (&world.body_of(hit.id), hit.near, hit.far), true)
            },
        None => refused(world, callback, hits, hits.len() as int),
    }
}

proof fn lemma_hit_ids_push(hits: Seq<RayHit>, hit: RayHit)
    ensures
        hit_ids(hits.push(hit)) == hit_ids(hits).insert(hit.id),
{
    let more = hits.push(hit);
    assert forall|id: usize| hit_ids(more).contains(id) <==> hit_ids(hits).insert(
        hit.id,
    ).contains(id) by {
        if hit_ids(more).contains(id) {
            let k = choose|k: int| 0 <= k < more.len() && (#[trigger] more[k]).id == id;
            if k < hits.len() {
                assert(hits[k].id == id);
            }
        }
        if hit_ids(hits).contains(id) {
            let k = choose|k: int| 0 <= k < hits.len() && (#[trigger] hits[k]).id == id;
            assert(more[k].id == id);
        }
        if id == hit.id {
            assert(more[hits.len() as int].id == id);
        }
    }
    assert(hit_ids(more) =~= hit_ids(hits).insert(hit.id));
}

impl World {
    /// The test a ray applies to what a cell holds: the body belongs to a
    /// category of `mask` and was not hit before.
    pub open spec fn ray_selects(&self, mask: Flags, seen: Set<usize>) -> spec_fn(usize) -> bool {
        |id: usize| self.body_of(id).in_group(mask) && !seen.contains(id)
    }

    /// The bodies that a ray examines in the cell `(x, y)`: what both indexes
    /// hold there, the static index first, narrowed to the categories of
    /// `mask` and to the bodies not in `seen`.
    pub open spec fn ray_candidates(&self, mask: Flags, x: int, y: int, seen: Set<usize>) -> Seq<
        usize,
    > {
        (self.static_index().bucket(x, y) + self.dynamic_index().bucket(x, y)).filter(
            self.ray_selects(mask, seen),
        )
    }

    /// The hits found in `cell`, in the order in which they are found.
    pub open spec fn cell_found(
        &self,
        mask: Flags,
        ray: Ray,
        cell: (i32, i32),
        seen: Set<usize>,
        cuts: Seq<Option<Intersection>>,
    ) -> Seq<RayHit> {
        found_hits(
            ray,
            self.spec_unit(),
            cell.0 as int,
            self.ray_candidates(mask, cell.0 as int, cell.1 as int, seen),
            cuts,
        )
    }

    /// The hits of a ray on its way through `cells[from..]`, given the bodies
    /// it hit before: cell after cell, those found in one cell sorted by near
    /// distance, and every body hit in a cell left out of the cells behind it.
    pub open spec fn hits_from(
        &self,
        mask: Flags,
        ray: Ray,
        cells: Seq<(i32, i32)>,
        from: int,
        seen: Set<usize>,
        cuts: Seq<Option<Intersection>>,
    ) -> Seq<RayHit>
        decreases cells.len() - from,
    {
        if from < 0 || from >= cells.len() {
            Seq::empty()
        } else {
            let found = self.cell_found(mask, ray, cells[from], seen, cuts);
            sorted_by_near(found) + self.hits_from(
                mask,
                ray,
                cells,
                from + 1,
                seen.union(hit_ids(found)),
                cuts,
            )
        }
    }

    /// All the hits of a ray, in the order in which a ray cast reports them.
    pub open spec fn hits_along(&self, mask: Flags, ray: Ray, cuts: Seq<Option<Intersection>>) -> Seq<
        RayHit,
    > {
        self.hits_from(mask, ray, traversal(ray, self.spec_unit()), 0, Set::empty(), cuts)
    }

    /// Every hit found in a cell is on a body that the world knows.
    pub proof fn lemma_found_known(
        &self,
        ray: Ray,
        cell_x: int,
        candidates: Seq<usize>,
        cuts: Seq<Option<Intersection>>,
    )
        requires
            forall|i: int| 0 <= i < candidates.len() ==> self.knows(#[trigger] candidates[i]),
        ensures
            forall|k: int|
                0 <= k < found_hits(ray, self.spec_unit(), cell_x, candidates, cuts).len()
                    ==> self.knows(
                    (#[trigger] found_hits(ray, self.spec_unit(), cell_x, candidates, cuts)[k]).id,
                ),
        decreases candidates.len(),
    {
        if candidates.len() > 0 {
            self.lemma_found_known(ray, cell_x, candidates.drop_last(), cuts);
            let all = found_hits(ray, self.spec_unit(), cell_x, candidates, cuts);
            let rest = found_hits(ray, self.spec_unit(), cell_x, candidates.drop_last(), cuts);
            assert forall|k: int| 0 <= k < all.len() implies self.knows((#[trigger] all[k]).id) by {
                match hit_in_cell(ray, self.spec_unit(), cell_x, candidates.last(), cuts) {
                    Some(hit) => {
                        if k == 0 {
                            assert(hit.id == candidates[candidates.len() - 1]);
                        } else {
                            assert(all[k] == rest[k - 1]);
                        }
                    },
                    None => {},
                }
            }
        }
    }

    fn cell_hits(
        &self,
        mask: Flags,
        ray: &Ray,
        cell: (i32, i32),
        visited: &mut HashSet<usize>,
        cuts: &Vec<Option<Intersection>>,
    ) -> (hits: Vec<RayHit>)
        requires
            self.wf(),
        ensures
            hits@ == sorted_by_near(self.cell_found(mask, *ray, cell, old(visited)@, cuts@)),
            final(visited)@ == old(visited)@.union(
                hit_ids(self.cell_found(mask, *ray, cell, old(visited)@, cuts@)),
            ),
            forall|k: int| 0 <= k < hits.len() ==> self.knows((#[trigger] hits[k]).id),
    {
        broadcast use vstd::std_specs::hash::group_hash_axioms;

        let (start, end) = ray.segment(cell.0, self.unit);
        let mut held = self.static_hashmap.get_at(cell.0, cell.1);
        let mut more = self.dynamic_hashmap.get_at(cell.0, cell.1);
        held.append(&mut more);

        let ghost seen = visited@;
        let ghost test = self.ray_selects(mask, seen);
        let mut candidates: Vec<usize> = Vec::new();
        let mut i: usize = 0;
        while i < held.len()
            invariant
                i <= held.len(),
                self.wf(),
                visited@ == seen,
                test == self.ray_selects(mask, seen),
                held@ == self.static_index().bucket(cell.0 as int, cell.1 as int)
                    + self.dynamic_index().bucket(cell.0 as int, cell.1 as int),
                candidates@ == held@.take(i as int).filter(test),
                forall|j: int| 0 <= j < candidates.len() ==> self.knows(#[trigger] candidates[j]),
            decreases held.len() - i,
        {
            let id = held[i];
            proof {
                held@.take(i as int).lemma_filter_push(id, test);
                assert(held@.take(i + 1) == held@.take(i as int).push(id));
                if i < self.static_index().bucket(cell.0 as int, cell.1 as int).len() {
                    assert(id == self.static_index().bucket(cell.0 as int, cell.1 as int)[i as int]);
                } else {
                    assert(id == self.dynamic_index().bucket(cell.0 as int, cell.1 as int)[i
                        - self.static_index().bucket(cell.0 as int, cell.1 as int).len()]);
                }
                assert(self.knows(id));
            }
            if self.bodies[id - 1].matches(mask) && !visited.contains(&id) {
                candidates.push(id);
            }
            i += 1;
        }
        assert(held@.take(held.len() as int) == held@);
        assert(candidates@ == self.ray_candidates(mask, cell.0 as int, cell.1 as int, seen));

        let ghost all = found_hits(*ray, self.spec_unit(), cell.0 as int, candidates@, cuts@);
        let mut found: Vec<RayHit> = Vec::new();
        let mut k: usize = candidates.len();
        assert(candidates@.take(k as int) == candidates@);
        assert(found@ + all =~= all);
        assert(seen.union(hit_ids(found@)) =~= seen);
        while k > 0
            invariant
                k <= candidates.len(),
                start == ray.segment_start(cell.0 as int, self.spec_unit()),
                end == ray.segment_end(cell.0 as int, self.spec_unit()),
                found@ + found_hits(
                    *ray,
                    self.spec_unit(),
                    cell.0 as int,
                    candidates@.take(k as int),
                    cuts@,
                ) == all,
                visited@ == seen.union(hit_ids(found@)),
            decreases k,
        {
            k -= 1;
            let id = candidates[k];
            let ghost before = found@;
            let ghost rest = found_hits(
                *ray,
                self.spec_unit(),
                cell.0 as int,
                candidates@.take(k as int),
                cuts@,
            );
            assert(candidates@.take(k + 1).drop_last() == candidates@.take(k as int));
            assert(candidates@.take(k + 1).last() == id);
            let cut = if 1 <= id && id <= cuts.len() {
                cuts[id - 1]
            } else {
                None
            };
            assert(cut == cut_of(cuts@, id));
            if let Some(cut) = cut {
                if let Some((near, far)) = cut.classify(ray, start, end) {
                    let hit = RayHit { id, near, far };
                    visited.insert(id);
                    found.push(hit);
                    proof {
                        lemma_hit_ids_push(before, hit);
                        assert(visited@ =~= seen.union(hit_ids(found@)));
                        assert(found@ + rest =~= before + (seq![hit] + rest));
                    }
                }
            }
        }
        proof {
            assert(candidates@.take(0) =~= Seq::<usize>::empty());
            assert(found@ =~= all);
            self.lemma_found_known(*ray, cell.0 as int, candidates@, cuts@);
            crate::sort::lemma_sorted_by_near(found@);
        }
        let hits = sort_by_near(found);
        proof {
            broadcast use vstd::seq_lib::group_to_multiset_ensures;

            assert forall|k: int| 0 <= k < hits.len() implies self.knows((#[trigger] hits[k]).id) by {
                assert(hits@.to_multiset().count(hits[k]) > 0);
                assert(all.to_multiset().count(hits[k]) > 0);
                assert(all.contains(hits[k]));
            }
        }
        hits
    }

    /// Lists every body that the ray hits, in the order in which a ray cast
    /// reports them.
    ///
    /// `cuts[id - 1]` says where the line of the ray cuts the body `id`; a
    /// body without an entry counts as missed.
    pub fn ray_hits(&self, mask: Flags, ray: &Ray, cuts: &Vec<Option<Intersection>>) -> (hits: Vec<
        RayHit,
    >)
        requires
            self.wf(),
        ensures
            hits@ == self.hits_along(mask, *ray, cuts@),
            forall|k: int| 0 <= k < hits.len() ==> self.knows((#[trigger] hits[k]).id),
    {
        let cells = grid_raycast(ray, self.unit);
        let mut visited: HashSet<usize> = HashSet::new();
        let mut hits: Vec<RayHit> = Vec::new();
        let mut i: usize = 0;
        assert(hits@ + self.hits_along(mask, *ray, cuts@) =~= self.hits_along(mask, *ray, cuts@));
        while i < cells.len()
            invariant
                i <= cells.len(),
                self.wf(),
                cells@ == traversal(*ray, self.spec_unit()),
                hits@ + self.hits_from(mask, *ray, cells@, i as int, visited@, cuts@)
                    == self.hits_along(mask, *ray, cuts@),
                forall|k: int| 0 <= k < hits.len() ==> self.knows((#[trigger] hits[k]).id),
            decreases cells.len() - i,
        {
            let ghost before = hits@;
            let ghost seen = visited@;
            let mut batch = self.cell_hits(mask, ray, cells[i], &mut visited, cuts);
            let ghost sorted = batch@;
            hits.append(&mut batch);
            assert(hits@ + self.hits_from(mask, *ray, cells@, i + 1, visited@, cuts@) =~= before + (
            sorted + self.hits_from(mask, *ray, cells@, i + 1, visited@, cuts@)));
            i += 1;
        }
        assert(hits@ + Seq::<RayHit>::empty() =~= hits@);
        hits
    }

    /// Casts a ray and reports the bodies it hits to `callback`, each with
    /// its near and far distance, until `callback` answers `true` or the ray
    /// has crossed its last cell. Returns the hit at which the callback
    /// stopped the cast, if it did.
    ///
    /// The cells are taken in the order of the traversal; the bodies found in
    /// one cell are reported nearest first; a body that was hit is not
    /// examined again in a later cell. `cuts[id - 1]` says where the line of
    /// the ray cuts the body `id`; a body without an entry counts as missed.
    ///
    /// The callback sees the bodies and cannot change them. To change an
    /// entity that was hit, take its identifier from the body and hand the
    /// new state to `set_body` once the cast has returned.
    pub fn raycast<F: FnMut(&Body, i64, i64) -> bool>(
        &self,
        mask: Flags,
        ray: &Ray,
        cuts: &Vec<Option<Intersection>>,
        callback: &mut F,
    ) -> (stopped: Option<RayHit>)
        requires
            self.wf(),
            forall|k: int|
                #![trigger self.hits_along(mask, *ray, cuts@)[k]]
                0 <= k < self.hits_along(mask, *ray, cuts@).len() ==> call_requires(
                    *old(callback),
                    (
                        &self.body_of(self.hits_along(mask, *ray, cuts@)[k].id),
                        self.hits_along(mask, *ray, cuts@)[k].near,
                        self.hits_along(mask, *ray, cuts@)[k].far,
                    ),
                ),
        ensures
            ended_with(self, *old(callback), self.hits_along(mask, *ray, cuts@), stopped),
    {
        let ghost total = self.hits_along(mask, *ray, cuts@);
        let ghost mut done: Seq<RayHit> = Seq::empty();
        let cells = grid_raycast(ray, self.unit);
        let mut visited: HashSet<usize> = HashSet::new();
        let mut i: usize = 0;
        assert(done + total =~= total);
        while i < cells.len()
            invariant
                i <= cells.len(),
                self.wf(),
                *callback == *old(callback),
                total == self.hits_along(mask, *ray, cuts@),
                cells@ == traversal(*ray, self.spec_unit()),
                done + self.hits_from(mask, *ray, cells@, i as int, visited@, cuts@) == total,
                refused(self, *old(callback), total, done.len() as int),
                forall|k: int|
                    #![trigger total[k]]
                    0 <= k < total.len() ==> call_requires(
                        *old(callback),
                        (&self.body_of(total[k].id), total[k].near, total[k].far),
                    ),
            decreases cells.len() - i,
        {
            let ghost seen = visited@;
            let batch = self.cell_hits(mask, ray, cells[i], &mut visited, cuts);
            let ghost rest = self.hits_from(mask, *ray, cells@, i + 1, visited@, cuts@);
            assert(total == done + (batch@ + rest));
            let mut k: usize = 0;
            while k < batch.len()
                invariant
                    k <= batch.len(),
                    self.wf(),
                    *callback == *old(callback),
                    total == self.hits_along(mask, *ray, cuts@),
                    total == done + (batch@ + rest),
                    refused(self, *old(callback), total, done.len() + k),
                    forall|j: int| 0 <= j < batch.len() ==> self.knows((#[trigger] batch[j]).id),
                    forall|k: int|
                        #![trigger total[k]]
                        0 <= k < total.len() ==> call_requires(
                            *old(callback),
                            (&self.body_of(total[k].id), total[k].near, total[k].far),
                        ),
                decreases batch.len() - k,
            {
                let hit = batch[k];
                assert(total[done.len() + k] == hit);
                assert(self.knows(hit.id));
                let stop = callback(&self.bodies[hit.id - 1], hit.near, hit.far);
                if stop {
                    proof {
                        let n = done.len() + k;
                        assert(0 <= n < total.len());
                        assert(total[n] == hit);
                        assert(refused(self, *old(callback), total, n));
                        assert(call_ensures(
                            *old(callback),
                            (&self.body_of(hit.id), hit.near, hit.far),
                            true,
                        ));
                        assert(ended_with(self, *old(callback), total, Some(hit)));
                    }
                    return Some(hit);
                }
                k += 1;
            }
            proof {
                done = done + batch@;
                assert(done + rest =~= total);
            }
            i += 1;
        }
        assert(done + Seq::<RayHit>::empty() =~= done);
        None
    }

    /// Queries along a segment are not offered. The call fails on every
    /// input: it returns the error `QueryError::Unsupported`, never an answer
    /// that could be taken for "nothing found", and it never calls
    /// `callback`.
    ///
    /// No function of this library panics, so the failure comes as a value.
    /// It says that the program asked for what does not exist; a caller has
    /// nothing to recover and should stop on it.
    pub fn get_on_segment<F: FnMut(&Body, i64, i64) -> bool>(
        &self,
        _mask: Flags,
        _ray: &Ray,
        _callback: &mut F,
    ) -> (outcome: Result<(), QueryError>)
        ensures
            outcome == Err::<(), QueryError>(QueryError::Unsupported),
    {
        Err(QueryError::Unsupported)
    }
}

} // verus!
