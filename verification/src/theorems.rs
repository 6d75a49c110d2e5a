//! What holds of the world across several operations.

use vstd::prelude::*;
use crate::body::{Body, Flags, PhysicType};
use crate::counting::{
    lemma_times_add, lemma_times_filter, lemma_times_prefix, lemma_times_zero, times,
};
use crate::location::Location;
use crate::ray::{Intersection, Ray, RayHit};
use crate::raycast::{ended_with, found_hits, hit_ids, hit_in_cell, refused};
use crate::sort::{ascending, lemma_sorted_by_near, sorted_by_near};
use crate::update::lemma_swept;
use crate::world::World;

verus! {

/// The first entity that enters a new world gets the identifier `1`.
pub proof fn theorem_first_id(fresh: World, after: World, body: Body, walls: Seq<[i32; 2]>)
    requires
        fresh.wf(),
        fresh.bodies().len() == 0,
        after.holds_new(fresh, body, walls),
        body.id == fresh.spec_next_id(),
    ensures
        body.id == 1,
{
}

/// Of two entities that enter one world, the later one gets the greater
/// identifier, whatever happens in between: no operation lowers the
/// identifier counter.
pub proof fn theorem_ids_increase(
    before: World,
    first: World,
    later: World,
    second: World,
    a: Body,
    b: Body,
    walls_a: Seq<[i32; 2]>,
    walls_b: Seq<[i32; 2]>,
)
    requires
        a.id == before.spec_next_id(),
        first.holds_new(before, a, walls_a),
        later.spec_next_id() >= first.spec_next_id(),
        b.id == later.spec_next_id(),
        second.holds_new(later, b, walls_b),
    ensures
        a.id < b.id,
        later.spec_next_id() == first.spec_next_id() ==> b.id == a.id + 1,
{
}

/// No identifier is held by two bodies, nor listed twice, and an identifier
/// that the world has yet to assign is held by none.
pub proof fn theorem_ids_unique(world: World)
    requires
        world.wf(),
    ensures
        forall|i: int, j: int|
            0 <= i < j < world.bodies().len() ==> (#[trigger] world.bodies()[i]).id != (
            #[trigger] world.bodies()[j]).id,
        forall|i: int, j: int|
            0 <= i < j < world.listed().len() ==> #[trigger] world.listed()[i]
                != #[trigger] world.listed()[j],
        forall|i: int|
            0 <= i < world.bodies().len() ==> 1 <= (#[trigger] world.bodies()[i]).id
                < world.spec_next_id(),
        forall|id: usize| world.knows(id) ==> world.body_of(id).id == id,
{
}

/// An entity that has just entered the world is found by every query that
/// its categories and its place answer to: by its group, in each cell that
/// its region covers, and around every region that overlaps its own.
pub proof fn theorem_found_after_insert(
    before: World,
    after: World,
    body: Body,
    walls: Seq<[i32; 2]>,
    mask: Flags,
)
    requires
        before.wf(),
        body.id == before.spec_next_id(),
        after.holds_new(before, body, walls),
        body.in_group(mask),
    ensures
        after.on_group(mask).contains(body.id),
        forall|x: int, y: int|
            body.location.covers(after.spec_unit(), x, y) ==> #[trigger] after.on_index(
                mask,
                x,
                y,
            ).contains(body.id),
        forall|loc: Location|
            body.location.is_valid() && loc.is_valid() && body.location.overlaps(loc)
                ==> #[trigger] after.locally(mask, loc).contains(body.id),
{
    let id = body.id;
    let n = before.bodies().len() as int;
    assert(after.bodies()[n] == body);
    assert(after.body_of(id) == body);
    // by group
    let last = before.listed().len() as int;
    assert(after.listed()[last] == id);
    after.listed().lemma_filter_contains(after.selects(mask, None), last);
    // in each covered cell
    assert forall|x: int, y: int| body.location.covers(after.spec_unit(), x, y) implies #[trigger] after.on_index(
        mask,
        x,
        y,
    ).contains(id) by {
        lemma_held_after_insert(before, after, body, walls, x, y);
        let held = after.static_index().bucket(x, y) + after.dynamic_index().bucket(x, y);
        let k = choose|k: int| 0 <= k < held.len() && held[k] == id;
        held.lemma_filter_contains(after.selects(mask, None), k);
    }
    // around each overlapping region
    assert forall|loc: Location|
        body.location.is_valid() && loc.is_valid() && body.location.overlaps(
            loc,
        ) implies #[trigger] after.locally(mask, loc).contains(id) by {
        let unit = after.spec_unit();
        let cell = body.location.lemma_overlap_shares_cell(loc, unit);
        lemma_held_after_insert(before, after, body, walls, cell.0, cell.1);
        let near = after.static_index().region(loc) + after.dynamic_index().region(loc);
        after.static_index().lemma_region_members(loc, id);
        after.dynamic_index().lemma_region_members(loc, id);
        if after.static_index().bucket(cell.0, cell.1).contains(id) {
            assert(after.static_index().region(loc).contains(id));
            let k = choose|k: int|
                0 <= k < after.static_index().region(loc).len() && after.static_index().region(
                    loc,
                )[k] == id;
            assert(near[k] == id);
        } else {
            assert(after.dynamic_index().bucket(cell.0, cell.1).contains(id));
            assert(after.dynamic_index().region(loc).contains(id));
            let k = choose|k: int|
                0 <= k < after.dynamic_index().region(loc).len() && after.dynamic_index().region(
                    loc,
                )[k] == id;
            assert(near[after.static_index().region(loc).len() + k] == id);
        }
        let k = choose|k: int| 0 <= k < near.len() && near[k] == id;
        near.lemma_filter_contains(after.selects(mask, Some(loc)), k);
    }
}

/// After an insertion, one of the two indexes holds the new entity in each
/// cell that its region covers.
proof fn lemma_held_after_insert(
    before: World,
    after: World,
    body: Body,
    walls: Seq<[i32; 2]>,
    x: int,
    y: int,
)
    requires
        before.wf(),
        after.holds_new(before, body, walls),
        body.location.covers(after.spec_unit(), x, y),
    ensures
        after.static_index().bucket(x, y).contains(body.id) || after.dynamic_index().bucket(
            x,
            y,
        ).contains(body.id),
        (after.static_index().bucket(x, y) + after.dynamic_index().bucket(x, y)).contains(body.id),
{
    let first = after.static_index().bucket(x, y);
    let second = after.dynamic_index().bucket(x, y);
    if body.physic_type == PhysicType::Static {
        let was = before.static_index().bucket(x, y);
        assert(first == was.push(body.id));
        assert(first[was.len() as int] == body.id);
        assert((first + second)[was.len() as int] == body.id);
    } else {
        let was = before.dynamic_index().bucket(x, y);
        assert(second == was.push(body.id));
        assert(second[was.len() as int] == body.id);
        assert((first + second)[(first.len() + was.len()) as int] == body.id);
    }
}

/// Reclamation drops exactly the dead: an entity stays on the list if and
/// only if it was on it and its body is not marked dead.
pub proof fn theorem_dead_reclaimed(world: World)
    requires
        world.wf(),
    ensures
        world.survivors().no_duplicates(),
        forall|id: usize|
            #[trigger] world.survivors().contains(id) <==> world.is_listed(id) && !world.body_of(
                id,
            ).dead,
{
    lemma_swept(world.listed(), 0, world.bodies());
    assert forall|id: usize| #[trigger]
        world.survivors().contains(id) <==> world.is_listed(id) && !world.body_of(id).dead by {
        if world.survivors().contains(id) {
            let k = choose|k: int|
                0 <= k < world.listed().len() && #[trigger] world.listed()[k] == id && (k < 0
                    || !world.bodies()[id - 1].dead);
            assert(world.listed().contains(id));
        }
        if world.is_listed(id) && !world.body_of(id).dead {
            let k = choose|k: int| 0 <= k < world.listed().len() && world.listed()[k] == id;
            assert(world.listed()[k] == id);
        }
    }
}

/// While the dynamic index is rebuilt, a query meets only entities that are
/// on the list or that the static index holds. So an entity that was
/// reclaimed, and that the static index does not hold, is met by nobody.
pub proof fn theorem_met_are_live(
    world: World,
    upto: int,
    placed: Map<usize, Location>,
    mask: Flags,
    loc: Location,
    id: usize,
)
    requires
        world.wf(),
        0 <= upto <= world.listed().len(),
        world.rebuilt_upto(upto, placed),
        world.locally(mask, loc).contains(id),
    ensures
        world.is_listed(id) || exists|x: int, y: int| #[trigger]
            world.static_index().bucket(x, y).contains(id),
{
    let near = world.static_index().region(loc) + world.dynamic_index().region(loc);
    near.lemma_filter_contains_rev(world.selects(mask, Some(loc)), id);
    let k = choose|k: int| 0 <= k < near.len() && near[k] == id;
    if k < world.static_index().region(loc).len() {
        assert(world.static_index().region(loc)[k] == id);
        assert(world.static_index().region(loc).contains(id));
        world.static_index().lemma_region_members(loc, id);
    } else {
        assert(world.dynamic_index().region(loc)[k - world.static_index().region(loc).len()]
            == id);
        assert(world.dynamic_index().region(loc).contains(id));
        world.dynamic_index().lemma_region_members(loc, id);
        let (x, y) = choose|x: int, y: int|
            loc.covers(world.dynamic_index().spec_unit(), x, y)
                && #[trigger] world.dynamic_index().bucket(x, y).contains(id);
        let seen = world.listed().take(upto);
        assert(world.dynamic_index().bucket(x, y) == seen.filter(
            world.recorded_in(placed, x, y),
        ));
        seen.lemma_filter_contains_rev(world.recorded_in(placed, x, y), id);
        let j = choose|j: int| 0 <= j < seen.len() && seen[j] == id;
        assert(world.listed()[j] == id);
    }
}

/// While the dynamic index is rebuilt, no query meets a dynamic entity that
/// is yet to be recorded: the query of an entity does not meet a dynamic
/// entity that comes behind it on the list, nor the entity itself.
pub proof fn theorem_earlier_misses_later(
    world: World,
    i: int,
    j: int,
    placed: Map<usize, Location>,
)
    requires
        world.wf(),
        0 <= i <= j < world.listed().len(),
        world.rebuilt_upto(i, placed),
        world.body_of(world.listed()[j]).physic_type != PhysicType::Static,
    ensures
        forall|mask: Flags, loc: Location|
            !(#[trigger] world.locally(mask, loc)).contains(world.listed()[j]),
{
    let b = world.listed()[j];
    assert forall|mask: Flags, loc: Location|
        !(#[trigger] world.locally(mask, loc)).contains(b) by {
        if world.locally(mask, loc).contains(b) {
            let near = world.static_index().region(loc) + world.dynamic_index().region(loc);
            near.lemma_filter_contains_rev(world.selects(mask, Some(loc)), b);
            let k = choose|k: int| 0 <= k < near.len() && near[k] == b;
            if k < world.static_index().region(loc).len() {
                assert(world.static_index().region(loc)[k] == b);
                assert(world.static_index().region(loc).contains(b));
                world.static_index().lemma_region_members(loc, b);
                let (x, y) = choose|x: int, y: int|
                    loc.covers(world.static_index().spec_unit(), x, y)
                        && #[trigger] world.static_index().bucket(x, y).contains(b);
                let n = choose|n: int|
                    0 <= n < world.static_index().bucket(x, y).len() && world.static_index().bucket(
                        x,
                        y,
                    )[n] == b;
                assert(world.body_of(world.static_index().bucket(x, y)[n]).physic_type
                    == PhysicType::Static);
            } else {
                assert(world.dynamic_index().region(loc)[k - world.static_index().region(
                    loc,
                ).len()] == b);
                assert(world.dynamic_index().region(loc).contains(b));
                world.dynamic_index().lemma_region_members(loc, b);
                let (x, y) = choose|x: int, y: int|
                    loc.covers(world.dynamic_index().spec_unit(), x, y)
                        && #[trigger] world.dynamic_index().bucket(x, y).contains(b);
                let seen = world.listed().take(i);
                assert(world.dynamic_index().bucket(x, y) == seen.filter(
                    world.recorded_in(placed, x, y),
                ));
                seen.lemma_filter_contains_rev(world.recorded_in(placed, x, y), b);
                let n = choose|n: int| 0 <= n < seen.len() && seen[n] == b;
                assert(world.listed()[n] == b);
            }
        }
    }
}

/// While the dynamic index is rebuilt, the query that an entity makes with
/// its own mask around its own region meets a dynamic entity that comes
/// before it on the list exactly once, if that entity belongs to a category
/// of the mask, overlaps the region, and was recorded under a region that has
/// exactly one cell in common with it.
pub proof fn theorem_later_meets_earlier_once(
    world: World,
    i: int,
    j: int,
    placed: Map<usize, Location>,
    cell: (int, int),
)
    requires
        world.wf(),
        0 <= i < j < world.listed().len(),
        world.rebuilt_upto(j, placed),
        placed.contains_key(world.listed()[i]),
        world.body_of(world.listed()[i]).physic_type != PhysicType::Static,
        world.body_of(world.listed()[i]).in_group(world.body_of(world.listed()[j]).mask),
        world.body_of(world.listed()[i]).touches(world.body_of(world.listed()[j]).location),
        placed[world.listed()[i]].covers(world.spec_unit(), cell.0, cell.1),
        world.body_of(world.listed()[j]).location.covers(world.spec_unit(), cell.0, cell.1),
        forall|x: int, y: int|
            placed[world.listed()[i]].covers(world.spec_unit(), x, y) && world.body_of(
                world.listed()[j],
            ).location.covers(world.spec_unit(), x, y) ==> x == cell.0 && y == cell.1,
    ensures
        times(
            world.locally(
                world.body_of(world.listed()[j]).mask,
                world.body_of(world.listed()[j]).location,
            ),
            world.listed()[i],
        ) == 1,
{
    let list = world.listed();
    let a = list[i];
    let mask = world.body_of(list[j]).mask;
    let loc = world.body_of(list[j]).location;
    let fixed = world.static_index();
    let moving = world.dynamic_index();
    let seen = list.take(j);
    // the static index holds no dynamic body
    lemma_times_zero(fixed.region(loc), a);
    if fixed.region(loc).contains(a) {
        fixed.lemma_region_members(loc, a);
        let (x, y) = choose|x: int, y: int|
            loc.covers(fixed.spec_unit(), x, y) && #[trigger] fixed.bucket(x, y).contains(a);
        let n = choose|n: int| 0 <= n < fixed.bucket(x, y).len() && fixed.bucket(x, y)[n] == a;
        assert(world.body_of(fixed.bucket(x, y)[n]).physic_type == PhysicType::Static);
    }
    // the dynamic index holds the earlier entity once in each cell that it
    // was recorded in
    assert forall|x: int, y: int|
        times(#[trigger] moving.bucket(x, y), a) == if placed[a].covers(world.spec_unit(), x, y) {
            1nat
        } else {
            0nat
        } by {
        assert(moving.bucket(x, y) == seen.filter(world.recorded_in(placed, x, y)));
        lemma_times_filter(seen, world.recorded_in(placed, x, y), a);
        lemma_times_prefix(list, i, j);
    }
    moving.lemma_region_times(loc, cell.0, cell.1, a);
    lemma_times_add(fixed.region(loc), moving.region(loc), a);
    lemma_times_filter(fixed.region(loc) + moving.region(loc), world.selects(mask, Some(loc)), a);
}

/// Once the dynamic index is rebuilt, a live entity is found in each cell
/// that the region under which it was recorded covers, and around every
/// region that overlaps both that region and the one it occupies now.
pub proof fn theorem_found_after_rebuild(
    world: World,
    at: int,
    placed: Map<usize, Location>,
    mask: Flags,
)
    requires
        world.wf(),
        0 <= at < world.listed().len(),
        world.rebuilt_upto(world.listed().len() as int, placed),
        placed.contains_key(world.listed()[at]),
        world.body_of(world.listed()[at]).in_group(mask),
    ensures
        forall|x: int, y: int|
            placed[world.listed()[at]].covers(world.spec_unit(), x, y) ==> #[trigger] world.on_index(
                mask,
                x,
                y,
            ).contains(world.listed()[at]),
        forall|loc: Location|
            placed[world.listed()[at]].is_valid() && loc.is_valid() && placed[world.listed()[at]].overlaps(
                loc,
            ) && world.body_of(world.listed()[at]).touches(loc) ==> #[trigger] world.locally(
                mask,
                loc,
            ).contains(world.listed()[at]),
{
    let list = world.listed();
    let id = list[at];
    let place = placed[id];
    let fixed = world.static_index();
    let moving = world.dynamic_index();
    assert(list.take(list.len() as int) =~= list);
    assert forall|x: int, y: int| place.covers(world.spec_unit(), x, y) implies #[trigger] moving.bucket(
        x,
        y,
    ).contains(id) by {
        assert(moving.bucket(x, y) == list.filter(world.recorded_in(placed, x, y)));
        list.lemma_filter_contains(world.recorded_in(placed, x, y), at);
    }
    assert forall|x: int, y: int| place.covers(world.spec_unit(), x, y) implies #[trigger] world.on_index(
        mask,
        x,
        y,
    ).contains(id) by {
        let held = fixed.bucket(x, y) + moving.bucket(x, y);
        assert(moving.bucket(x, y).contains(id));
        let k = choose|k: int| 0 <= k < moving.bucket(x, y).len() && moving.bucket(x, y)[k] == id;
        assert(held[fixed.bucket(x, y).len() + k] == id);
        held.lemma_filter_contains(world.selects(mask, None), fixed.bucket(x, y).len() + k);
    }
    assert forall|loc: Location|
        place.is_valid() && loc.is_valid() && place.overlaps(loc) && world.body_of(id).touches(
            loc,
        ) implies #[trigger] world.locally(mask, loc).contains(id) by {
        let cell = place.lemma_overlap_shares_cell(loc, world.spec_unit());
        assert(moving.bucket(cell.0, cell.1).contains(id));
        moving.lemma_region_members(loc, id);
        assert(moving.region(loc).contains(id));
        let near = fixed.region(loc) + moving.region(loc);
        let k = choose|k: int| 0 <= k < moving.region(loc).len() && moving.region(loc)[k] == id;
        assert(near[fixed.region(loc).len() + k] == id);
        near.lemma_filter_contains(world.selects(mask, Some(loc)), fixed.region(loc).len() + k);
    }
}

/// What a ray hits on its way through given cells depends on the cell size,
/// the bodies and the two indexes, and on nothing else in the world.
pub proof fn lemma_hits_determined(
    world: World,
    other: World,
    mask: Flags,
    ray: Ray,
    cells: Seq<(i32, i32)>,
    from: int,
    seen: Set<usize>,
    cuts: Seq<Option<Intersection>>,
)
    requires
        other.spec_unit() == world.spec_unit(),
        other.same_bodies(world),
    ensures
        other.hits_from(mask, ray, cells, from, seen, cuts) == world.hits_from(
            mask,
            ray,
            cells,
            from,
            seen,
            cuts,
        ),
    decreases cells.len() - from,
{
    if 0 <= from < cells.len() {
        assert(other.ray_selects(mask, seen) =~= world.ray_selects(mask, seen));
        let found = world.cell_found(mask, ray, cells[from], seen, cuts);
        lemma_hits_determined(
            world,
            other,
            mask,
            ray,
            cells,
            from + 1,
            seen.union(hit_ids(found)),
            cuts,
        );
    }
}

/// A ray cast can be repeated: two worlds with the same cell size, the same
/// bodies and the same indexes give the same hits in the same order, for
/// every ray, whatever else differs between them.
pub proof fn theorem_ray_cast_repeatable(
    world: World,
    other: World,
    mask: Flags,
    ray: Ray,
    cuts: Seq<Option<Intersection>>,
)
    requires
        other.spec_unit() == world.spec_unit(),
        other.same_bodies(world),
    ensures
        other.hits_along(mask, ray, cuts) == world.hits_along(mask, ray, cuts),
{
    lemma_hits_determined(
        world,
        other,
        mask,
        ray,
        crate::traversal::traversal(ray, world.spec_unit()),
        0,
        Set::empty(),
        cuts,
    );
}

/// A ray reports what it hits cell by cell, and within a cell nearest first:
/// the hits found in the cell where the ray stands come before all later
/// ones, in ascending order of their near distance, and they are the hits
/// found there, each as often as it was found.
pub proof fn theorem_nearest_first(
    world: World,
    mask: Flags,
    ray: Ray,
    cells: Seq<(i32, i32)>,
    from: int,
    seen: Set<usize>,
    cuts: Seq<Option<Intersection>>,
)
    requires
        0 <= from < cells.len(),
    ensures
        ({
            let found = world.cell_found(mask, ray, cells[from], seen, cuts);
            let hits = world.hits_from(mask, ray, cells, from, seen, cuts);
            &&& found.len() <= hits.len()
            &&& hits.take(found.len() as int) == sorted_by_near(found)
            &&& ascending(hits.take(found.len() as int))
            &&& hits.take(found.len() as int).to_multiset() == found.to_multiset()
            &&& hits.skip(found.len() as int) == world.hits_from(
                mask,
                ray,
                cells,
                from + 1,
                seen.union(hit_ids(found)),
                cuts,
            )
        }),
{
    let found = world.cell_found(mask, ray, cells[from], seen, cuts);
    let hits = world.hits_from(mask, ray, cells, from, seen, cuts);
    let rest = world.hits_from(mask, ray, cells, from + 1, seen.union(hit_ids(found)), cuts);
    lemma_sorted_by_near(found);
    assert(hits == sorted_by_near(found) + rest);
    assert(hits.take(found.len() as int) =~= sorted_by_near(found));
    assert(hits.skip(found.len() as int) =~= rest);
}

/// Every hit among candidates is a hit on one of them.
proof fn lemma_found_among(
    ray: Ray,
    unit: int,
    cell_x: int,
    candidates: Seq<usize>,
    cuts: Seq<Option<Intersection>>,
)
    ensures
        forall|k: int|
            0 <= k < found_hits(ray, unit, cell_x, candidates, cuts).len() ==> candidates.contains(
                (#[trigger] found_hits(ray, unit, cell_x, candidates, cuts)[k]).id,
            ),
    decreases candidates.len(),
{
    if candidates.len() > 0 {
        let front = candidates.drop_last();
        lemma_found_among(ray, unit, cell_x, front, cuts);
        let all = found_hits(ray, unit, cell_x, candidates, cuts);
        let rest = found_hits(ray, unit, cell_x, front, cuts);
        assert forall|k: int| 0 <= k < all.len() implies candidates.contains(
            (#[trigger] all[k]).id,
        ) by {
            let from_rest = match hit_in_cell(ray, unit, cell_x, candidates.last(), cuts) {
                Some(hit) => {
                    if k == 0 {
                        assert(candidates[candidates.len() - 1] == hit.id);
                        -1
                    } else {
                        k - 1
                    }
                },
                None => k,
            };
            if from_rest >= 0 {
                assert(all[k] == rest[from_rest]);
                assert(front.contains(rest[from_rest].id));
                let j = choose|j: int| 0 <= j < front.len() && front[j] == rest[from_rest].id;
                assert(candidates[j] == all[k].id);
            }
        }
    }
}

/// A ray hits no body again that it has hit in an earlier cell: the hits on
/// the way through `cells[from..]` are all on bodies outside `seen`, the
/// bodies hit before.
pub proof fn theorem_hits_are_new(
    world: World,
    mask: Flags,
    ray: Ray,
    cells: Seq<(i32, i32)>,
    from: int,
    seen: Set<usize>,
    cuts: Seq<Option<Intersection>>,
)
    ensures
        forall|k: int|
            0 <= k < world.hits_from(mask, ray, cells, from, seen, cuts).len() ==> !seen.contains(
                (#[trigger] world.hits_from(mask, ray, cells, from, seen, cuts)[k]).id,
            ),
    decreases cells.len() - from,
{
    broadcast use vstd::seq_lib::group_to_multiset_ensures;

    if 0 <= from < cells.len() {
        let cell = cells[from];
        let candidates = world.ray_candidates(mask, cell.0 as int, cell.1 as int, seen);
        let found = world.cell_found(mask, ray, cell, seen, cuts);
        let batch = sorted_by_near(found);
        let later = seen.union(hit_ids(found));
        let rest = world.hits_from(mask, ray, cells, from + 1, later, cuts);
        let hits = world.hits_from(mask, ray, cells, from, seen, cuts);
        lemma_found_among(ray, world.spec_unit(), cell.0 as int, candidates, cuts);
        lemma_sorted_by_near(found);
        theorem_hits_are_new(world, mask, ray, cells, from + 1, later, cuts);
        assert(hits == batch + rest);
        assert forall|k: int| 0 <= k < hits.len() implies !seen.contains((#[trigger] hits[k]).id) by {
            if k < batch.len() {
                assert(hits[k] == batch[k]);
                assert(batch.to_multiset().count(batch[k]) > 0);
                assert(found.contains(batch[k]));
                let n = choose|n: int| 0 <= n < found.len() && found[n] == batch[k];
                assert(candidates.contains(found[n].id));
                let held = world.static_index().bucket(cell.0 as int, cell.1 as int)
                    + world.dynamic_index().bucket(cell.0 as int, cell.1 as int);
                let j = choose|j: int| 0 <= j < candidates.len() && candidates[j] == found[n].id;
                held.lemma_filter_pred(world.ray_selects(mask, seen), j);
            } else {
                assert(hits[k] == rest[k - batch.len()]);
                assert(!later.contains(rest[k - batch.len()].id));
            }
        }
    }
}

/// A ray cast stops at the first hit if the callback answers `true` on it.
pub proof fn theorem_first_hit_stops<F: FnMut(&Body, i64, i64) -> bool>(
    world: &World,
    callback: F,
    hits: Seq<RayHit>,
    stopped: Option<RayHit>,
)
    requires
        hits.len() > 0,
        ended_with(world, callback, hits, stopped),
        forall|answer: bool|
            call_ensures(callback, (&world.body_of(hits[0].id), hits[0].near, hits[0].far), answer)
                ==> answer,
    ensures
        stopped == Some(hits[0]),
{
    match stopped {
        Some(hit) => {
            let n = choose|n: int|
                {
                    &&& 0 <= n < hits.len()
                    &&& #[trigger] hits[n] == hit
                    &&& refused(world, callback, hits, n)
                    &&& call_ensures(callback, (&world.body_of(hit.id), hit.near, hit.far), true)
                };
            if n > 0 {
                assert(call_ensures(
                    callback,
                    (&world.body_of(hits[0].id), hits[0].near, hits[0].far),
                    false,
                ));
            }
        },
        None => {
            assert(call_ensures(
                callback,
                (&world.body_of(hits[0].id), hits[0].near, hits[0].far),
                false,
            ));
        },
    }
}

} // verus!
