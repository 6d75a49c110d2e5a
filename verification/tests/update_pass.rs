use grid_world::{Behaviors, Body, Location, PhysicType, World};

fn body(left: i32, right: i32, down: i32, up: i32, kind: PhysicType) -> Body {
    Body::new(Location::new(left, right, down, up), 1, 1, kind)
}

/// Behaviors that record every call, kill and move the entities they are
/// told to, and take two bodies to collide when their regions overlap.
struct Script {
    updated: Vec<(usize, u32)>,
    rendered: Vec<usize>,
    tested: Vec<(usize, usize)>,
    resolved: Vec<(usize, usize)>,
    told: Vec<(usize, usize)>,
    kill: Vec<usize>,
    kill_on_collision: Vec<usize>,
    moves: Vec<(usize, Location)>,
    seen_listed: Vec<usize>,
}

impl Script {
    fn new() -> Script {
        Script {
            updated: Vec::new(),
            rendered: Vec::new(),
            tested: Vec::new(),
            resolved: Vec::new(),
            told: Vec::new(),
            kill: Vec::new(),
            kill_on_collision: Vec::new(),
            moves: Vec::new(),
            seen_listed: Vec::new(),
        }
    }
}

impl Behaviors for Script {
    fn update(&mut self, body: &mut Body, dt: u32, world: &World) {
        self.updated.push((body.id, dt));
        self.seen_listed.push(world.entity_cells().len());
        if self.kill.contains(&body.id) {
            body.dead = true;
        }
        for (id, to) in &self.moves {
            if *id == body.id {
                body.location = *to;
            }
        }
    }

    fn render(&mut self, body: &Body) {
        self.rendered.push(body.id);
    }

    fn collide(&self, body: &Body, other: &Body) -> bool {
        body.location.intersects(&other.location)
    }

    fn resolve_collision(&mut self, body: &mut Body, other: &Body) {
        self.resolved.push((body.id, other.id));
    }

    fn on_collision(&mut self, body: &mut Body, other: &Body) {
        self.told.push((body.id, other.id));
        if self.kill_on_collision.contains(&body.id) {
            body.dead = true;
        }
    }
}

#[test]
fn update_runs_every_behavior_in_list_order() {
    let mut world = World::new(10);
    for k in 0..3 {
        world.insert(body(100 * k, 100 * k + 1, 0, 1, PhysicType::Dynamic), &Vec::new());
    }
    let mut script = Script::new();
    world.update(16, &mut script);
    assert_eq!(script.updated, vec![(1, 16), (2, 16), (3, 16)]);
    assert_eq!(script.seen_listed, vec![3, 3, 3]);
    assert!(script.told.is_empty());
    assert_eq!(world.entity_cells(), &vec![1, 2, 3]);
    assert_eq!(world.time(), 0);
}

#[test]
fn overlapping_pair_is_told_once_each() {
    let mut world = World::new(10);
    let a = world.insert(body(1, 3, 1, 3, PhysicType::Dynamic), &Vec::new());
    let b = world.insert(body(2, 4, 2, 4, PhysicType::Dynamic), &Vec::new());
    let mut script = Script::new();
    world.update(1, &mut script);
    // found when the later one of the two makes its query
    assert_eq!(script.resolved, vec![(b, a), (a, b)]);
    assert_eq!(script.told, vec![(b, a), (a, b)]);
    // and again, once, on the next update
    world.update(1, &mut script);
    assert_eq!(script.told, vec![(b, a), (a, b), (b, a), (a, b)]);
}

#[test]
fn pair_in_one_cell_that_does_not_overlap_is_not_tested() {
    let mut world = World::new(10);
    world.insert(body(1, 2, 1, 2, PhysicType::Dynamic), &Vec::new());
    world.insert(body(7, 8, 7, 8, PhysicType::Dynamic), &Vec::new());
    let mut script = Script::new();
    world.update(1, &mut script);
    assert!(script.resolved.is_empty());
    assert!(script.told.is_empty());
}

#[test]
fn pair_whose_categories_do_not_match_is_not_tested() {
    let mut world = World::new(10);
    let mut a = body(1, 3, 1, 3, PhysicType::Dynamic);
    a.group = 0b10;
    a.mask = 0b01;
    let mut b = body(2, 4, 2, 4, PhysicType::Dynamic);
    b.group = 0b01;
    b.mask = 0b100;
    world.insert(a, &Vec::new());
    world.insert(b, &Vec::new());
    let mut script = Script::new();
    world.update(1, &mut script);
    // the query of the later entity uses its own mask against the group of the earlier one
    assert!(script.told.is_empty());
}

#[test]
fn pair_sharing_two_cells_is_told_twice() {
    let mut world = World::new(10);
    let a = world.insert(body(5, 15, 1, 3, PhysicType::Dynamic), &Vec::new());
    let b = world.insert(body(6, 16, 2, 4, PhysicType::Dynamic), &Vec::new());
    let mut script = Script::new();
    world.update(1, &mut script);
    assert_eq!(script.told, vec![(b, a), (a, b), (b, a), (a, b)]);
}

#[test]
fn dead_entities_leave_the_list_and_are_told_nothing() {
    let mut world = World::new(10);
    let a = world.insert(body(1, 3, 1, 3, PhysicType::Dynamic), &Vec::new());
    let b = world.insert(body(2, 4, 2, 4, PhysicType::Dynamic), &Vec::new());
    let c = world.insert(body(3, 5, 3, 5, PhysicType::Dynamic), &Vec::new());
    let mut script = Script::new();
    script.kill.push(b);
    world.update(1, &mut script);
    assert_eq!(world.entity_cells(), &vec![a, c]);
    assert_eq!(script.told, vec![(c, a), (a, c)]);
    assert!(world.body(b).unwrap().dead());
    assert!(world.get_on_index(1, &[0, 0]).iter().all(|id| *id != b));
    assert_eq!(world.get_on_group(1), vec![a, c]);
}

#[test]
fn reclaiming_moves_the_last_entity_into_the_gap() {
    let mut world = World::new(10);
    for k in 0..4 {
        world.insert(body(100 * k, 100 * k + 1, 0, 1, PhysicType::Dynamic), &Vec::new());
    }
    let mut script = Script::new();
    script.kill.push(1);
    world.update(1, &mut script);
    assert_eq!(world.entity_cells(), &vec![4, 2, 3]);
    script.kill = vec![4, 3];
    world.update(1, &mut script);
    assert_eq!(world.entity_cells(), &vec![2]);
}

#[test]
fn entity_killed_by_a_collision_stays_until_the_next_update() {
    let mut world = World::new(10);
    let a = world.insert(body(1, 3, 1, 3, PhysicType::Dynamic), &Vec::new());
    let b = world.insert(body(2, 4, 2, 4, PhysicType::Dynamic), &Vec::new());
    let mut script = Script::new();
    script.kill_on_collision.push(a);
    world.update(1, &mut script);
    assert_eq!(world.entity_cells(), &vec![a, b]);
    assert!(world.body(a).unwrap().dead());
    world.update(1, &mut script);
    assert_eq!(world.entity_cells(), &vec![b]);
}

#[test]
fn new_entity_after_a_reclaim_gets_a_fresh_id() {
    let mut world = World::new(10);
    world.insert(body(1, 3, 1, 3, PhysicType::Dynamic), &Vec::new());
    world.insert(body(50, 51, 1, 3, PhysicType::Dynamic), &Vec::new());
    let mut script = Script::new();
    script.kill = vec![1, 2];
    world.update(1, &mut script);
    assert!(world.entity_cells().is_empty());
    assert_eq!(world.insert(body(1, 3, 1, 3, PhysicType::Dynamic), &Vec::new()), 3);
}

#[test]
fn moved_entity_is_indexed_at_its_new_place() {
    let mut world = World::new(10);
    let a = world.insert(body(1, 3, 1, 3, PhysicType::Dynamic), &Vec::new());
    let mut script = Script::new();
    script.moves.push((a, Location::new(41, 43, 21, 23)));
    world.update(1, &mut script);
    assert!(world.get_on_index(1, &[0, 0]).is_empty());
    assert_eq!(world.get_on_index(1, &[4, 2]), vec![a]);
    assert_eq!(world.get_locally(1, &Location::new(40, 49, 20, 29)), vec![a]);
}

#[test]
fn behavior_cannot_change_identifier_or_class() {
    struct Forger;
    impl Behaviors for Forger {
        fn update(&mut self, body: &mut Body, _dt: u32, _world: &World) {
            body.id = 99;
            body.physic_type = PhysicType::Static;
            body.group = 8;
        }
        fn render(&mut self, _body: &Body) {}
        fn collide(&self, _body: &Body, _other: &Body) -> bool {
            false
        }
        fn resolve_collision(&mut self, _body: &mut Body, _other: &Body) {}
        fn on_collision(&mut self, _body: &mut Body, _other: &Body) {}
    }
    let mut world = World::new(10);
    world.insert(body(1, 3, 1, 3, PhysicType::Dynamic), &Vec::new());
    world.update(1, &mut Forger);
    let stored = world.body(1).unwrap();
    assert_eq!(stored.id, 1);
    assert_eq!(stored.physic_type, PhysicType::Dynamic);
    assert_eq!(stored.group, 8);
}

#[test]
fn static_index_stays_as_it_is_over_updates() {
    let mut world = World::new(10);
    for k in 0..100 {
        let x = 10 * (k % 10) + 2;
        let y = 10 * (k / 10) + 2;
        world.insert(body(x, x + 5, y, y + 5, PhysicType::Static), &Vec::new());
    }
    let everywhere = Location::new(0, 99, 0, 99);
    let at_start = world.static_hashmap().get_locally(&everywhere);
    assert_eq!(at_start.len(), 100);
    let mut script = Script::new();
    for _ in 0..5 {
        world.update(1, &mut script);
        assert_eq!(world.static_hashmap().get_locally(&everywhere), at_start);
        assert_eq!(world.entity_cells().len(), 100);
    }
    for k in 0..100 {
        let cell = [k % 10, k / 10];
        assert_eq!(world.static_hashmap().get_on_index(&cell), vec![k as usize + 1]);
    }
    assert!(script.told.is_empty());
}

#[test]
fn static_entity_does_not_meet_itself() {
    let mut world = World::new(10);
    world.insert(body(1, 3, 1, 3, PhysicType::Static), &Vec::new());
    let mut script = Script::new();
    world.update(1, &mut script);
    world.update(1, &mut script);
    assert!(script.told.is_empty());
    assert!(script.resolved.is_empty());
}

#[test]
fn update_records_static_entities_in_the_dynamic_index_too() {
    let mut world = World::new(10);
    let s = world.insert(body(1, 3, 1, 3, PhysicType::Static), &Vec::new());
    assert!(world.dynamic_hashmap().get_on_index(&[0, 0]).is_empty());
    world.update(1, &mut Script::new());
    assert_eq!(world.dynamic_hashmap().get_on_index(&[0, 0]), vec![s]);
    assert_eq!(world.get_on_index(1, &[0, 0]), vec![s, s]);
}

#[test]
fn dead_static_entity_stays_in_the_static_index() {
    let mut world = World::new(10);
    let s = world.insert(body(1, 3, 1, 3, PhysicType::Static), &Vec::new());
    let d = world.insert(body(2, 4, 2, 4, PhysicType::Dynamic), &Vec::new());
    let mut script = Script::new();
    script.kill.push(s);
    world.update(1, &mut script);
    assert_eq!(world.entity_cells(), &vec![d]);
    assert_eq!(world.static_hashmap().get_on_index(&[0, 0]), vec![s]);
    // the query of a live entity still meets it
    assert_eq!(script.told, vec![(d, s), (s, d)]);
}

#[test]
fn dynamic_index_lists_each_cell_in_list_order() {
    let mut world = World::new(10);
    for _ in 0..4 {
        world.insert(body(1, 3, 1, 3, PhysicType::Dynamic), &Vec::new());
    }
    let mut script = Script::new();
    script.kill.push(1);
    world.update(1, &mut script);
    assert_eq!(world.entity_cells(), &vec![4, 2, 3]);
    assert_eq!(world.dynamic_hashmap().get_on_index(&[0, 0]), vec![4, 2, 3]);
}

#[test]
fn pass_by_hand() {
    let mut world = World::new(10);
    let a = world.insert(body(1, 3, 1, 3, PhysicType::Dynamic), &Vec::new());
    let b = world.insert(body(2, 4, 2, 4, PhysicType::Dynamic), &Vec::new());
    let c = world.insert(body(2, 4, 2, 4, PhysicType::Dynamic), &Vec::new());
    let mut gone = world.body(a).unwrap();
    gone.dead = true;
    world.set_body(a, gone);
    world.reclaim();
    assert_eq!(world.entity_cells(), &vec![c, b]);
    // the dynamic index still holds what it held
    assert_eq!(world.dynamic_hashmap().get_on_index(&[0, 0]), vec![a, b, c]);
    world.clear_dynamic();
    assert!(world.dynamic_hashmap().get_on_index(&[0, 0]).is_empty());
    let place = world.body(c).unwrap().location();
    assert!(world.get_locally(1, &place).is_empty());
    assert!(world.reindex(c));
    assert_eq!(world.get_locally(1, &place), vec![c]);
    assert!(world.reindex(b));
    assert_eq!(world.dynamic_hashmap().get_on_index(&[0, 0]), vec![c, b]);
    assert!(!world.reindex(0));
    assert!(!world.reindex(4));
    assert_eq!(world.dynamic_hashmap().get_on_index(&[0, 0]), vec![c, b]);
}

#[test]
fn render_draws_the_live_entities_in_list_order() {
    let mut world = World::new(10);
    for k in 0..3 {
        world.insert(body(100 * k, 100 * k + 1, 0, 1, PhysicType::Dynamic), &Vec::new());
    }
    let mut script = Script::new();
    script.kill.push(1);
    world.update(1, &mut script);
    world.render(&mut script);
    assert_eq!(script.rendered, vec![3, 2]);
}

#[test]
fn four_entities_with_the_first_and_last_dead_leave_three_and_two() {
    let mut world = World::new(10);
    for k in 0..4 {
        let mut entering = body(100 * k, 100 * k + 1, 0, 1, PhysicType::Dynamic);
        entering.dead = k == 0 || k == 3;
        world.insert(entering, &Vec::new());
    }
    let mut script = Script::new();
    world.update(1, &mut script);
    assert_eq!(world.entity_cells(), &vec![3, 2]);
    assert_eq!(script.updated, vec![(1, 1), (2, 1), (3, 1), (4, 1)]);
    assert_eq!(world.get_on_group(1), vec![3, 2]);
    assert!(world.dynamic_hashmap().get_on_index(&[0, 0]).is_empty());
    assert!(world.dynamic_hashmap().get_on_index(&[30, 0]).is_empty());
    assert_eq!(world.dynamic_hashmap().get_on_index(&[20, 0]), vec![3]);
    assert_eq!(world.dynamic_hashmap().get_on_index(&[10, 0]), vec![2]);
}

#[test]
fn hooks_run_before_reclaim_and_before_any_collision() {
    let mut world = World::new(10);
    let a = world.insert(body(1, 3, 1, 3, PhysicType::Dynamic), &Vec::new());
    let b = world.insert(body(2, 4, 2, 4, PhysicType::Dynamic), &Vec::new());
    let c = world.insert(body(3, 5, 3, 5, PhysicType::Dynamic), &Vec::new());
    let mut script = Script::new();
    script.kill.push(c);
    world.update(7, &mut script);
    // all three behaved, and saw the full list, before the dead one left
    assert_eq!(script.updated, vec![(a, 7), (b, 7), (c, 7)]);
    assert_eq!(script.seen_listed, vec![3, 3, 3]);
    // the dead one is told nothing and nobody is told of it
    assert_eq!(script.resolved, vec![(b, a), (a, b)]);
    assert_eq!(script.told, vec![(b, a), (a, b)]);
}

#[test]
fn every_entity_left_is_found_where_it_is_after_the_update() {
    let mut world = World::new(10);
    let a = world.insert(body(1, 3, 1, 3, PhysicType::Dynamic), &Vec::new());
    let b = world.insert(body(52, 64, 2, 4, PhysicType::Dynamic), &Vec::new());
    let c = world.insert(body(-30, -25, 3, 5, PhysicType::Dynamic), &Vec::new());
    let mut script = Script::new();
    script.moves.push((a, Location::new(101, 103, 1, 3)));
    world.update(1, &mut script);
    for id in [a, b, c] {
        let place = world.body(id).unwrap().location();
        assert_eq!(world.get_locally(1, &place).iter().filter(|x| **x == id).count() > 0, true);
    }
    assert_eq!(world.get_on_index(1, &[10, 0]), vec![a]);
    assert_eq!(world.get_on_index(1, &[5, 0]), vec![b]);
    assert_eq!(world.get_on_index(1, &[6, 0]), vec![b]);
    assert_eq!(world.get_on_index(1, &[-3, 0]), vec![c]);
}

#[test]
fn phases_by_hand_with_behaviors() {
    let mut world = World::new(10);
    let a = world.insert(body(1, 3, 1, 3, PhysicType::Dynamic), &Vec::new());
    let b = world.insert(body(2, 4, 2, 4, PhysicType::Dynamic), &Vec::new());
    let mut script = Script::new();
    script.moves.push((b, Location::new(2, 5, 2, 5)));
    world.behave(3, &mut script);
    assert_eq!(script.updated, vec![(a, 3), (b, 3)]);
    assert_eq!(world.body(b).unwrap().location(), Location::new(2, 5, 2, 5));
    assert!(script.told.is_empty());
    world.reclaim();
    world.clear_dynamic();
    world.settle(a, &mut script);
    assert!(script.told.is_empty());
    assert_eq!(world.dynamic_hashmap().get_on_index(&[0, 0]), vec![a]);
    world.settle(b, &mut script);
    assert_eq!(script.resolved, vec![(b, a), (a, b)]);
    assert_eq!(script.told, vec![(b, a), (a, b)]);
    assert_eq!(world.dynamic_hashmap().get_on_index(&[0, 0]), vec![a, b]);
    world.meet(a, b, &mut script);
    assert_eq!(script.told, vec![(b, a), (a, b), (a, b), (b, a)]);
}

#[test]
fn phases_refuse_unknown_identifiers() {
    let mut world = World::new(10);
    let a = world.insert(body(1, 3, 1, 3, PhysicType::Dynamic), &Vec::new());
    let b = world.insert(body(2, 4, 2, 4, PhysicType::Dynamic), &Vec::new());
    let mut script = Script::new();
    assert!(!world.advance(0, 1, &mut script));
    assert!(!world.advance(3, 1, &mut script));
    assert!(!world.meet(a, a, &mut script));
    assert!(!world.meet(a, 3, &mut script));
    assert!(!world.meet(0, b, &mut script));
    assert!(!world.settle(0, &mut script));
    assert!(!world.settle(3, &mut script));
    assert!(script.updated.is_empty());
    assert!(script.resolved.is_empty());
    assert!(script.told.is_empty());
    assert_eq!(world.dynamic_hashmap().get_on_index(&[0, 0]), vec![a, b]);
    assert!(world.advance(b, 4, &mut script));
    assert_eq!(script.updated, vec![(b, 4)]);
    assert!(world.meet(b, a, &mut script));
    assert_eq!(script.told, vec![(b, a), (a, b)]);
    assert!(world.settle(a, &mut script));
    assert_eq!(world.dynamic_hashmap().get_on_index(&[0, 0]), vec![a, b, a]);
}
