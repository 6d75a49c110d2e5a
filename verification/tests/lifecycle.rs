use grid_world::{Body, Location, PhysicType, World};

fn body(left: i32, right: i32, down: i32, up: i32, group: u32, kind: PhysicType) -> Body {
    Body::new(Location::new(left, right, down, up), group, group, kind)
}

#[test]
fn new_world_is_empty() {
    let world = World::new(10);
    assert_eq!(world.unit(), 10);
    assert_eq!(world.time(), 0);
    assert!(world.entity_cells().is_empty());
    assert_eq!(world.body(1), None);
    assert!(world.get_on_group(!0).is_empty());
    assert!(world.get_on_index(!0, &[0, 0]).is_empty());
    assert!(!world.is_wall(&[0, 0]));
}

#[test]
fn ids_start_at_one_and_increase() {
    let mut world = World::new(10);
    let walls = Vec::new();
    let a = world.insert(body(0, 1, 0, 1, 1, PhysicType::Static), &walls);
    let b = world.insert(body(0, 1, 0, 1, 1, PhysicType::Dynamic), &walls);
    let c = world.insert(body(50, 51, 0, 1, 2, PhysicType::Dynamic), &walls);
    assert_eq!((a, b, c), (1, 2, 3));
    assert_eq!(world.entity_cells(), &vec![1, 2, 3]);
    assert_eq!(world.body(2).map(|b| b.id()), Some(2));
    assert_eq!(world.body(3).map(|b| b.group), Some(2));
    assert_eq!(world.body(4), None);
    assert_eq!(world.body(0), None);
}

#[test]
fn insert_overwrites_the_id_the_body_came_with() {
    let mut world = World::new(10);
    let mut entering = body(0, 1, 0, 1, 1, PhysicType::Dynamic);
    entering.id = 77;
    let id = world.insert(entering, &Vec::new());
    assert_eq!(id, 1);
    assert_eq!(world.body(1).map(|b| b.id), Some(1));
}

#[test]
fn each_world_counts_its_own_ids() {
    let mut first = World::new(10);
    let mut second = World::new(3);
    let walls = Vec::new();
    assert_eq!(first.insert(body(0, 1, 0, 1, 1, PhysicType::Static), &walls), 1);
    assert_eq!(first.insert(body(0, 1, 0, 1, 1, PhysicType::Static), &walls), 2);
    assert_eq!(second.insert(body(0, 1, 0, 1, 1, PhysicType::Static), &walls), 1);
}

#[test]
fn insert_flags_the_wall_cells() {
    let mut world = World::new(10);
    world.insert(body(30, 39, 0, 9, 1, PhysicType::Static), &vec![[3, 0], [-2, 7]]);
    assert!(world.is_wall(&[3, 0]));
    assert!(world.is_wall(&[-2, 7]));
    assert!(!world.is_wall(&[0, 3]));
    assert!(!world.is_wall(&[7, -2]));
    world.insert(body(0, 9, 0, 9, 1, PhysicType::Dynamic), &vec![[3, 0]]);
    assert!(world.is_wall(&[3, 0]));
    world.insert(body(0, 9, 0, 9, 1, PhysicType::Dynamic), &Vec::new());
    assert!(world.is_wall(&[-2, 7]));
}

#[test]
fn static_body_goes_to_the_static_index() {
    let mut world = World::new(10);
    world.insert(body(25, 34, 5, 8, 1, PhysicType::Static), &Vec::new());
    assert_eq!(world.static_hashmap().get_on_index(&[2, 0]), vec![1]);
    assert_eq!(world.static_hashmap().get_on_index(&[3, 0]), vec![1]);
    assert!(world.static_hashmap().get_on_index(&[4, 0]).is_empty());
    assert!(world.dynamic_hashmap().get_on_index(&[2, 0]).is_empty());
}

#[test]
fn dynamic_body_goes_to_the_dynamic_index() {
    let mut world = World::new(10);
    world.insert(body(-5, 5, -5, 5, 1, PhysicType::Dynamic), &Vec::new());
    for cell in [[-1, -1], [-1, 0], [0, -1], [0, 0]] {
        assert_eq!(world.dynamic_hashmap().get_on_index(&cell), vec![1]);
        assert!(world.static_hashmap().get_on_index(&cell).is_empty());
    }
    assert!(world.dynamic_hashmap().get_on_index(&[1, 0]).is_empty());
}

#[test]
fn body_with_bounds_out_of_order_covers_no_cell() {
    let mut world = World::new(10);
    let id = world.insert(body(20, 5, 0, 9, 1, PhysicType::Static), &Vec::new());
    assert_eq!(id, 1);
    assert_eq!(world.entity_cells(), &vec![1]);
    for x in 0..3 {
        assert!(world.get_on_index(1, &[x, 0]).is_empty());
    }
    assert_eq!(world.get_on_group(1), vec![1]);
}

#[test]
fn set_body_keeps_identifier_and_class() {
    let mut world = World::new(10);
    world.insert(body(0, 9, 0, 9, 1, PhysicType::Static), &Vec::new());
    let mut next = body(100, 109, 0, 9, 4, PhysicType::Dynamic);
    next.id = 9;
    next.dead = true;
    assert!(world.set_body(1, next));
    let stored = world.body(1).unwrap();
    assert_eq!(stored.id, 1);
    assert_eq!(stored.physic_type, PhysicType::Static);
    assert_eq!(stored.group, 4);
    assert_eq!(stored.location, Location::new(100, 109, 0, 9));
    assert!(stored.dead());
    // the indexes are left alone
    assert_eq!(world.static_hashmap().get_on_index(&[0, 0]), vec![1]);
    assert!(world.static_hashmap().get_on_index(&[10, 0]).is_empty());
}

#[test]
fn set_body_refuses_an_unknown_identifier() {
    let mut world = World::new(10);
    world.insert(body(0, 9, 0, 9, 1, PhysicType::Static), &Vec::new());
    assert!(!world.set_body(0, body(0, 1, 0, 1, 2, PhysicType::Static)));
    assert!(!world.set_body(2, body(0, 1, 0, 1, 2, PhysicType::Static)));
    assert_eq!(world.body(1).map(|b| b.group), Some(1));
}

#[test]
fn set_time_is_read_back() {
    let mut world = World::new(10);
    world.set_time(1234);
    assert_eq!(world.time(), 1234);
    assert_eq!(world.unit(), 10);
}

#[test]
fn next_id_tells_the_identifier_to_come() {
    let mut world = World::new(10);
    assert_eq!(world.next_id(), 1);
    let id = world.insert(body(0, 1, 0, 1, 1, PhysicType::Static), &Vec::new());
    assert_eq!(id, 1);
    assert_eq!(world.next_id(), 2);
}

#[test]
fn body_answers_for_itself() {
    let mut b = Body::new(Location::new(0, 9, 0, 9), 0b0110, 0b1000, PhysicType::Dynamic);
    assert_eq!(b.id(), 0);
    assert!(!b.dead());
    assert!(!b.is_static());
    assert_eq!(b.location(), Location::new(0, 9, 0, 9));
    assert!(b.matches(0b0100));
    assert!(b.matches(0b0011));
    assert!(!b.matches(0b1001));
    assert!(!b.matches(0));
    assert!(b.in_location(&Location::new(9, 20, 9, 20)));
    assert!(!b.in_location(&Location::new(10, 20, 0, 9)));
    b.dead = true;
    let kept = Body { id: 5, ..Body::new(Location::new(1, 1, 1, 1), 1, 1, PhysicType::Static) };
    let bound = b.rebind(&kept);
    assert_eq!(bound.id, 5);
    assert!(bound.is_static());
    assert_eq!(bound.group, 0b0110);
    assert_eq!(bound.mask, 0b1000);
    assert_eq!(bound.location, Location::new(0, 9, 0, 9));
    assert!(bound.dead);
}

#[test]
fn set_wall_flags_and_unflags_one_cell() {
    let mut world = World::new(10);
    world.insert(body(30, 39, 0, 9, 1, PhysicType::Static), &vec![[3, 0], [4, 0]]);
    world.set_wall(&[3, 0], false);
    assert!(!world.is_wall(&[3, 0]));
    assert!(world.is_wall(&[4, 0]));
    world.set_wall(&[-7, 2], true);
    assert!(world.is_wall(&[-7, 2]));
    assert!(!world.is_wall(&[2, -7]));
    world.set_wall(&[-7, 2], true);
    assert!(world.is_wall(&[-7, 2]));
    world.set_wall(&[9, 9], false);
    assert!(!world.is_wall(&[9, 9]));
    assert_eq!(world.entity_cells(), &vec![1]);
    assert_eq!(world.next_id(), 2);
}
