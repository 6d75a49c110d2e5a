use grid_world::{Body, Location, PhysicType, World};

fn body(left: i32, right: i32, down: i32, up: i32, group: u32, kind: PhysicType) -> Body {
    Body::new(Location::new(left, right, down, up), group, group, kind)
}

fn sample() -> World {
    let mut world = World::new(10);
    let walls = Vec::new();
    // 1: static, cells (2,0) and (3,0), group 0b01
    world.insert(body(25, 34, 5, 8, 0b01, PhysicType::Static), &walls);
    // 2: dynamic, cell (2,0), group 0b10
    world.insert(body(21, 23, 1, 3, 0b10, PhysicType::Dynamic), &walls);
    // 3: dynamic, cell (2,0), group 0b11
    world.insert(body(26, 27, 6, 7, 0b11, PhysicType::Dynamic), &walls);
    // 4: static, cell (-1,-1), group 0b01
    world.insert(body(-9, -1, -9, -1, 0b01, PhysicType::Static), &walls);
    world
}

#[test]
fn static_entity_is_found_after_insert() {
    let mut world = World::new(10);
    let id = world.insert(body(25, 34, 5, 8, 1, PhysicType::Static), &Vec::new());
    assert_eq!(world.get_on_group(1), vec![id]);
    assert_eq!(world.get_on_index(1, &[2, 0]), vec![id]);
    assert_eq!(world.get_on_index(1, &[3, 0]), vec![id]);
    assert_eq!(world.get_locally(1, &Location::new(30, 31, 6, 7)), vec![id]);
    assert!(world.get_on_group(2).is_empty());
    assert!(world.get_on_index(2, &[2, 0]).is_empty());
    assert!(world.get_locally(2, &Location::new(30, 31, 6, 7)).is_empty());
}

#[test]
fn dynamic_entity_is_found_after_insert() {
    let mut world = World::new(10);
    let id = world.insert(body(25, 34, 5, 8, 1, PhysicType::Dynamic), &Vec::new());
    assert_eq!(world.get_on_group(1), vec![id]);
    assert_eq!(world.get_on_index(1, &[3, 0]), vec![id]);
    assert_eq!(world.get_locally(1, &Location::new(30, 31, 6, 7)), vec![id]);
}

#[test]
fn get_on_group_keeps_list_order() {
    let world = sample();
    assert_eq!(world.get_on_group(0b01), vec![1, 3, 4]);
    assert_eq!(world.get_on_group(0b10), vec![2, 3]);
    assert_eq!(world.get_on_group(0b11), vec![1, 2, 3, 4]);
    assert!(world.get_on_group(0b100).is_empty());
    assert!(world.get_on_group(0).is_empty());
}

#[test]
fn get_on_index_lists_static_entries_first() {
    let world = sample();
    assert_eq!(world.get_on_index(0b11, &[2, 0]), vec![1, 2, 3]);
    assert_eq!(world.get_on_index(0b10, &[2, 0]), vec![2, 3]);
    assert_eq!(world.get_on_index(0b11, &[3, 0]), vec![1]);
    assert_eq!(world.get_on_index(0b11, &[-1, -1]), vec![4]);
    assert!(world.get_on_index(0b11, &[0, 0]).is_empty());
}

#[test]
fn get_locally_checks_the_overlap_of_regions() {
    let world = sample();
    // same cell as 1, 2 and 3, but overlapping 2 only
    assert_eq!(world.get_locally(0b11, &Location::new(20, 22, 0, 2)), vec![2]);
    // overlapping 1 and 3
    assert_eq!(world.get_locally(0b11, &Location::new(26, 26, 6, 6)), vec![1, 3]);
    // in the cell, overlapping nothing
    assert!(world.get_locally(0b11, &Location::new(28, 29, 0, 1)).is_empty());
}

#[test]
fn get_locally_lists_an_entity_once_for_each_shared_cell() {
    let world = sample();
    // covers the cells (2,0) and (3,0), both of which hold the entity 1
    assert_eq!(world.get_locally(0b01, &Location::new(25, 34, 5, 8)), vec![1, 1, 3]);
    // covers four cells, of which two hold the entity 1
    assert_eq!(world.get_locally(0b01, &Location::new(25, 34, 5, 12)), vec![1, 1, 3]);
}

#[test]
fn get_locally_around_a_region_with_bounds_out_of_order_is_empty() {
    let world = sample();
    assert!(world.get_locally(0b11, &Location::new(34, 25, 5, 8)).is_empty());
}

#[test]
fn apply_on_group_visits_in_list_order() {
    let world = sample();
    let mut seen = Vec::new();
    world.apply_on_group(0b01, &mut |body: &Body| seen.push((body.id, body.group)));
    assert_eq!(seen, vec![(1, 0b01), (3, 0b11), (4, 0b01)]);
}

#[test]
fn apply_on_index_visits_static_entries_first() {
    let world = sample();
    let mut seen = Vec::new();
    world.apply_on_index(0b10, &[2, 0], &mut |body: &Body| seen.push(body.id));
    assert_eq!(seen, vec![2, 3]);
    let mut all = Vec::new();
    world.apply_on_index(0b11, &[2, 0], &mut |body: &Body| all.push(body.id));
    assert_eq!(all, vec![1, 2, 3]);
}

#[test]
fn apply_locally_visits_a_wide_entity_once_for_each_shared_cell() {
    let world = sample();
    let mut seen = Vec::new();
    world.apply_locally(0b01, &Location::new(25, 34, 5, 8), &mut |body: &Body| seen.push(body.id));
    assert_eq!(seen, vec![1, 1, 3]);
}

#[test]
fn spatial_index_alone() {
    let mut grid = grid_world::SpatialHashing::new(5);
    assert_eq!(grid.unit(), 5);
    grid.insert_locally(&Location::new(0, 9, 0, 4), 7);
    grid.insert_locally(&Location::new(5, 5, 0, 0), 8);
    assert_eq!(grid.get_on_index(&[0, 0]), vec![7]);
    assert_eq!(grid.get_on_index(&[1, 0]), vec![7, 8]);
    assert!(grid.get_on_index(&[2, 0]).is_empty());
    // column by column, and within a column row by row
    grid.insert_locally(&Location::new(0, 0, 5, 5), 9);
    assert_eq!(grid.get_locally(&Location::new(0, 9, 0, 9)), vec![7, 9, 7, 8]);
    grid.clear();
    assert!(grid.get_locally(&Location::new(0, 9, 0, 9)).is_empty());
    assert_eq!(grid.unit(), 5);
}
