use grid_world::location::cell_of;
use grid_world::ray::{distance_between, isqrt};
use grid_world::sort::sort_by_near;
use grid_world::traversal::grid_raycast;
use grid_world::{Intersection, Line, Location, Ray, RayHit};

#[test]
fn cell_of_rounds_toward_negative_infinity() {
    assert_eq!(cell_of(0, 10), 0);
    assert_eq!(cell_of(9, 10), 0);
    assert_eq!(cell_of(10, 10), 1);
    assert_eq!(cell_of(-1, 10), -1);
    assert_eq!(cell_of(-10, 10), -1);
    assert_eq!(cell_of(-11, 10), -2);
    assert_eq!(cell_of(25, 1), 25);
}

#[test]
fn cell_of_at_the_limits() {
    assert_eq!(cell_of(i32::MIN, 1), i32::MIN);
    assert_eq!(cell_of(i32::MAX, 1), i32::MAX);
    assert_eq!(cell_of(i32::MAX, u32::MAX), 0);
    assert_eq!(cell_of(i32::MIN, u32::MAX), -1);
}

#[test]
fn locations_overlap_on_shared_border() {
    let a = Location::new(0, 10, 0, 10);
    assert!(a.intersects(&Location::new(10, 20, 10, 20)));
    assert!(!a.intersects(&Location::new(11, 20, 0, 10)));
    assert!(!a.intersects(&Location::new(0, 10, -20, -1)));
    assert!(a.intersects(&Location::new(3, 4, 3, 4)));
}

#[test]
fn isqrt_rounds_down() {
    assert_eq!(isqrt(0), 0);
    assert_eq!(isqrt(1), 1);
    assert_eq!(isqrt(2), 1);
    assert_eq!(isqrt(3), 1);
    assert_eq!(isqrt(4), 2);
    assert_eq!(isqrt(8), 2);
    assert_eq!(isqrt(24), 4);
    assert_eq!(isqrt(25), 5);
    assert_eq!(isqrt(1 << 65), 6074000999);
    assert_eq!(isqrt((1 << 66) - 1), (1 << 33) - 1);
    assert_eq!(isqrt(1 << 66), 1 << 33);
    assert_eq!(isqrt(u128::MAX), u64::MAX);
    assert_eq!(isqrt((u64::MAX as u128) * (u64::MAX as u128) - 1), u64::MAX - 1);
}

#[test]
fn distance_is_the_rounded_down_euclidean_one() {
    assert_eq!(distance_between(0, 0, 3, 4), 5);
    assert_eq!(distance_between(0, 0, 3000, 4000), 5000);
    assert_eq!(distance_between(0, 0, 1000, 1000), 1414);
    assert_eq!(distance_between(7, 7, 7, 7), 0);
    assert_eq!(distance_between(5, 0, -5, 0), 10);
    assert_eq!(distance_between(i32::MIN, i32::MIN, i32::MAX, i32::MAX), 6074000998);
}

#[test]
fn line_of_a_horizontal_ray() {
    assert_eq!(Ray::new(0, 0, 10, 0).line(), Line { a: 0, b: 1, c: 0 });
    assert_eq!(Ray::new(4, 7, -3, 7).line(), Line { a: 0, b: 1, c: -7 });
}

#[test]
fn line_of_a_slanted_ray() {
    let line = Ray::new(1, 2, 4, 6).line();
    assert_eq!(line, Line { a: 4, b: -3, c: 2 });
    assert_eq!(line.a as i128 * 1 + line.b as i128 * 2 + line.c, 0);
    assert_eq!(line.a as i128 * 4 + line.b as i128 * 6 + line.c, 0);
    assert_eq!(Ray::new(5, 0, 5, 9).line(), Line { a: 9, b: 0, c: -45 });
}

#[test]
fn line_of_the_longest_ray_does_not_overflow() {
    let line = Ray::new(i32::MIN, i32::MAX, i32::MAX, i32::MIN).line();
    let all = (1i128 << 32) - 1;
    assert_eq!(line.a as i128, -all);
    assert_eq!(line.b as i128, -all);
    assert_eq!(line.a as i128 * (i32::MIN as i128) + line.b as i128 * (i32::MAX as i128) + line.c, 0);
    assert_eq!(line.a as i128 * (i32::MAX as i128) + line.b as i128 * (i32::MIN as i128) + line.c, 0);
}

#[test]
fn segment_is_the_cell_clipped_to_the_ray() {
    let ray = Ray::new(0, 0, 10000, 0);
    assert_eq!(ray.segment(3, 1000), (3000, 4000));
    assert_eq!(ray.segment(0, 1000), (0, 1000));
    assert_eq!(ray.segment(10, 1000), (10000, 10000));
    let short = Ray::new(2500, 0, 7200, 0);
    assert_eq!(short.segment(2, 1000), (2500, 3000));
    assert_eq!(short.segment(7, 1000), (7000, 7200));
    let back = Ray::new(7200, 0, 2500, 0);
    assert_eq!(back.segment(2, 1000), (2500, 3000));
    assert_eq!(back.segment(7, 1000), (7000, 7200));
}

#[test]
fn classify_rightward_ray() {
    let ray = Ray::new(0, 0, 10000, 0);
    let cut = Intersection { x_min: 3000, y_min: 0, x_max: 3999, y_max: 0 };
    assert_eq!(cut.classify(&ray, 3000, 4000), Some((3000, 3999)));
    // the cut starts before the part of the ray in this cell: the near key is negated
    assert_eq!(cut.classify(&ray, 3500, 4000), Some((-3000, 3999)));
    // the cut does not reach into the part
    assert_eq!(cut.classify(&ray, 4000, 5000), None);
    assert_eq!(cut.classify(&ray, 2000, 2999), None);
    // touching ends count
    assert_eq!(cut.classify(&ray, 3999, 5000), Some((-3000, 3999)));
    assert_eq!(cut.classify(&ray, 2000, 3000), Some((3000, 3999)));
}

#[test]
fn classify_leftward_ray() {
    let ray = Ray::new(10000, 0, 0, 0);
    let cut = Intersection { x_min: 3000, y_min: 0, x_max: 3999, y_max: 0 };
    // the end with the higher x is the closer one
    assert_eq!(cut.classify(&ray, 3000, 4000), Some((6001, 7000)));
    // the cut ends beyond the part of the ray in this cell: the near key is negated
    assert_eq!(cut.classify(&ray, 3000, 3500), Some((-6001, 7000)));
    assert_eq!(cut.classify(&ray, 4000, 5000), None);
}

#[test]
fn classify_vertical_ray_counts_as_rightward() {
    let ray = Ray::new(5, 0, 5, 100);
    let cut = Intersection { x_min: 5, y_min: 30, x_max: 5, y_max: 40 };
    assert_eq!(cut.classify(&ray, 5, 5), Some((30, 40)));
}

#[test]
fn sort_by_near_is_ascending_and_stable() {
    let hits = vec![
        RayHit { id: 1, near: 5, far: 9 },
        RayHit { id: 2, near: -3, far: 4 },
        RayHit { id: 3, near: 5, far: 6 },
        RayHit { id: 4, near: 0, far: 1 },
        RayHit { id: 5, near: -3, far: 2 },
    ];
    let sorted = sort_by_near(hits);
    let ids: Vec<usize> = sorted.iter().map(|h| h.id).collect();
    assert_eq!(ids, vec![2, 5, 4, 1, 3]);
    assert_eq!(sorted[0], RayHit { id: 2, near: -3, far: 4 });
    assert_eq!(sort_by_near(Vec::new()), Vec::new());
}

#[test]
fn traversal_of_a_horizontal_ray() {
    assert_eq!(grid_raycast(&Ray::new(5, 5, 35, 5), 10), vec![(0, 0), (1, 0), (2, 0), (3, 0)]);
    assert_eq!(grid_raycast(&Ray::new(25, 5, 5, 5), 10), vec![(2, 0), (1, 0), (0, 0)]);
}

#[test]
fn traversal_of_a_vertical_ray() {
    assert_eq!(grid_raycast(&Ray::new(5, 5, 5, -15), 10), vec![(0, 0), (0, -1), (0, -2)]);
}

#[test]
fn traversal_within_one_cell() {
    assert_eq!(grid_raycast(&Ray::new(1, 1, 8, 9), 10), vec![(0, 0)]);
    assert_eq!(grid_raycast(&Ray::new(3, 3, 3, 3), 10), vec![(0, 0)]);
}

#[test]
fn traversal_of_a_diagonal_steps_along_x_first_on_a_corner() {
    assert_eq!(
        grid_raycast(&Ray::new(5, 5, 25, 25), 10),
        vec![(0, 0), (1, 0), (1, 1), (2, 1), (2, 2)]
    );
    assert_eq!(grid_raycast(&Ray::new(-5, -5, 5, 5), 10), vec![(-1, -1), (0, -1), (0, 0)]);
}

#[test]
fn traversal_of_a_shallow_ray() {
    assert_eq!(
        grid_raycast(&Ray::new(5, 5, 35, 15), 10),
        vec![(0, 0), (1, 0), (2, 0), (2, 1), (3, 1)]
    );
}

#[test]
fn traversal_has_no_gap() {
    let cells = grid_raycast(&Ray::new(-37, 12, 140, -95), 7);
    assert_eq!(cells[0], (-6, 1));
    assert_eq!(cells[cells.len() - 1], (20, -14));
    assert_eq!(cells.len(), 26 + 15 + 1);
    for pair in cells.windows(2) {
        let dx = (pair[0].0 - pair[1].0).abs();
        let dy = (pair[0].1 - pair[1].1).abs();
        assert_eq!(dx + dy, 1);
    }
}
