//! The cells that a ray crosses, in the order in which it crosses them.
//!
//! The walk starts in the cell of the ray's origin and ends in the cell of
//! its end. Each step moves one cell along one axis, toward the end: along
//! `x` if the ray reaches the next vertical cell border no later than the
//! next horizontal one, else along `y`.

use vstd::prelude::*;
use crate::location::{cell_index, cell_of, in_grid, lemma_cell_index_in_range};
use crate::ray::Ray;

verus! {

/// Distance between two numbers.
pub open spec fn span(a: int, b: int) -> int {
    if a <= b {
        b - a
    } else {
        a - b
    }
}

/// One step from `from` in the direction of `to`.
pub open spec fn toward(from: int, to: int) -> int {
    if to > from {
        from + 1
    } else if to < from {
        from - 1
    } else {
        from
    }
}

/// The coordinate of the border through which a walk leaves cell `at` when
/// it heads for cell `goal`.
pub open spec fn border(at: int, goal: int, unit: int) -> int {
    if goal > at {
        (at + 1) * unit
    } else {
        at * unit
    }
}

/// Whether the walk of `ray` leaves the cell `(x, y)` along `x`, on its way
/// to the cell `(ex, ey)`.
pub open spec fn leaves_along_x(ray: Ray, unit: int, x: int, y: int, ex: int, ey: int) -> bool {
    y == ey || (x != ex && span(border(x, ex, unit), ray.x0 as int) * span(
        ray.y0 as int,
        ray.y1 as int,
    ) <= span(border(y, ey, unit), ray.y0 as int) * span(ray.x0 as int, ray.x1 as int))
}

/// The cells of the walk of `ray` from `(x, y)` to `(ex, ey)`.
pub open spec fn walk(ray: Ray, unit: int, x: int, y: int, ex: int, ey: int) -> Seq<(i32, i32)>
    decreases span(x, ex) + span(y, ey),
{
    if x == ex && y == ey {
        seq![(x as i32, y as i32)]
    } else if leaves_along_x(ray, unit, x, y, ex, ey) {
        seq![(x as i32, y as i32)] + walk(ray, unit, toward(x, ex), y, ex, ey)
    } else {
        seq![(x as i32, y as i32)] + walk(ray, unit, x, toward(y, ey), ex, ey)
    }
}

/// The cells that `ray` crosses on a grid with cells of side `unit`.
pub open spec fn traversal(ray: Ray, unit: int) -> Seq<(i32, i32)> {
    walk(
        ray,
        unit,
        cell_index(ray.x0 as int, unit),
        cell_index(ray.y0 as int, unit),
        cell_index(ray.x1 as int, unit),
        cell_index(ray.y1 as int, unit),
    )
}

/// Two cells share a side.
pub open spec fn adjacent(a: (i32, i32), b: (i32, i32)) -> bool {
    span(a.0 as int, b.0 as int) + span(a.1 as int, b.1 as int) == 1
}

/// A walk starts and ends where it should, has no gap, and is as short as a
/// walk between its two ends can be.
pub proof fn lemma_walk_shape(ray: Ray, unit: int, x: int, y: int, ex: int, ey: int)
    requires
        in_grid(x, y),
        in_grid(ex, ey),
    ensures
        walk(ray, unit, x, y, ex, ey).len() == span(x, ex) + span(y, ey) + 1,
        walk(ray, unit, x, y, ex, ey).first() == (x as i32, y as i32),
        walk(ray, unit, x, y, ex, ey).last() == (ex as i32, ey as i32),
        forall|k: int|
            0 <= k < walk(ray, unit, x, y, ex, ey).len() - 1 ==> adjacent(
                #[trigger] walk(ray, unit, x, y, ex, ey)[k],
                walk(ray, unit, x, y, ex, ey)[k + 1],
            ),
    decreases span(x, ex) + span(y, ey),
{
    let all = walk(ray, unit, x, y, ex, ey);
    if x == ex && y == ey {
    } else {
        let (nx, ny) = if leaves_along_x(ray, unit, x, y, ex, ey) {
            (toward(x, ex), y)
        } else {
            (x, toward(y, ey))
        };
        lemma_walk_shape(ray, unit, nx, ny, ex, ey);
        let rest = walk(ray, unit, nx, ny, ex, ey);
        assert(all == seq![(x as i32, y as i32)] + rest);
        assert(all[0] == (x as i32, y as i32));
        assert(all.last() == rest.last());
        assert forall|k: int| 0 <= k < all.len() - 1 implies adjacent(
            #[trigger] all[k],
            all[k + 1],
        ) by {
            if k == 0 {
                assert(all[1] == rest[0]);
            } else {
                assert(all[k] == rest[k - 1]);
                assert(all[k + 1] == rest[k]);
            }
        }
    }
}

/// The traversal of a ray runs from the cell of its origin to the cell of its
/// end without a gap.
pub proof fn lemma_traversal_shape(ray: Ray, unit: int)
    requires
        unit > 0,
    ensures
        traversal(ray, unit).len() > 0,
        traversal(ray, unit).first() == (
            cell_index(ray.x0 as int, unit) as i32,
            cell_index(ray.y0 as int, unit) as i32,
        ),
        traversal(ray, unit).last() == (
            cell_index(ray.x1 as int, unit) as i32,
            cell_index(ray.y1 as int, unit) as i32,
        ),
        forall|k: int|
            0 <= k < traversal(ray, unit).len() - 1 ==> adjacent(
                #[trigger] traversal(ray, unit)[k],
                traversal(ray, unit)[k + 1],
            ),
{
    lemma_cell_index_in_range(ray.x0 as int, unit);
    lemma_cell_index_in_range(ray.y0 as int, unit);
    lemma_cell_index_in_range(ray.x1 as int, unit);
    lemma_cell_index_in_range(ray.y1 as int, unit);
    lemma_walk_shape(
        ray,
        unit,
        cell_index(ray.x0 as int, unit),
        cell_index(ray.y0 as int, unit),
        cell_index(ray.x1 as int, unit),
        cell_index(ray.y1 as int, unit),
    );
}

fn gap(a: i128, b: i128) -> (d: i128)
    requires
        -0x8000_0000_0000_0000 <= a <= 0x8000_0000_0000_0000,
        -0x8000_0000_0000_0000 <= b <= 0x8000_0000_0000_0000,
    ensures
        d == span(a as int, b as int),
{
    if a <= b {
        b - a
    } else {
        a - b
    }
}

fn border_of(at: i32, goal: i32, unit: u32) -> (edge: i128)
    ensures
        edge == border(at as int, goal as int, unit as int),
        -0x8000_0000_0000_0000 <= edge <= 0x8000_0000_0000_0000,
{
    assert(-0x8000_0000_0000_0000 <= (at + 1) * unit <= 0x8000_0000_0000_0000) by (nonlinear_arith)
        requires
            -0x8000_0000 <= at < 0x8000_0000,
            0 <= unit < 0x1_0000_0000,
    ;
    assert(-0x8000_0000_0000_0000 <= at * unit <= 0x8000_0000_0000_0000) by (nonlinear_arith)
        requires
            -0x8000_0000 <= at < 0x8000_0000,
            0 <= unit < 0x1_0000_0000,
    ;
    if goal > at {
        (at as i128 + 1) * (unit as i128)
    } else {
        (at as i128) * (unit as i128)
    }
}

fn leaves_x(ray: &Ray, unit: u32, x: i32, y: i32, ex: i32, ey: i32) -> (along_x: bool)
    ensures
        along_x == leaves_along_x(*ray, unit as int, x as int, y as int, ex as int, ey as int),
{
    if y == ey {
        return true;
    }
    if x == ex {
        return false;
    }
    let to_x = gap(border_of(x, ex, unit), ray.x0 as i128);
    let to_y = gap(border_of(y, ey, unit), ray.y0 as i128);
    let run = gap(ray.x0 as i128, ray.x1 as i128);
    let rise = gap(ray.y0 as i128, ray.y1 as i128);
    assert(0 <= to_x * rise <= 0x2_0000_0000_0000_0000_0000_0000) by (nonlinear_arith)
        requires
            0 <= to_x <= 0x1_0000_0000_0000_0000,
            0 <= rise <= 0x1_0000_0000,
    ;
    assert(0 <= to_y * run <= 0x2_0000_0000_0000_0000_0000_0000) by (nonlinear_arith)
        requires
            0 <= to_y <= 0x1_0000_0000_0000_0000,
            0 <= run <= 0x1_0000_0000,
    ;
    to_x * rise <= to_y * run
}

/// Lists the cells that `ray` crosses, from the cell of its origin to the
/// cell of its end.
pub fn grid_raycast(ray: &Ray, unit: u32) -> (cells: Vec<(i32, i32)>)
    requires
        unit > 0,
    ensures
        cells@ == traversal(*ray, unit as int),
        cells.len() > 0,
        cells@.first() == (cell_index(ray.x0 as int, unit as int) as i32, cell_index(
            ray.y0 as int,
            unit as int,
        ) as i32),
        cells@.last() == (cell_index(ray.x1 as int, unit as int) as i32, cell_index(
            ray.y1 as int,
            unit as int,
        ) as i32),
        forall|k: int| 0 <= k < cells.len() - 1 ==> adjacent(#[trigger] cells@[k], cells@[k + 1]),
{
    proof {
        lemma_traversal_shape(*ray, unit as int);
    }
    let ex = cell_of(ray.x1, unit);
    let ey = cell_of(ray.y1, unit);
    let mut x = cell_of(ray.x0, unit);
    let mut y = cell_of(ray.y0, unit);
    let mut cells: Vec<(i32, i32)> = Vec::new();
    while x != ex || y != ey
        invariant
            cells@ + walk(*ray, unit as int, x as int, y as int, ex as int, ey as int)
                == traversal(*ray, unit as int),
            ex == cell_index(ray.x1 as int, unit as int),
            ey == cell_index(ray.y1 as int, unit as int),
        decreases span(x as int, ex as int) + span(y as int, ey as int),
    {
        let ghost before = cells@;
        let ghost rest = walk(*ray, unit as int, x as int, y as int, ex as int, ey as int);
        cells.push((x, y));
        if leaves_x(ray, unit, x, y, ex, ey) {
            if ex > x {
                x += 1;
            } else {
                x -= 1;
            }
        } else {
            if ey > y {
                y += 1;
            } else {
                y -= 1;
            }
        }
        assert(cells@ + walk(*ray, unit as int, x as int, y as int, ex as int, ey as int)
            =~= before + rest);
    }
    let ghost before = cells@;
    cells.push((x, y));
    assert(cells@ =~= before + walk(*ray, unit as int, x as int, y as int, ex as int, ey as int));
    cells
}

} // verus!
