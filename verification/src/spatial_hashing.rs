//! A uniform grid of buckets: each cell lists the items whose region meets it.

use vstd::prelude::*;
use std::collections::HashMap;
use crate::location::{cell_of, in_grid, Location};

verus! {

/// The number under which the bucket of cell `(x, y)` is stored: the two
/// indices, shifted to be non-negative, side by side.
pub open spec fn cell_key(x: int, y: int) -> int {
    (x + 0x8000_0000) * 0x1_0000_0000 + (y + 0x8000_0000)
}

pub(crate) fn key_of(x: i32, y: i32) -> (key: u64)
    ensures
        key == cell_key(x as int, y as int),
{
    let hi: u64 = (x as i64 + 0x8000_0000) as u64;
    let lo: u64 = (y as i64 + 0x8000_0000) as u64;
    hi * 0x1_0000_0000 + lo
}

/// A spatial index over item identifiers.
pub struct SpatialHashing {
    unit: u32,
    cells: HashMap<u64, Vec<usize>>,
}

impl SpatialHashing {
    /// Side of a cell.
    pub closed spec fn spec_unit(&self) -> int {
        self.unit as int
    }

    /// The items recorded in cell `(x, y)`, oldest first.
    pub closed spec fn bucket(&self, x: int, y: int) -> Seq<usize> {
        if in_grid(x, y) && self.cells@.contains_key(cell_key(x, y) as u64) {
            self.cells@[cell_key(x, y) as u64]@
        } else {
            Seq::empty()
        }
    }

    pub open spec fn wf(&self) -> bool {
        self.spec_unit() > 0
    }

    /// No cell holds anything.
    pub open spec fn is_empty(&self) -> bool {
        forall|x: int, y: int| #[trigger] self.bucket(x, y) == Seq::<usize>::empty()
    }

    /// The buckets of column `x` from row `y0` up to row `y1`, in that order.
    pub open spec fn column(&self, x: int, y0: int, y1: int) -> Seq<usize>
        decreases y1 - y0 + 1,
    {
        if y1 < y0 {
            Seq::empty()
        } else {
            self.column(x, y0, y1 - 1) + self.bucket(x, y1)
        }
    }

    /// The buckets of the columns `x0` to `x1`, each from row `y0` to `y1`.
    pub open spec fn block(&self, x0: int, x1: int, y0: int, y1: int) -> Seq<usize>
        decreases x1 - x0 + 1,
    {
        if x1 < x0 {
            Seq::empty()
        } else {
            self.block(x0, x1 - 1, y0, y1) + self.column(x1, y0, y1)
        }
    }

    /// Everything recorded in the cells that `loc` covers, column by column.
    /// An item recorded in several of those cells occurs once for each.
    pub open spec fn region(&self, loc: Location) -> Seq<usize> {
        let u = self.spec_unit();
        self.block(loc.min_x(u), loc.max_x(u), loc.min_y(u), loc.max_y(u))
    }

    /// An empty index with cells of side `unit`.
    pub fn new(unit: u32) -> (grid: SpatialHashing)
        requires
            unit > 0,
        ensures
            grid.wf(),
            grid.spec_unit() == unit,
            grid.is_empty(),
    {
        SpatialHashing { unit, cells: HashMap::new() }
    }

    pub fn unit(&self) -> (unit: u32)
        ensures
            unit == self.spec_unit(),
    {
        self.unit
    }

    fn push_at(&mut self, x: i32, y: i32, id: usize)
        ensures
            final(self).spec_unit() == old(self).spec_unit(),
            final(self).bucket(x as int, y as int) == old(self).bucket(x as int, y as int).push(id),
            forall|i: int, j: int|
                (i != x || j != y) ==> #[trigger] final(self).bucket(i, j) == old(self).bucket(
                    i,
                    j,
                ),
    {
        broadcast use vstd::std_specs::hash::group_hash_axioms;

        let key = key_of(x, y);
        let mut items = match self.cells.remove(&key) {
            Some(found) => found,
            None => Vec::new(),
        };
        items.push(id);
        self.cells.insert(key, items);
        assert(final(self).bucket(x as int, y as int) =~= old(self).bucket(x as int, y as int).push(id));
    }

    /// Records `id` in every cell that `loc` covers.
    pub fn insert_locally(&mut self, loc: &Location, id: usize)
        requires
            old(self).wf(),
        ensures
            final(self).wf(),
            final(self).spec_unit() == old(self).spec_unit(),
            forall|x: int, y: int|
                #[trigger] final(self).bucket(x, y) == if loc.covers(old(self).spec_unit(), x, y) {
                    old(self).bucket(x, y).push(id)
                } else {
                    old(self).bucket(x, y)
                },
    {
        let x0 = cell_of(loc.left, self.unit);
        let x1 = cell_of(loc.right, self.unit);
        let y0 = cell_of(loc.down, self.unit);
        let y1 = cell_of(loc.up, self.unit);
        let ghost u = self.spec_unit();
        let mut x: i64 = x0 as i64;
        while x <= x1 as i64
            invariant
                x0 <= x <= x1 + 1 || (x1 < x0 && x == x0),
                u > 0,
                self.spec_unit() == u,
                u == old(self).spec_unit(),
                x0 == loc.min_x(u),
                x1 == loc.max_x(u),
                y0 == loc.min_y(u),
                y1 == loc.max_y(u),
                forall|i: int, j: int|
                    #[trigger] self.bucket(i, j) == if loc.covers(u, i, j) && i < x {
                        old(self).bucket(i, j).push(id)
                    } else {
                        old(self).bucket(i, j)
                    },
            decreases x1 - x + 1,
        {
            let mut y: i64 = y0 as i64;
            while y <= y1 as i64
                invariant
                    x0 <= x <= x1,
                    y0 <= y <= y1 + 1 || (y1 < y0 && y == y0),
                    u > 0,
                    self.spec_unit() == u,
                    u == old(self).spec_unit(),
                    x0 == loc.min_x(u),
                    x1 == loc.max_x(u),
                    y0 == loc.min_y(u),
                    y1 == loc.max_y(u),
                    forall|i: int, j: int|
                        #[trigger] self.bucket(i, j) == if loc.covers(u, i, j) && (i < x || (i == x
                            && j < y)) {
                            old(self).bucket(i, j).push(id)
                        } else {
                            old(self).bucket(i, j)
                        },
                decreases y1 - y + 1,
            {
                self.push_at(x as i32, y as i32, id);
                y += 1;
            }
            x += 1;
        }
    }

    /// The items recorded in the cell `index`, oldest first.
    pub fn get_on_index(&self, index: &[i32; 2]) -> (items: Vec<usize>)
        ensures
            items@ == self.bucket(index[0] as int, index[1] as int),
    {
        self.get_at(index[0], index[1])
    }

    pub(crate) fn get_at(&self, x: i32, y: i32) -> (items: Vec<usize>)
        ensures
            items@ == self.bucket(x as int, y as int),
    {
        broadcast use vstd::std_specs::hash::group_hash_axioms;

        let key = key_of(x, y);
        match self.cells.get(&key) {
            Some(found) => found.clone(),
            None => Vec::new(),
        }
    }

    /// Everything recorded in the cells that `loc` covers.
    pub fn get_locally(&self, loc: &Location) -> (items: Vec<usize>)
        requires
            self.wf(),
        ensures
            items@ == self.region(*loc),
    {
        let x0 = cell_of(loc.left, self.unit);
        let x1 = cell_of(loc.right, self.unit);
        let y0 = cell_of(loc.down, self.unit);
        let y1 = cell_of(loc.up, self.unit);
        let mut items: Vec<usize> = Vec::new();
        let mut x: i64 = x0 as i64;
        while x <= x1 as i64
            invariant
                x0 <= x <= x1 + 1 || (x1 < x0 && x == x0),
                items@ == self.block(x0 as int, x - 1, y0 as int, y1 as int),
            decreases x1 - x + 1,
        {
            let ghost before = items@;
            let mut y: i64 = y0 as i64;
            while y <= y1 as i64
                invariant
                    x0 <= x <= x1,
                    y0 <= y <= y1 + 1 || (y1 < y0 && y == y0),
                    items@ == before + self.column(x as int, y0 as int, y - 1),
                decreases y1 - y + 1,
            {
                let mut found = self.get_at(x as i32, y as i32);
                items.append(&mut found);
                assert(items@ =~= before + self.column(x as int, y0 as int, y as int));
                y += 1;
            }
            x += 1;
        }
        items
    }

    /// Empties every cell.
    pub fn clear(&mut self)
        ensures
            final(self).spec_unit() == old(self).spec_unit(),
            final(self).is_empty(),
    {
        self.cells.clear();
    }
}

impl SpatialHashing {
    /// Every recorded item is an identifier from `1` to `count`.
    pub open spec fn within(&self, count: int) -> bool {
        forall|x: int, y: int, i: int|
            0 <= i < self.bucket(x, y).len() ==> 1 <= #[trigger] self.bucket(x, y)[i] <= count
    }

    /// `self` is `before` with `id` recorded in every cell that `loc` covers.
    pub open spec fn is_insertion(&self, before: SpatialHashing, loc: Location, id: usize) -> bool {
        &&& self.spec_unit() == before.spec_unit()
        &&& forall|x: int, y: int|
            #[trigger] self.bucket(x, y) == if loc.covers(before.spec_unit(), x, y) {
                before.bucket(x, y).push(id)
            } else {
                before.bucket(x, y)
            }
    }

    /// What a column lists comes from one of its cells, and what a cell of
    /// the column holds is listed.
    pub proof fn lemma_column_members(&self, x: int, y0: int, y1: int, id: usize)
        ensures
            self.column(x, y0, y1).contains(id) <==> exists|y: int|
                y0 <= y <= y1 && #[trigger] self.bucket(x, y).contains(id),
        decreases y1 - y0 + 1,
    {
        if y1 >= y0 {
            self.lemma_column_members(x, y0, y1 - 1, id);
            let rest = self.column(x, y0, y1 - 1);
            let last = self.bucket(x, y1);
            if self.column(x, y0, y1).contains(id) {
                let k = choose|k: int|
                    0 <= k < (rest + last).len() && (rest + last)[k] == id;
                if k < rest.len() {
                    assert(rest[k] == id);
                    assert(rest.contains(id));
                } else {
                    assert(last[k - rest.len()] == id);
                    assert(last.contains(id));
                }
            }
            if exists|y: int| y0 <= y <= y1 && #[trigger] self.bucket(x, y).contains(id) {
                let y = choose|y: int| y0 <= y <= y1 && #[trigger] self.bucket(x, y).contains(id);
                if y == y1 {
                    let k = choose|k: int| 0 <= k < last.len() && last[k] == id;
                    assert((rest + last)[rest.len() + k] == id);
                } else {
                    assert(rest.contains(id));
                    let k = choose|k: int| 0 <= k < rest.len() && rest[k] == id;
                    assert((rest + last)[k] == id);
                }
            }
        }
    }

    /// What a block lists comes from one of its cells, and what a cell of the
    /// block holds is listed.
    pub proof fn lemma_block_members(&self, x0: int, x1: int, y0: int, y1: int, id: usize)
        ensures
            self.block(x0, x1, y0, y1).contains(id) <==> exists|x: int, y: int|
                x0 <= x <= x1 && y0 <= y <= y1 && #[trigger] self.bucket(x, y).contains(id),
        decreases x1 - x0 + 1,
    {
        if x1 >= x0 {
            self.lemma_block_members(x0, x1 - 1, y0, y1, id);
            self.lemma_column_members(x1, y0, y1, id);
            let rest = self.block(x0, x1 - 1, y0, y1);
            let last = self.column(x1, y0, y1);
            if self.block(x0, x1, y0, y1).contains(id) {
                let k = choose|k: int|
                    0 <= k < (rest + last).len() && (rest + last)[k] == id;
                if k < rest.len() {
                    assert(rest[k] == id);
                    assert(rest.contains(id));
                } else {
                    assert(last[k - rest.len()] == id);
                    assert(last.contains(id));
                }
            }
            if exists|x: int, y: int|
                x0 <= x <= x1 && y0 <= y <= y1 && #[trigger] self.bucket(x, y).contains(id) {
                let (x, y) = choose|x: int, y: int|
                    x0 <= x <= x1 && y0 <= y <= y1 && #[trigger] self.bucket(x, y).contains(id);
                if x == x1 {
                    assert(last.contains(id));
                    let k = choose|k: int| 0 <= k < last.len() && last[k] == id;
                    assert((rest + last)[rest.len() + k] == id);
                } else {
                    assert(rest.contains(id));
                    let k = choose|k: int| 0 <= k < rest.len() && rest[k] == id;
                    assert((rest + last)[k] == id);
                }
            }
        }
    }

    /// An item is listed for a region exactly when a cell that the region
    /// covers holds it.
    pub proof fn lemma_region_members(&self, loc: Location, id: usize)
        ensures
            self.region(loc).contains(id) <==> exists|x: int, y: int|
                loc.covers(self.spec_unit(), x, y) && #[trigger] self.bucket(x, y).contains(id),
    {
        let u = self.spec_unit();
        self.lemma_block_members(loc.min_x(u), loc.max_x(u), loc.min_y(u), loc.max_y(u), id);
    }

    /// Identifiers listed for a region obey the bound that holds of the cells.
    pub proof fn lemma_region_within(&self, loc: Location, count: int)
        requires
            self.within(count),
        ensures
            forall|i: int|
                0 <= i < self.region(loc).len() ==> 1 <= #[trigger] self.region(loc)[i] <= count,
    {
        assert forall|i: int| 0 <= i < self.region(loc).len() implies 1
            <= #[trigger] self.region(loc)[i] <= count by {
            let id = self.region(loc)[i];
            assert(self.region(loc).contains(id));
            self.lemma_region_members(loc, id);
            let (x, y) = choose|x: int, y: int|
                loc.covers(self.spec_unit(), x, y) && #[trigger] self.bucket(x, y).contains(id);
            let k = choose|k: int| 0 <= k < self.bucket(x, y).len() && self.bucket(x, y)[k] == id;
            assert(1 <= self.bucket(x, y)[k] <= count);
        }
    }
}

} // verus!
