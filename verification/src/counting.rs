//! How often an item occurs in a sequence, in a bucket and in a block of
//! buckets.

use vstd::prelude::*;
use crate::location::Location;
use crate::spatial_hashing::SpatialHashing;

verus! {

/// The number of times that `id` occurs in `items`.
pub open spec fn times(items: Seq<usize>, id: usize) -> nat
    decreases items.len(),
{
    if items.len() == 0 {
        0
    } else {
        times(items.drop_last(), id) + if items.last() == id {
            1nat
        } else {
            0nat
        }
    }
}

/// An item occurs no time in a sequence exactly when the sequence lacks it.
pub proof fn lemma_times_zero(items: Seq<usize>, id: usize)
    ensures
        times(items, id) == 0 <==> !items.contains(id),
    decreases items.len(),
{
    if items.len() > 0 {
        let front = items.drop_last();
        lemma_times_zero(front, id);
        if items.contains(id) {
            let k = choose|k: int| 0 <= k < items.len() && items[k] == id;
            if k < front.len() {
                assert(front[k] == id);
            }
        }
        if front.contains(id) {
            let k = choose|k: int| 0 <= k < front.len() && front[k] == id;
            assert(items[k] == id);
        }
        if items.last() == id {
            assert(items[items.len() - 1] == id);
        }
    }
}

/// Occurrences add up over a concatenation.
pub proof fn lemma_times_add(a: Seq<usize>, b: Seq<usize>, id: usize)
    ensures
        times(a + b, id) == times(a, id) + times(b, id),
    decreases b.len(),
{
    if b.len() == 0 {
        assert(a + b =~= a);
    } else {
        lemma_times_add(a, b.drop_last(), id);
        assert((a + b).drop_last() =~= a + b.drop_last());
    }
}

/// A filter keeps every occurrence of an item that passes it and none of an
/// item that fails it.
pub proof fn lemma_times_filter(items: Seq<usize>, test: spec_fn(usize) -> bool, id: usize)
    ensures
        times(items.filter(test), id) == if test(id) {
            times(items, id)
        } else {
            0
        },
    decreases items.len(),
{
    reveal(Seq::filter);
    if items.len() > 0 {
        lemma_times_filter(items.drop_last(), test, id);
        let kept = items.drop_last().filter(test);
        if test(items.last()) {
            assert(kept.push(items.last()).drop_last() =~= kept);
        }
    }
}

/// An item of a sequence without repetition occurs once in each prefix that
/// reaches it and in no prefix that stops before it.
pub proof fn lemma_times_prefix(list: Seq<usize>, at: int, upto: int)
    requires
        list.no_duplicates(),
        0 <= at < list.len(),
        0 <= upto <= list.len(),
    ensures
        times(list.take(upto), list[at]) == if at < upto {
            1nat
        } else {
            0nat
        },
    decreases upto,
{
    if upto > 0 {
        lemma_times_prefix(list, at, upto - 1);
        assert(list.take(upto).drop_last() =~= list.take(upto - 1));
        assert(list.take(upto).last() == list[upto - 1]);
    }
}

impl SpatialHashing {
    /// Within one column, an item held by a single cell occurs as often in
    /// the column as in that cell.
    pub proof fn lemma_column_times(&self, x: int, y0: int, y1: int, cy: int, id: usize)
        requires
            forall|y: int| y0 <= y <= y1 && y != cy ==> times(#[trigger] self.bucket(x, y), id) == 0,
        ensures
            times(self.column(x, y0, y1), id) == if y0 <= cy <= y1 {
                times(self.bucket(x, cy), id)
            } else {
                0
            },
        decreases y1 - y0 + 1,
    {
        if y1 >= y0 {
            self.lemma_column_times(x, y0, y1 - 1, cy, id);
            lemma_times_add(self.column(x, y0, y1 - 1), self.bucket(x, y1), id);
            if y1 != cy {
                assert(times(self.bucket(x, y1), id) == 0);
            }
        }
    }

    /// Within a block, an item held by a single cell occurs as often in the
    /// block as in that cell.
    pub proof fn lemma_block_times(
        &self,
        x0: int,
        x1: int,
        y0: int,
        y1: int,
        cx: int,
        cy: int,
        id: usize,
    )
        requires
            forall|x: int, y: int|
                x0 <= x <= x1 && y0 <= y <= y1 && (x != cx || y != cy) ==> times(
                    #[trigger] self.bucket(x, y),
                    id,
                ) == 0,
        ensures
            times(self.block(x0, x1, y0, y1), id) == if x0 <= cx <= x1 && y0 <= cy <= y1 {
                times(self.bucket(cx, cy), id)
            } else {
                0
            },
        decreases x1 - x0 + 1,
    {
        if x1 >= x0 {
            self.lemma_block_times(x0, x1 - 1, y0, y1, cx, cy, id);
            lemma_times_add(self.block(x0, x1 - 1, y0, y1), self.column(x1, y0, y1), id);
            if x1 == cx {
                self.lemma_column_times(x1, y0, y1, cy, id);
            } else {
                // no cell of this column is the one cell
                self.lemma_column_times(x1, y0, y1, y0 - 1, id);
            }
        }
    }

    /// Around a region, an item held by a single cell that the region covers
    /// occurs as often as in that cell.
    pub proof fn lemma_region_times(&self, loc: Location, cx: int, cy: int, id: usize)
        requires
            loc.covers(self.spec_unit(), cx, cy),
            forall|x: int, y: int|
                loc.covers(self.spec_unit(), x, y) && (x != cx || y != cy) ==> times(
                    #[trigger] self.bucket(x, y),
                    id,
                ) == 0,
        ensures
            times(self.region(loc), id) == times(self.bucket(cx, cy), id),
    {
        let u = self.spec_unit();
        self.lemma_block_times(loc.min_x(u), loc.max_x(u), loc.min_y(u), loc.max_y(u), cx, cy, id);
    }
}

} // verus!
