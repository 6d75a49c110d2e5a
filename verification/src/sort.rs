//! Ordering the hits of one cell by their near distance.

use vstd::prelude::*;
use crate::ray::RayHit;

verus! {

/// Near distances never decrease along the sequence.
pub open spec fn ascending(hits: Seq<RayHit>) -> bool {
    forall|i: int, j: int| 0 <= i < j < hits.len() ==> hits[i].near <= hits[j].near
}

/// `sorted` with `hit` placed behind every entry whose near distance is not
/// greater than its own.
pub open spec fn placed(sorted: Seq<RayHit>, hit: RayHit) -> Seq<RayHit>
    decreases sorted.len(),
{
    if sorted.len() == 0 {
        seq![hit]
    } else if sorted.last().near <= hit.near {
        sorted.push(hit)
    } else {
        placed(sorted.drop_last(), hit).push(sorted.last())
    }
}

/// The hits in ascending order of near distance; hits with equal near
/// distances keep the order they came in.
pub open spec fn sorted_by_near(hits: Seq<RayHit>) -> Seq<RayHit>
    decreases hits.len(),
{
    if hits.len() == 0 {
        hits
    } else {
        placed(sorted_by_near(hits.drop_last()), hits.last())
    }
}

/// Placing a hit is inserting it at the position that separates the entries
/// with a greater near distance from the others.
pub proof fn lemma_placed_at(sorted: Seq<RayHit>, hit: RayHit, at: int)
    requires
        0 <= at <= sorted.len(),
        forall|k: int| at <= k < sorted.len() ==> sorted[k].near > hit.near,
        at == 0 || sorted[at - 1].near <= hit.near,
    ensures
        placed(sorted, hit) == sorted.insert(at, hit),
    decreases sorted.len(),
{
    if sorted.len() == 0 {
        assert(seq![hit] =~= sorted.insert(at, hit));
    } else if at == sorted.len() {
        assert(sorted.push(hit) =~= sorted.insert(at, hit));
    } else {
        lemma_placed_at(sorted.drop_last(), hit, at);
        assert(sorted.drop_last().insert(at, hit).push(sorted.last()) =~= sorted.insert(at, hit));
    }
}

/// Placing a hit into an ascending sequence keeps it ascending and adds
/// exactly that hit.
pub proof fn lemma_placed_ascending(sorted: Seq<RayHit>, hit: RayHit)
    requires
        ascending(sorted),
    ensures
        ascending(placed(sorted, hit)),
        placed(sorted, hit).to_multiset() == sorted.to_multiset().insert(hit),
        placed(sorted, hit).len() == sorted.len() + 1,
    decreases sorted.len(),
{
    broadcast use vstd::seq_lib::group_to_multiset_ensures;

    if sorted.len() == 0 {
        assert(seq![hit] =~= Seq::<RayHit>::empty().push(hit));
        assert(sorted =~= Seq::<RayHit>::empty());
    } else if sorted.last().near <= hit.near {
    } else {
        let front = sorted.drop_last();
        lemma_placed_ascending(front, hit);
        let put = placed(front, hit);
        let all = put.push(sorted.last());
        assert(sorted =~= front.push(sorted.last()));
        assert forall|i: int, j: int| 0 <= i < j < all.len() implies all[i].near
            <= all[j].near by {
            if j == all.len() - 1 {
                // every entry of `put` is `hit` or an entry of `front`
                assert(put.to_multiset().count(put[i]) > 0);
                if put[i] != hit {
                    assert(front.to_multiset().count(put[i]) > 0);
                    assert(front.contains(put[i]));
                    let k = choose|k: int| 0 <= k < front.len() && front[k] == put[i];
                    assert(sorted[k].near <= sorted[sorted.len() - 1].near);
                }
            }
        }
    }
}

/// Sorting yields an ascending sequence with the same hits.
pub proof fn lemma_sorted_by_near(hits: Seq<RayHit>)
    ensures
        ascending(sorted_by_near(hits)),
        sorted_by_near(hits).to_multiset() == hits.to_multiset(),
        sorted_by_near(hits).len() == hits.len(),
    decreases hits.len(),
{
    broadcast use vstd::seq_lib::group_to_multiset_ensures;

    if hits.len() > 0 {
        lemma_sorted_by_near(hits.drop_last());
        lemma_placed_ascending(sorted_by_near(hits.drop_last()), hits.last());
        assert(hits =~= hits.drop_last().push(hits.last()));
    }
}

/// Sorts the hits by near distance, ascending; hits with equal near
/// distances keep their order.
pub fn sort_by_near(hits: Vec<RayHit>) -> (sorted: Vec<RayHit>)
    ensures
        sorted@ == sorted_by_near(hits@),
        ascending(sorted@),
        sorted@.to_multiset() == hits@.to_multiset(),
{
    proof {
        lemma_sorted_by_near(hits@);
    }
    let mut sorted: Vec<RayHit> = Vec::new();
    let mut i: usize = 0;
    while i < hits.len()
        invariant
            i <= hits.len(),
            sorted@ == sorted_by_near(hits@.take(i as int)),
            sorted.len() == i,
        decreases hits.len() - i,
    {
        let hit = hits[i];
        let mut at: usize = sorted.len();
        while at > 0 && sorted[at - 1].near > hit.near
            invariant
                at <= sorted.len(),
                forall|k: int| at <= k < sorted.len() ==> sorted[k].near > hit.near,
            decreases at,
        {
            at -= 1;
        }
        proof {
            lemma_placed_at(sorted@, hit, at as int);
            assert(hits@.take(i + 1).drop_last() == hits@.take(i as int));
        }
        sorted.insert(at, hit);
        i += 1;
    }
    assert(hits@.take(hits.len() as int) == hits@);
    sorted
}

} // verus!
