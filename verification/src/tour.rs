//! Tours: closed cyclic orderings of the city set, scored by total distance.
//!
//! A tour holds an ordering of indices into the city set, together with its
//! total cyclic distance; the total is always the recomputed sum of the
//! consecutive-edge distances plus the wrap-around edge, never a stale cache.

use vstd::prelude::*;
use crate::city::{City, city_ok, dist_spec, distance, DIST_MAX};

verus! {

/// Largest number of cities the engine accepts; keeps every distance sum
/// representable in a `u64`.
pub const MAX_CITIES: usize = 1_000_000;

/// Every city of the set lies on the metric's grid.
pub open spec fn cities_ok(cs: Seq<City>) -> bool {
    forall|i: int| 0 <= i < cs.len() ==> city_ok(#[trigger] cs[i])
}

/// Every entry of `ord` indexes into a city set of size `n`.
pub open spec fn ord_in_range(ord: Seq<usize>, n: nat) -> bool {
    forall|i: int| 0 <= i < ord.len() ==> (#[trigger] ord[i]) < n
}

/// `ord` is a permutation of the indices `0 .. n`: it visits every city
/// exactly once.
pub open spec fn is_perm(ord: Seq<usize>, n: nat) -> bool {
    &&& ord.len() == n
    &&& ord_in_range(ord, n)
    &&& ord.no_duplicates()
}

/// Sum of the consecutive-edge distances along `ord` (no wrap-around).
pub open spec fn path_dist(cs: Seq<City>, ord: Seq<usize>) -> int
    decreases ord.len(),
{
    if ord.len() < 2 {
        0
    } else {
        path_dist(cs, ord.drop_last()) + dist_spec(
            cs[ord[ord.len() - 2] as int],
            cs[ord[ord.len() - 1] as int],
        )
    }
}

/// Total distance of the closed cycle through `ord`: the path plus the edge
/// from the last city back to the first.
pub open spec fn cycle_dist(cs: Seq<City>, ord: Seq<usize>) -> int {
    path_dist(cs, ord) + dist_spec(cs[ord[0] as int], cs[ord[ord.len() - 1] as int])
}

/// An ordering of all cities together with its total cyclic distance.
pub struct Tour {
    pub order: Vec<usize>,
    pub total: u64,
}

/// A well-formed tour: its ordering is a permutation of the whole city set
/// and its total equals the recomputed cyclic distance.
pub open spec fn tour_wf(t: Tour, cs: Seq<City>) -> bool {
    &&& is_perm(t.order@, cs.len())
    &&& t.total as int == cycle_dist(cs, t.order@)
}

/// A path's distance is nonnegative and at most one `DIST_MAX` per edge.
pub proof fn lemma_path_dist_bound(cs: Seq<City>, ord: Seq<usize>)
    requires
        cities_ok(cs),
        ord_in_range(ord, cs.len()),
        ord.len() >= 1,
    ensures
        0 <= path_dist(cs, ord) <= (ord.len() - 1) * DIST_MAX,
    decreases ord.len(),
{
    if ord.len() < 2 {
    } else {
        lemma_path_dist_bound(cs, ord.drop_last());
        crate::city::lemma_dist_in_range(
            cs[ord[ord.len() - 2] as int],
            cs[ord[ord.len() - 1] as int],
        );
        assert((ord.len() - 2) * DIST_MAX + DIST_MAX == (ord.len() - 1) * DIST_MAX)
            by (nonlinear_arith);
    }
}

/// A cycle's distance is nonnegative and at most one `DIST_MAX` per edge.
pub proof fn lemma_cycle_dist_bound(cs: Seq<City>, ord: Seq<usize>)
    requires
        cities_ok(cs),
        ord_in_range(ord, cs.len()),
        ord.len() >= 1,
    ensures
        0 <= cycle_dist(cs, ord) <= ord.len() * DIST_MAX,
{
    lemma_path_dist_bound(cs, ord);
    crate::city::lemma_dist_in_range(cs[ord[0] as int], cs[ord[ord.len() - 1] as int]);
    assert((ord.len() - 1) * DIST_MAX + DIST_MAX == ord.len() * DIST_MAX) by (nonlinear_arith);
}

/// Build the tour over `ord`, recomputing its total cyclic distance.
pub fn tour_from(cs: &Vec<City>, ord: Vec<usize>) -> (t: Tour)
    requires
        cities_ok(cs@),
        2 <= cs@.len() <= MAX_CITIES,
        ord_in_range(ord@, cs@.len()),
        ord@.len() == cs@.len(),
    ensures
        t.order@ == ord@,
        t.total as int == cycle_dist(cs@, ord@),
{
    let n = ord.len();
    let mut acc: u64 = 0;
    let mut i: usize = 1;
    proof {
        assert(ord@.subrange(0, 1).len() == 1);
    }
    while i < n
        invariant
            1 <= i <= n,
            n == ord@.len(),
            n == cs@.len(),
            2 <= n <= MAX_CITIES,
            cities_ok(cs@),
            ord_in_range(ord@, cs@.len()),
            acc as int == path_dist(cs@, ord@.subrange(0, i as int)),
            acc as int <= (i - 1) * DIST_MAX,
        decreases n - i,
    {
        let d = distance(&cs[ord[i - 1]], &cs[ord[i]]);
        proof {
            let pre = ord@.subrange(0, i as int);
            let post = ord@.subrange(0, i + 1 as int);
            assert(post.drop_last() =~= pre);
            assert(post[post.len() - 2] == ord@[i - 1] && post[post.len() - 1] == ord@[i as int]);
            assert((i - 1) * DIST_MAX + DIST_MAX == i * DIST_MAX) by (nonlinear_arith);
        }
        acc = acc + d;
        i = i + 1;
    }
    proof {
        assert(ord@.subrange(0, n as int) =~= ord@);
    }
    let closing = distance(&cs[ord[0]], &cs[ord[n - 1]]);
    proof {
        crate::city::lemma_distance_symmetric(cs@[ord@[0] as int], cs@[ord@[n - 1] as int]);
        lemma_path_dist_bound(cs@, ord@);
        assert((n - 1) * DIST_MAX + DIST_MAX == n * DIST_MAX) by (nonlinear_arith);
        assert(n * DIST_MAX <= 1_000_000 * 3_000_000_000) by (nonlinear_arith)
            requires
                n <= 1_000_000,
        ;
    }
    let total = acc + closing;
    Tour { order: ord, total }
}

} // verus!
