//! The construction heuristic: split-sort ordering.
//!
//! The ordering is split at its midpoint; the first half is stably sorted by
//! ascending distance to the first city of the ordering, the second half by
//! ascending distance to the last city of the sorted first half, so the
//! second half begins near where the first half ends.  The concatenation is
//! scored as a closed cycle.

use vstd::prelude::*;
use vstd::seq_lib::lemma_multiset_commutative;
use crate::city::{City, city_ok, dist_spec, distance};
use crate::tour::{Tour, cities_ok, ord_in_range, is_perm, tour_from, tour_wf, MAX_CITIES};

verus! {

/// Sort key of city index `c`: its distance to the anchor city `a`.
pub open spec fn dkey(cs: Seq<City>, a: usize, c: usize) -> int {
    dist_spec(cs[c as int], cs[a as int])
}

/// Stable insertion of `c` into `s`: `c` lands after every element whose key
/// does not exceed its own, so ties keep their original relative order.
pub open spec fn insert_by_dist(cs: Seq<City>, a: usize, s: Seq<usize>, c: usize) -> Seq<usize>
    decreases s.len(),
{
    if s.len() == 0 {
        seq![c]
    } else if dkey(cs, a, s.last()) <= dkey(cs, a, c) {
        s.push(c)
    } else {
        insert_by_dist(cs, a, s.drop_last(), c).push(s.last())
    }
}

/// Stable sort of `s` by ascending distance to the anchor city `a`.
pub open spec fn sort_by_dist(cs: Seq<City>, a: usize, s: Seq<usize>) -> Seq<usize>
    decreases s.len(),
{
    if s.len() == 0 {
        Seq::empty()
    } else {
        insert_by_dist(cs, a, sort_by_dist(cs, a, s.drop_last()), s.last())
    }
}

/// The ordering the construction heuristic produces from `ord`.
pub open spec fn construct_spec(cs: Seq<City>, ord: Seq<usize>) -> Seq<usize> {
    let m = ord.len() as int / 2;
    let h1 = sort_by_dist(cs, ord[0], ord.subrange(0, m));
    let h2 = sort_by_dist(cs, h1[h1.len() - 1], ord.subrange(m, ord.len() as int));
    h1 + h2
}

/// Inserting adds exactly one occurrence of `c` and keeps everything else.
pub proof fn lemma_insert_by_dist_props(cs: Seq<City>, a: usize, s: Seq<usize>, c: usize)
    ensures
        insert_by_dist(cs, a, s, c).len() == s.len() + 1,
        insert_by_dist(cs, a, s, c).to_multiset() == s.to_multiset().insert(c),
    decreases s.len(),
{
    broadcast use vstd::seq_lib::group_to_multiset_ensures;
    broadcast use vstd::multiset::group_multiset_axioms;

    if s.len() == 0 {
        assert(seq![c] =~= Seq::<usize>::empty().push(c));
        assert(Seq::<usize>::empty().push(c).to_multiset() =~= s.to_multiset().insert(c));
    } else if dkey(cs, a, s.last()) <= dkey(cs, a, c) {
    } else {
        lemma_insert_by_dist_props(cs, a, s.drop_last(), c);
        assert(s.drop_last().push(s.last()) =~= s);
        assert(insert_by_dist(cs, a, s.drop_last(), c).push(s.last()).to_multiset() =~= s
            .to_multiset().insert(c)) by {
            assert(s.to_multiset() =~= s.drop_last().to_multiset().insert(s.last()));
        }
    }
}

/// Sorting keeps the length and the multiset of elements.
pub proof fn lemma_sort_by_dist_props(cs: Seq<City>, a: usize, s: Seq<usize>)
    ensures
        sort_by_dist(cs, a, s).len() == s.len(),
        sort_by_dist(cs, a, s).to_multiset() == s.to_multiset(),
    decreases s.len(),
{
    broadcast use vstd::seq_lib::group_to_multiset_ensures;
    broadcast use vstd::multiset::group_multiset_axioms;

    if s.len() == 0 {
    } else {
        lemma_sort_by_dist_props(cs, a, s.drop_last());
        lemma_insert_by_dist_props(cs, a, sort_by_dist(cs, a, s.drop_last()), s.last());
        assert(s.drop_last().push(s.last()) =~= s);
        assert(sort_by_dist(cs, a, s).to_multiset() =~= s.to_multiset());
    }
}

/// A sequence with the same multiset as an in-range one is itself in range.
pub proof fn lemma_in_range_from_multiset(s: Seq<usize>, r: Seq<usize>, n: nat)
    requires
        ord_in_range(s, n),
        r.to_multiset() == s.to_multiset(),
    ensures
        ord_in_range(r, n),
{
    broadcast use vstd::seq_lib::group_to_multiset_ensures;

    assert forall|i: int| 0 <= i < r.len() implies (#[trigger] r[i]) < n by {
        assert(r.contains(r[i]));
        assert(r.to_multiset().count(r[i]) > 0);
        assert(s.contains(r[i]));
    }
}

/// A sequence with the same multiset as a permutation of `0 .. n` is itself
/// such a permutation.
pub proof fn lemma_perm_from_multiset(s: Seq<usize>, r: Seq<usize>, n: nat)
    requires
        is_perm(s, n),
        r.to_multiset() == s.to_multiset(),
    ensures
        is_perm(r, n),
{
    broadcast use vstd::seq_lib::group_to_multiset_ensures;

    lemma_in_range_from_multiset(s, r, n);
    s.lemma_multiset_has_no_duplicates();
    r.lemma_multiset_has_no_duplicates_conv();
    assert(r.to_multiset().len() == r.len());
    assert(s.to_multiset().len() == s.len());
}

/// Insert `c` into the sorted vector `v`, keeping it sorted by distance to
/// the anchor `cs[a]`; equal keys land after their earlier peers.
fn sorted_insert(cs: &Vec<City>, a: usize, v: &mut Vec<usize>, c: usize)
    requires
        cities_ok(cs@),
        a < cs@.len(),
        c < cs@.len(),
        ord_in_range(old(v)@, cs@.len()),
    ensures
        final(v)@ == insert_by_dist(cs@, a, old(v)@, c),
        ord_in_range(final(v)@, cs@.len()),
{
    let key_c = distance(&cs[c], &cs[a]);
    let mut tail: Vec<usize> = Vec::new();
    proof {
        assert(insert_by_dist(cs@, a, old(v)@, c) + tail@.reverse() =~= insert_by_dist(
            cs@,
            a,
            old(v)@,
            c,
        ));
    }
    while v.len() > 0 && distance(&cs[v[v.len() - 1]], &cs[a]) > key_c
        invariant
            cities_ok(cs@),
            a < cs@.len(),
            c < cs@.len(),
            key_c as int == dkey(cs@, a, c),
            ord_in_range(v@, cs@.len()),
            ord_in_range(tail@, cs@.len()),
            insert_by_dist(cs@, a, old(v)@, c) == insert_by_dist(cs@, a, v@, c)
                + tail@.reverse(),
        decreases v.len(),
    {
        let ghost prev = v@;
        let ghost ptail = tail@;
        let t = v.pop().unwrap();
        proof {
            assert(prev.len() > 0 && prev.last() == t);
            assert(v@ =~= prev.drop_last());
            assert(dkey(cs@, a, prev.last()) > dkey(cs@, a, c));
            assert(insert_by_dist(cs@, a, prev, c) == insert_by_dist(cs@, a, v@, c).push(t));
            assert((ptail.push(t)).reverse() =~= seq![t] + ptail.reverse());
            assert(insert_by_dist(cs@, a, v@, c).push(t) + ptail.reverse() =~= insert_by_dist(
                cs@,
                a,
                v@,
                c,
            ) + (seq![t] + ptail.reverse()));
        }
        tail.push(t);
    }
    proof {
        assert(insert_by_dist(cs@, a, v@, c) =~= v@.push(c));
    }
    v.push(c);
    while tail.len() > 0
        invariant
            ord_in_range(v@, cs@.len()),
            ord_in_range(tail@, cs@.len()),
            insert_by_dist(cs@, a, old(v)@, c) == v@ + tail@.reverse(),
        decreases tail.len(),
    {
        let ghost ptail = tail@;
        let t = tail.pop().unwrap();
        proof {
            assert(tail@ =~= ptail.drop_last());
            assert(ptail.reverse() =~= seq![t] + tail@.reverse());
            assert(v@ + (seq![t] + tail@.reverse()) =~= v@.push(t) + tail@.reverse());
        }
        v.push(t);
    }
    proof {
        assert(v@ + tail@.reverse() =~= v@);
    }
}

/// Stable sort of the whole vector by ascending distance to the anchor.
fn sort_vec_by_dist(cs: &Vec<City>, a: usize, src: &Vec<usize>) -> (r: Vec<usize>)
    requires
        cities_ok(cs@),
        a < cs@.len(),
        ord_in_range(src@, cs@.len()),
    ensures
        r@ == sort_by_dist(cs@, a, src@),
        ord_in_range(r@, cs@.len()),
        r@.len() == src@.len(),
{
    let mut r: Vec<usize> = Vec::new();
    let mut i: usize = 0;
    proof {
        assert(src@.subrange(0, 0) =~= Seq::<usize>::empty());
    }
    while i < src.len()
        invariant
            0 <= i <= src@.len(),
            cities_ok(cs@),
            a < cs@.len(),
            ord_in_range(src@, cs@.len()),
            ord_in_range(r@, cs@.len()),
            r@ == sort_by_dist(cs@, a, src@.subrange(0, i as int)),
        decreases src@.len() - i,
    {
        sorted_insert(cs, a, &mut r, src[i]);
        proof {
            let pre = src@.subrange(0, i as int);
            let post = src@.subrange(0, i + 1 as int);
            assert(post.drop_last() =~= pre);
            assert(post.last() == src@[i as int]);
        }
        i = i + 1;
    }
    proof {
        assert(src@.subrange(0, src@.len() as int) =~= src@);
        lemma_sort_by_dist_props(cs@, a, src@);
    }
    r
}

/// Build a tour from an arbitrary ordering of all cities by the split-sort
/// construction heuristic; the result visits the same cities, each once.
pub fn construct(cs: &Vec<City>, ord: &Vec<usize>) -> (t: Tour)
    requires
        cities_ok(cs@),
        2 <= cs@.len() <= MAX_CITIES,
        is_perm(ord@, cs@.len()),
    ensures
        t.order@ == construct_spec(cs@, ord@),
        tour_wf(t, cs@),
{
    let n = ord.len();
    let m = n / 2;
    let a1 = ord[0];

    let mut h1: Vec<usize> = Vec::new();
    let mut i: usize = 0;
    while i < m
        invariant
            0 <= i <= m,
            m == n / 2,
            n == ord@.len(),
            ord_in_range(ord@, cs@.len()),
            h1@ == ord@.subrange(0, i as int),
        decreases m - i,
    {
        h1.push(ord[i]);
        proof {
            assert(ord@.subrange(0, i as int).push(ord@[i as int]) =~= ord@.subrange(
                0,
                i + 1 as int,
            ));
        }
        i = i + 1;
    }
    let mut h2: Vec<usize> = Vec::new();
    let mut j: usize = m;
    while j < n
        invariant
            m <= j <= n,
            m == n / 2,
            n == ord@.len(),
            ord_in_range(ord@, cs@.len()),
            h2@ == ord@.subrange(m as int, j as int),
        decreases n - j,
    {
        h2.push(ord[j]);
        proof {
            assert(ord@.subrange(m as int, j as int).push(ord@[j as int]) =~= ord@.subrange(
                m as int,
                j + 1 as int,
            ));
        }
        j = j + 1;
    }

    let mut s1 = sort_vec_by_dist(cs, a1, &h1);
    let a2 = s1[s1.len() - 1];
    let mut s2 = sort_vec_by_dist(cs, a2, &h2);
    s1.append(&mut s2);

    proof {
        let h1s = ord@.subrange(0, m as int);
        let h2s = ord@.subrange(m as int, n as int);
        assert(s1@ == construct_spec(cs@, ord@));
        lemma_sort_by_dist_props(cs@, ord@[0], h1s);
        lemma_sort_by_dist_props(cs@, a2, h2s);
        lemma_multiset_commutative(sort_by_dist(cs@, ord@[0], h1s), sort_by_dist(cs@, a2, h2s));
        lemma_multiset_commutative(h1s, h2s);
        assert(h1s + h2s =~= ord@);
        assert(s1@.to_multiset() =~= ord@.to_multiset());
        lemma_perm_from_multiset(ord@, s1@, cs@.len());
    }
    tour_from(cs, s1)
}

} // verus!
