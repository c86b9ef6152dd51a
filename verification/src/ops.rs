//! Mutation operators: permutation-producing transformations over a tour's
//! ordering.  Each operator returns a fresh ordering holding the same city
//! indices, none lost and none duplicated; the caller passes the result back
//! through the construction heuristic to obtain the next candidate tour.

use vstd::prelude::*;
use crate::rng::{rand_index, shuffle_order};
use rand::rngs::ThreadRng;

verus! {

/// Swapping two positions keeps the multiset of elements.
pub proof fn lemma_swap_multiset(s: Seq<usize>, i: int, j: int)
    requires
        0 <= i < s.len(),
        0 <= j < s.len(),
        i != j,
    ensures
        s.update(i, s[j]).update(j, s[i]).to_multiset() == s.to_multiset(),
{
    broadcast use vstd::seq_lib::group_to_multiset_ensures;
    broadcast use vstd::multiset::group_multiset_axioms;

    let u1 = s.update(i, s[j]);
    assert(u1.to_multiset() =~= s.to_multiset().remove(s[i]).insert(s[j]));
    assert(u1[j] == s[j]);
    assert(u1.update(j, s[i]).to_multiset() =~= u1.to_multiset().remove(s[j]).insert(s[i]));
    assert(s.to_multiset().contains(s[i]));
    assert(s.to_multiset().remove(s[i]).insert(s[j]).remove(s[j]).insert(s[i]) =~= s.to_multiset());
}

/// Removing an element and inserting it elsewhere keeps the multiset.
pub proof fn lemma_remove_insert_multiset(s: Seq<usize>, i: int, j: int)
    requires
        0 <= i < s.len(),
        0 <= j <= s.len() - 1,
    ensures
        s.remove(i).insert(j, s[i]).to_multiset() == s.to_multiset(),
{
    broadcast use vstd::seq_lib::group_to_multiset_ensures;
    broadcast use vstd::multiset::group_multiset_axioms;

    assert(s.remove(i).to_multiset() =~= s.to_multiset().remove(s[i]));
    assert(s.to_multiset().contains(s[i]));
    assert(s.to_multiset().remove(s[i]).insert(s[i]) =~= s.to_multiset());
}

/// A fresh copy of an ordering.
pub fn copy_order(ord: &Vec<usize>) -> (r: Vec<usize>)
    ensures
        r@ == ord@,
{
    let mut r: Vec<usize> = Vec::new();
    let mut i: usize = 0;
    while i < ord.len()
        invariant
            0 <= i <= ord@.len(),
            r@ == ord@.subrange(0, i as int),
        decreases ord@.len() - i,
    {
        r.push(ord[i]);
        proof {
            assert(ord@.subrange(0, i as int).push(ord@[i as int]) =~= ord@.subrange(
                0,
                i + 1 as int,
            ));
        }
        i = i + 1;
    }
    proof {
        assert(ord@.subrange(0, ord@.len() as int) =~= ord@);
    }
    r
}

/// Mirror-swap: exchange the cities at `i` and `n - 1 - i`.
pub fn mirror_swap(ord: &Vec<usize>, i: usize) -> (r: Vec<usize>)
    requires
        i < ord@.len() / 2,
    ensures
        r@ == ord@.update(i as int, ord@[ord@.len() - 1 - i]).update(
            ord@.len() - 1 - i,
            ord@[i as int],
        ),
        r@.to_multiset() == ord@.to_multiset(),
        r@.len() == ord@.len(),
{
    let n = ord.len();
    let mut v = copy_order(ord);
    let a = v[i];
    let b = v[n - 1 - i];
    v.set(i, b);
    v.set(n - 1 - i, a);
    proof {
        lemma_swap_multiset(ord@, i as int, ord@.len() - 1 - i);
    }
    v
}

/// Cross-half swap: exchange the city at `i` in the first half with the one
/// at `j` in the second half.
pub fn cross_half_swap(ord: &Vec<usize>, i: usize, j: usize) -> (r: Vec<usize>)
    requires
        i < ord@.len() / 2,
        ord@.len() / 2 <= j < ord@.len(),
    ensures
        r@ == ord@.update(i as int, ord@[j as int]).update(j as int, ord@[i as int]),
        r@.to_multiset() == ord@.to_multiset(),
        r@.len() == ord@.len(),
{
    let mut v = copy_order(ord);
    let a = v[i];
    let b = v[j];
    v.set(i, b);
    v.set(j, a);
    proof {
        lemma_swap_multiset(ord@, i as int, j as int);
    }
    v
}

/// Move-to-end: remove the city at `i` in the first half and append it.
pub fn move_to_end(ord: &Vec<usize>, i: usize) -> (r: Vec<usize>)
    requires
        i < ord@.len() / 2,
    ensures
        r@ == ord@.remove(i as int).push(ord@[i as int]),
        r@.to_multiset() == ord@.to_multiset(),
        r@.len() == ord@.len(),
{
    let mut v = copy_order(ord);
    let c = v.remove(i);
    v.push(c);
    proof {
        lemma_remove_insert_multiset(ord@, i as int, ord@.len() - 1);
        assert(ord@.remove(i as int).insert(ord@.len() - 1, ord@[i as int]) =~= ord@.remove(
            i as int,
        ).push(ord@[i as int]));
    }
    v
}

/// Move-to-start: remove the city at `i` in the second half and insert it
/// just before the midpoint.
pub fn move_to_start(ord: &Vec<usize>, i: usize) -> (r: Vec<usize>)
    requires
        ord@.len() >= 2,
        ord@.len() / 2 <= i < ord@.len(),
    ensures
        r@ == ord@.remove(i as int).insert(ord@.len() / 2 - 1, ord@[i as int]),
        r@.to_multiset() == ord@.to_multiset(),
        r@.len() == ord@.len(),
{
    let mut v = copy_order(ord);
    let c = v.remove(i);
    let m = ord.len() / 2;
    v.insert(m - 1, c);
    proof {
        lemma_remove_insert_multiset(ord@, i as int, ord@.len() / 2 - 1);
    }
    v
}

/// Full shuffle: a uniformly random permutation of the whole ordering.
pub fn full_shuffle(ord: &Vec<usize>, rng: &mut ThreadRng) -> (r: Vec<usize>)
    ensures
        r@.to_multiset() == ord@.to_multiset(),
        r@.len() == ord@.len(),
{
    let mut v = copy_order(ord);
    shuffle_order(rng, &mut v);
    proof {
        broadcast use vstd::seq_lib::group_to_multiset_ensures;
    }
    v
}

/// Mirror-swap at a random index of the first half.
pub fn mirror_swap_rand(ord: &Vec<usize>, rng: &mut ThreadRng) -> (r: Vec<usize>)
    requires
        ord@.len() >= 2,
    ensures
        r@.to_multiset() == ord@.to_multiset(),
        r@.len() == ord@.len(),
        exists|i: int|
            0 <= i < ord@.len() / 2 && r@ == ord@.update(i, ord@[ord@.len() - 1 - i]).update(
                ord@.len() - 1 - i,
                #[trigger] ord@[i],
            ),
{
    let i = rand_index(rng, 0, ord.len() / 2);
    let r = mirror_swap(ord, i);
    proof {
        assert((i as int) < ord@.len() / 2 && r@ == ord@.update(
            i as int,
            ord@[ord@.len() - 1 - i],
        ).update(ord@.len() - 1 - i, ord@[i as int]));
    }
    r
}

/// Cross-half swap at random indices of each half.
pub fn cross_half_swap_rand(ord: &Vec<usize>, rng: &mut ThreadRng) -> (r: Vec<usize>)
    requires
        ord@.len() >= 2,
    ensures
        r@.to_multiset() == ord@.to_multiset(),
        r@.len() == ord@.len(),
        exists|i: int, j: int|
            0 <= i < ord@.len() / 2 && ord@.len() / 2 <= j < ord@.len() && r@ == ord@.update(
                i,
                #[trigger] ord@[j],
            ).update(j, #[trigger] ord@[i]),
{
    let i = rand_index(rng, 0, ord.len() / 2);
    let j = rand_index(rng, ord.len() / 2, ord.len());
    let r = cross_half_swap(ord, i, j);
    proof {
        assert((i as int) < ord@.len() / 2 && ord@.len() / 2 <= (j as int) && (j as int)
            < ord@.len() && r@ == ord@.update(i as int, ord@[j as int]).update(
            j as int,
            ord@[i as int],
        ));
    }
    r
}

/// Move-to-end of the city at a random index of the first half.
pub fn move_to_end_rand(ord: &Vec<usize>, rng: &mut ThreadRng) -> (r: Vec<usize>)
    requires
        ord@.len() >= 2,
    ensures
        r@.to_multiset() == ord@.to_multiset(),
        r@.len() == ord@.len(),
        exists|i: int|
            0 <= i < ord@.len() / 2 && r@ == ord@.remove(i).push(#[trigger] ord@[i]),
{
    let i = rand_index(rng, 0, ord.len() / 2);
    let r = move_to_end(ord, i);
    proof {
        assert((i as int) < ord@.len() / 2 && r@ == ord@.remove(i as int).push(ord@[i as int]));
    }
    r
}

/// Move-to-start of the city at a random index of the second half.
pub fn move_to_start_rand(ord: &Vec<usize>, rng: &mut ThreadRng) -> (r: Vec<usize>)
    requires
        ord@.len() >= 2,
    ensures
        r@.to_multiset() == ord@.to_multiset(),
        r@.len() == ord@.len(),
        exists|i: int|
            ord@.len() / 2 <= i < ord@.len() && r@ == ord@.remove(i).insert(
                ord@.len() / 2 - 1,
                #[trigger] ord@[i],
            ),
{
    let i = rand_index(rng, ord.len() / 2, ord.len());
    let r = move_to_start(ord, i);
    proof {
        assert(ord@.len() / 2 <= (i as int) && (i as int) < ord@.len() && r@ == ord@.remove(
            i as int,
        ).insert(ord@.len() / 2 - 1, ord@[i as int]));
    }
    r
}

} // verus!
