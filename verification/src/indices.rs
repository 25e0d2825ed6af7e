//! Sets of positions in a batch.

use crate::collections;
use crate::collections::OrdSet;
use vstd::prelude::*;

verus! {

/// All indices of a batch of `len`.
pub open spec fn all_indices(len: nat) -> Set<usize> {
    Set::new(|i: usize| i < len)
}

/// The set of all indices of a batch of `len`.
pub fn indices_below(len: usize) -> (r: OrdSet<usize>)
    ensures
        r@ == all_indices(len as nat),
{
    let mut r: OrdSet<usize> = OrdSet::new();
    let mut i: usize = 0;
    assert(r@ =~= all_indices(0));
    while i < len
        invariant
            i <= len,
            r@ == all_indices(i as nat),
        decreases len - i,
    {
        let _ = r.insert(i);
        i += 1;
        assert(r@ =~= all_indices(i as nat));
    }
    r
}

/// The elements of `set` in order.
pub fn to_indices(set: &OrdSet<usize>) -> (r: Vec<usize>)
    ensures
        r@ == collections::sorted::<usize>(set@),
{
    let n = set.len();
    let mut r: Vec<usize> = Vec::new();
    let mut i: usize = 0;
    while i < n
        invariant
            i <= n,
            n == set.ordered().len(),
            r@ == set.ordered().take(i as int),
        decreases n - i,
    {
        r.push(*set.at(i));
        i += 1;
        assert(set.ordered().take(i as int) =~= set.ordered().take(i - 1).push(
            set.ordered()[i - 1],
        ));
    }
    assert(r@ =~= set.ordered());
    r
}

/// Adds `indices` to `set`.
pub fn add_indices(set: &mut OrdSet<usize>, indices: &Vec<usize>)
    ensures
        final(set)@ == old(set)@.union(indices@.to_set()),
{
    let mut i: usize = 0;
    assert(set@ =~= old(set)@.union(indices@.take(0).to_set()));
    while i < indices.len()
        invariant
            i <= indices.len(),
            set@ == old(set)@.union(indices@.take(i as int).to_set()),
        decreases indices.len() - i,
    {
        let _ = set.insert(indices[i]);
        proof {
            collections::lemma_take_to_set(indices@, i as int);
        }
        i += 1;
        assert(set@ =~= old(set)@.union(indices@.take(i as int).to_set()));
    }
    assert(indices@.take(i as int) =~= indices@);
}

} // verus!
