use itertools::Itertools;
use vstd::prelude::*;

verus! {

/// itertools' iterator over the arrangements of an iterator's items, held
/// opaque: what it holds is known through `permutations_left` alone.
#[verifier::external_type_specification]
#[verifier::external_body]
#[verifier::reject_recursive_types(I)]
pub struct ExPermutations<I: Iterator>(itertools::Permutations<I>);

/// The permutations that a permutation iterator over digits has yet to hand out.
pub uninterp spec fn permutations_left(p: itertools::Permutations<std::vec::IntoIter<u8>>) -> Seq<
    Seq<u8>,
>;

/// The arrangements of `k` values of `pool`, in the order in which itertools
/// hands them out.
pub uninterp spec fn arrangements_of(pool: Seq<u8>, k: nat) -> Seq<Seq<u8>>;

/// `s` is an arrangement of `k` distinct values taken from `pool`.
pub open spec fn is_arrangement(s: Seq<u8>, pool: Seq<u8>, k: nat) -> bool {
    &&& s.len() == k
    &&& s.no_duplicates()
    &&& forall|j: int| 0 <= j < s.len() ==> pool.contains(#[trigger] s[j])
}

/// Relies on itertools' `Itertools::permutations`: over a pool of distinct
/// values, the iterator yields every arrangement of `k` of them once, and
/// nothing else, in an order fixed by the pool and `k`.
#[verifier::external_body]
pub(crate) fn arrangements(pool: Vec<u8>, k: usize) -> (r: itertools::Permutations<
    std::vec::IntoIter<u8>,
>)
    requires
        pool@.no_duplicates(),
    ensures
        permutations_left(r) == arrangements_of(pool@, k as nat),
        permutations_left(r).no_duplicates(),
        forall|s: Seq<u8>| #[trigger]
            permutations_left(r).contains(s) <==> is_arrangement(s, pool@, k as nat),
{
    pool.into_iter().permutations(k)
}

/// Relies on `Iterator::next` of itertools' `Permutations`: it hands out the
/// next permutation, and nothing once all were handed out.
#[verifier::external_body]
pub(crate) fn next_arrangement(p: &mut itertools::Permutations<std::vec::IntoIter<u8>>) -> (r:
    Option<Vec<u8>>)
    ensures
        permutations_left(*old(p)).len() == 0 ==> r is None && permutations_left(*final(p))
            == permutations_left(*old(p)),
        permutations_left(*old(p)).len() > 0 ==> r is Some && r->0@ == permutations_left(
            *old(p),
        )[0] && permutations_left(*final(p)) == permutations_left(*old(p)).drop_first(),
{
    p.next()
}

} // verus!
