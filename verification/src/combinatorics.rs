use vstd::prelude::*;

use itertools::Itertools;
use itertools::Permutations;
use factorial::Factorial;
use std::vec::IntoIter;

verus! {

/// `n!`
pub open spec fn factorial(n: nat) -> nat
    decreases n,
{
    if n == 0 { 1 } else { n * factorial((n - 1) as nat) }
}

/// `p` lists every item of `items` once, in some order.
pub open spec fn is_arrangement(p: Seq<usize>, items: Seq<usize>) -> bool {
    &&& p.len() == items.len()
    &&& p.no_duplicates()
    &&& forall|i: int| 0 <= i < p.len() ==> items.contains(#[trigger] p[i])
}

/// Calls `checked_factorial` of the `factorial` crate on a `u128`, which its
/// documentation describes as `self!` when that fits the type, `None` otherwise.
#[verifier::external_body]
pub(crate) fn checked_factorial_u128(n: u128) -> (r: Option<u128>)
    ensures
        r == if factorial(n as nat) <= u128::MAX { Some(factorial(n as nat) as u128) } else { None },
{
    n.checked_factorial()
}

/// `a` comes before `b` in lexicographic order of the positions that their
/// items have in `items`.
pub open spec fn lex_before(a: Seq<usize>, b: Seq<usize>, items: Seq<usize>) -> bool
    decreases a.len(),
{
    if a.len() == 0 || b.len() == 0 {
        a.len() == 0 && b.len() > 0
    } else if a[0] != b[0] {
        items.index_of(a[0]) < items.index_of(b[0])
    } else {
        lex_before(a.drop_first(), b.drop_first(), items)
    }
}

#[verifier::external_type_specification]
#[verifier::external_body]
#[verifier::reject_recursive_types(I)]
pub struct ExPermutations<I: Iterator>(Permutations<I>);

/// The arrangements that a `Permutations` iterator of `itertools` over a vector
/// of indices has still to yield, in the order it yields them.
pub uninterp spec fn arrangements_left(p: Permutations<IntoIter<usize>>) -> Seq<Seq<usize>>;

/// Calls `Itertools::permutations` with `k` the number of items. By the
/// crate's documentation and source (the index-and-cycle walk of
/// `permutations.rs`), the iterator yields every arrangement of the items'
/// positions once, in lexicographic order of the positions; with distinct
/// items these are distinct and are exactly the arrangements of the items.
#[verifier::external_body]
pub(crate) fn arrangements_of(items: Vec<usize>) -> (p: Permutations<IntoIter<usize>>)
    requires
        items@.no_duplicates(),
    ensures
        arrangements_left(p).no_duplicates(),
        forall|q: Seq<usize>| arrangements_left(p).contains(q) <==> is_arrangement(q, items@),
        forall|i: int, j: int| 0 <= i < j < arrangements_left(p).len()
            ==> lex_before(#[trigger] arrangements_left(p)[i], #[trigger] arrangements_left(p)[j], items@),
{
    let k = items.len();
    items.into_iter().permutations(k)
}

/// Calls `Iterator::next` on a `Permutations` iterator: it hands out the first
/// of the arrangements still to come, or `None` once there are none.
#[verifier::external_body]
pub(crate) fn next_arrangement(p: &mut Permutations<IntoIter<usize>>) -> (r: Option<Vec<usize>>)
    ensures
        arrangements_left(*old(p)).len() > 0 ==> {
            &&& r matches Some(v)
            &&& v@ == arrangements_left(*old(p))[0]
            &&& arrangements_left(*final(p)) == arrangements_left(*old(p)).drop_first()
        },
        arrangements_left(*old(p)).len() == 0 ==> {
            &&& r is None
            &&& arrangements_left(*final(p)) == arrangements_left(*old(p))
        },
{
    p.next()
}

/// Calls `Itertools::combinations(2)`: every pair of positions `i < j` of the
/// items gives `[items[i], items[j]]`, once each. The order (lexicographic in
/// the positions) is not stated.
#[verifier::external_body]
pub(crate) fn pairs_of(items: Vec<usize>) -> (r: Vec<Vec<usize>>)
    requires
        items@.no_duplicates(),
    ensures
        r@.map_values(|v: Vec<usize>| v@).no_duplicates(),
        forall|k: int| 0 <= k < r@.len() ==> exists|i: int, j: int|
            0 <= i < j < items@.len() && #[trigger] r@[k]@ == seq![items@[i], items@[j]],
        forall|i: int, j: int| 0 <= i < j < items@.len() ==>
            r@.map_values(|v: Vec<usize>| v@).contains(seq![items@[i], items@[j]]),
{
    items.into_iter().combinations(2).collect()
}

} // verus!
