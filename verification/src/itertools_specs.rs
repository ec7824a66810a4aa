use vstd::prelude::*;

use itertools::Itertools;

use crate::sorting::sorted_rows;
use crate::vecops::views_of;

verus! {

/// itertools' powerset iterator, declared so that a value of it can be held
/// and stepped by verified code.
#[verifier::external_type_specification]
#[verifier::external_body]
#[verifier::reject_recursive_types(I)]
pub struct ExPowerset<I: Iterator>(itertools::Powerset<I>);

/// The subsets that a powerset iterator has still to yield, each one as the
/// list of pairs it holds.
pub uninterp spec fn powerset_contents(
    it: itertools::Powerset<std::vec::IntoIter<(usize, usize)>>,
) -> Seq<Seq<(usize, usize)>>;

/// 2 to the power `n`.
pub open spec fn pow2(n: nat) -> nat
    decreases n,
{
    if n == 0 {
        1
    } else {
        2 * pow2((n - 1) as nat)
    }
}

/// True iff `a` can be read from `b` by dropping entries, keeping the order.
pub open spec fn subseq_of(a: Seq<(usize, usize)>, b: Seq<(usize, usize)>) -> bool
    decreases a.len() + b.len(),
{
    if a.len() == 0 {
        true
    } else if b.len() == 0 {
        false
    } else if a.first() == b.first() {
        subseq_of(a.drop_first(), b.drop_first())
    } else {
        subseq_of(a, b.drop_first())
    }
}

/// Relies on itertools' `powerset`: it yields every subset of the given list
/// exactly once, in ascending order of size, the full list last among them.
#[verifier::external_body]
pub(crate) fn powerset_iter(items: &Vec<(usize, usize)>) -> (it: itertools::Powerset<
    std::vec::IntoIter<(usize, usize)>,
>)
    ensures
        powerset_contents(it).len() == pow2(items@.len() as nat),
        forall|k: int|
            0 <= k < powerset_contents(it).len() ==> subseq_of(
                #[trigger] powerset_contents(it)[k],
                items@,
            ),
        exists|k: int| 0 <= k < powerset_contents(it).len() && powerset_contents(it)[k] == items@,
        forall|k1: int, k2: int|
            0 <= k1 <= k2 < powerset_contents(it).len() ==> (#[trigger] powerset_contents(
                it,
            )[k1]).len() <= (#[trigger] powerset_contents(it)[k2]).len(),
{
    items.clone().into_iter().powerset()
}

/// Relies on `Powerset::next`: it hands out the first remaining subset, or
/// nothing once the iterator is exhausted.
#[verifier::external_body]
pub(crate) fn powerset_next(
    it: &mut itertools::Powerset<std::vec::IntoIter<(usize, usize)>>,
) -> (r: Option<Vec<(usize, usize)>>)
    ensures
        powerset_contents(*old(it)).len() == 0 ==> r is None && powerset_contents(
            *final(it),
        ).len() == 0,
        powerset_contents(*old(it)).len() > 0 ==> (r matches Some(v)
            && v@ == powerset_contents(*old(it))[0]
            && powerset_contents(*final(it)) == powerset_contents(*old(it)).drop_first()),
{
    it.next()
}

/// Relies on itertools' `combinations` with size two over the column list: it
/// yields each pair of list entries exactly once, the earlier entry first, so
/// for a strictly ascending list every yielded pair is ascending.
#[verifier::external_body]
pub(crate) fn column_pairs(cols: &Vec<usize>) -> (r: Vec<(usize, usize)>)
    requires
        forall|t1: int, t2: int| 0 <= t1 < t2 < cols@.len() ==> cols@[t1] < cols@[t2],
    ensures
        forall|k: int| 0 <= k < r@.len() ==> (#[trigger] r@[k]).0 < r@[k].1,
        forall|k: int|
            0 <= k < r@.len() ==> cols@.contains((#[trigger] r@[k]).0) && cols@.contains(
                r@[k].1,
            ),
        forall|a: int, b: int|
            #![trigger cols@[a], cols@[b]]
            0 <= a < b < cols@.len() ==> r@.contains((cols@[a], cols@[b])),
{
    cols.iter().combinations(2).map(|p| (*p[0], *p[1])).collect()
}

/// Relies on itertools' `sorted` and on std's lexicographic `Ord` for byte
/// vectors: the result is an ascending permutation of the input rows.
#[verifier::external_body]
pub(crate) fn sorted_schemata(v: &Vec<Vec<u8>>) -> (r: Vec<Vec<u8>>)
    ensures
        views_of(r@).to_multiset() == views_of(v@).to_multiset(),
        sorted_rows(views_of(r@)),
{
    v.iter().cloned().sorted().collect()
}

} // verus!
