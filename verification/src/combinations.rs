//! Pairs and products of the items of a list, as the `itertools` crate
//! enumerates them.

use crate::collection::views;
use itertools::Itertools;
use vstd::prelude::*;

verus! {

/// Every pair of two items at different positions, the earlier item first:
/// the first item with each later one in turn, then the pairs among the
/// later items.
pub open spec fn pairs_in_order<T>(items: Seq<T>) -> Seq<(T, T)>
    decreases items.len(),
{
    if items.len() == 0 {
        Seq::empty()
    } else {
        Seq::new((items.len() - 1) as nat, |k: int| (items[0], items[k + 1])) + pairs_in_order(
            items.drop_first(),
        )
    }
}

/// Every pair of an item of `left` with an item of `right`: the first item of
/// `left` with each item of `right` in turn, then the same for the rest of
/// `left`.
pub open spec fn product_in_order<A, B>(left: Seq<A>, right: Seq<B>) -> Seq<(A, B)>
    decreases left.len(),
{
    if left.len() == 0 {
        Seq::empty()
    } else {
        Seq::new(right.len(), |k: int| (left[0], right[k])) + product_in_order(
            left.drop_first(),
            right,
        )
    }
}

/// The items at any two different positions are paired.
pub proof fn lemma_pairs_complete<T>(items: Seq<T>, i: int, j: int)
    requires
        0 <= i < j < items.len(),
    ensures
        pairs_in_order(items).contains((items[i], items[j])),
    decreases items.len(),
{
    let head = Seq::new((items.len() - 1) as nat, |k: int| (items[0], items[k + 1]));
    let tail = pairs_in_order(items.drop_first());
    if i == 0 {
        assert(head[j - 1] == (items[i], items[j]));
        assert((head + tail)[j - 1] == (items[i], items[j]));
    } else {
        lemma_pairs_complete(items.drop_first(), i - 1, j - 1);
        let k = choose|k: int| 0 <= k < tail.len() && tail[k] == (items[i], items[j]);
        assert((head + tail)[head.len() + k] == tail[k]);
    }
}

/// Every pair is made of the items at two different positions, the earlier
/// first.
pub proof fn lemma_pairs_sound<T>(items: Seq<T>, k: int) -> (r: (int, int))
    requires
        0 <= k < pairs_in_order(items).len(),
    ensures
        0 <= r.0 < r.1 < items.len(),
        pairs_in_order(items)[k] == (items[r.0], items[r.1]),
    decreases items.len(),
{
    let head = Seq::new((items.len() - 1) as nat, |k: int| (items[0], items[k + 1]));
    let tail = pairs_in_order(items.drop_first());
    if k < head.len() {
        (0, k + 1)
    } else {
        let (i, j) = lemma_pairs_sound(items.drop_first(), k - head.len());
        (i + 1, j + 1)
    }
}

/// Any item of `left` is paired with any item of `right`.
pub proof fn lemma_product_complete<A, B>(left: Seq<A>, right: Seq<B>, i: int, j: int)
    requires
        0 <= i < left.len(),
        0 <= j < right.len(),
    ensures
        product_in_order(left, right).contains((left[i], right[j])),
    decreases left.len(),
{
    let head = Seq::new(right.len(), |k: int| (left[0], right[k]));
    let tail = product_in_order(left.drop_first(), right);
    if i == 0 {
        assert(head[j] == (left[i], right[j]));
        assert((head + tail)[j] == (left[i], right[j]));
    } else {
        lemma_product_complete(left.drop_first(), right, i - 1, j);
        let k = choose|k: int| 0 <= k < tail.len() && tail[k] == (left[i], right[j]);
        assert((head + tail)[head.len() + k] == tail[k]);
    }
}

/// Every pair of the product is made of an item of `left` and an item of
/// `right`.
pub proof fn lemma_product_sound<A, B>(left: Seq<A>, right: Seq<B>, k: int) -> (r: (int, int))
    requires
        0 <= k < product_in_order(left, right).len(),
    ensures
        0 <= r.0 < left.len(),
        0 <= r.1 < right.len(),
        product_in_order(left, right)[k] == (left[r.0], right[r.1]),
    decreases left.len(),
{
    let head = Seq::new(right.len(), |k: int| (left[0], right[k]));
    let tail = product_in_order(left.drop_first(), right);
    if k < head.len() {
        (0, k)
    } else {
        let (i, j) = lemma_product_sound(left.drop_first(), right, k - head.len());
        (i + 1, j)
    }
}

/// The product has a pair for each item of `left` and each item of `right`,
/// and the pair of the items at `i` and at `j` stands at `i * right.len() + j`.
pub proof fn lemma_product_at<A, B>(left: Seq<A>, right: Seq<B>, i: int, j: int)
    requires
        0 <= i < left.len(),
        0 <= j < right.len(),
    ensures
        product_in_order(left, right).len() == left.len() * right.len(),
        0 <= i * right.len() + j < left.len() * right.len(),
        product_in_order(left, right)[i * right.len() + j] == (left[i], right[j]),
    decreases left.len(),
{
    let m = right.len() as int;
    let head = Seq::new(right.len(), |k: int| (left[0], right[k]));
    let tail = product_in_order(left.drop_first(), right);
    lemma_product_len(left, right);
    lemma_product_len(left.drop_first(), right);
    assert(0 <= i * m + j < left.len() * m) by (nonlinear_arith)
        requires
            0 <= i < left.len(),
            0 <= j < m,
    ;
    if i > 0 {
        lemma_product_at(left.drop_first(), right, i - 1, j);
        assert(i * m + j == m + ((i - 1) * m + j)) by (nonlinear_arith);
        assert((head + tail)[m + ((i - 1) * m + j)] == tail[(i - 1) * m + j]);
    } else {
        assert(i * m + j == j) by (nonlinear_arith)
            requires
                i == 0,
        ;
        assert((head + tail)[j] == head[j]);
    }
}

/// The product has a pair for each item of `left` and each item of `right`.
pub proof fn lemma_product_len<A, B>(left: Seq<A>, right: Seq<B>)
    ensures
        product_in_order(left, right).len() == left.len() * right.len(),
    decreases left.len(),
{
    let m = right.len() as int;
    if left.len() > 0 {
        lemma_product_len(left.drop_first(), right);
        let n = left.len() as int;
        assert(m + (n - 1) * m == n * m) by (nonlinear_arith);
    } else {
        assert(0 * m == 0) by (nonlinear_arith);
    }
}

/// The pairs of the views are the views of the pairs.
pub proof fn lemma_pairs_views<T: View>(items: Seq<T>)
    ensures
        views(pairs_in_order(items)) == pairs_in_order(views(items)),
    decreases items.len(),
{
    if items.len() > 0 {
        lemma_pairs_views(items.drop_first());
        assert(views(items).drop_first() =~= views(items.drop_first()));
        let head = Seq::new((items.len() - 1) as nat, |k: int| (items[0], items[k + 1]));
        let tail = pairs_in_order(items.drop_first());
        assert(views(head + tail) =~= views(head) + views(tail));
        assert(views(head) =~= Seq::new(
            (views(items).len() - 1) as nat,
            |k: int| (views(items)[0], views(items)[k + 1]),
        ));
    } else {
        assert(views(pairs_in_order(items)) =~= pairs_in_order(views(items)));
    }
}

/// The product of the views is the views of the product.
pub proof fn lemma_product_views<A: View, B: View>(left: Seq<A>, right: Seq<B>)
    ensures
        views(product_in_order(left, right)) == product_in_order(views(left), views(right)),
    decreases left.len(),
{
    if left.len() > 0 {
        lemma_product_views(left.drop_first(), right);
        assert(views(left).drop_first() =~= views(left.drop_first()));
        let head = Seq::new(right.len(), |k: int| (left[0], right[k]));
        let tail = product_in_order(left.drop_first(), right);
        assert(views(head + tail) =~= views(head) + views(tail));
        assert(views(head) =~= Seq::new(
            views(right).len(),
            |k: int| (views(left)[0], views(right)[k]),
        ));
    } else {
        assert(views(product_in_order(left, right)) =~= product_in_order(
            views(left),
            views(right),
        ));
    }
}

/// `Itertools::tuple_combinations` for pairs, on the items of a list: every
/// combination of two items, in the order that its documentation shows.
#[verifier::external_body]
pub(crate) fn pair_combinations<T: Copy>(items: Vec<T>) -> (r: Vec<(T, T)>)
    ensures
        r@ == pairs_in_order(items@),
{
    items.into_iter().tuple_combinations().collect()
}

/// `Itertools::cartesian_product` of two lists: every item of the first with
/// every item of the second, the first list's items changing slowest.
#[verifier::external_body]
pub(crate) fn cartesian_product<A: Copy, B: Copy>(left: Vec<A>, right: Vec<B>) -> (r: Vec<(A, B)>)
    ensures
        r@ == product_in_order(left@, right@),
{
    left.into_iter().cartesian_product(right).collect()
}

} // verus!
