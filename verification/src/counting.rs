//! Facts about sequences and the multisets of their elements.

use vstd::multiset::Multiset;
use vstd::prelude::*;
use vstd::seq_lib::*;

verus! {

/// Filtering one element more either appends that element or changes
/// nothing.
pub proof fn lemma_filter_step<A>(s: Seq<A>, pred: spec_fn(A) -> bool, i: int)
    requires
        0 <= i < s.len(),
    ensures
        s.take(i + 1).filter(pred) == if pred(s[i]) {
            s.take(i).filter(pred).push(s[i])
        } else {
            s.take(i).filter(pred)
        },
{
    reveal(Seq::filter);
    assert(s.take(i + 1).drop_last() =~= s.take(i));
}

/// Nothing is left of an empty sequence after filtering.
pub proof fn lemma_filter_empty<A>(s: Seq<A>, pred: spec_fn(A) -> bool)
    requires
        s.len() == 0,
    ensures
        s.filter(pred) == Seq::<A>::empty(),
{
    reveal(Seq::filter);
    assert(s =~= Seq::<A>::empty());
}

/// A filtered sequence holds the elements that pass the filter as often as
/// the sequence holds them, and no others.
pub proof fn lemma_filter_count<A>(s: Seq<A>, pred: spec_fn(A) -> bool, x: A)
    ensures
        s.filter(pred).to_multiset().count(x) == if pred(x) {
            s.to_multiset().count(x)
        } else {
            0
        },
    decreases s.len(),
{
    if s.len() == 0 {
        lemma_filter_empty(s, pred);
        s.to_multiset_ensures();
        s.filter(pred).to_multiset_ensures();
        assert(s.filter(pred).to_multiset().len() == 0);
        assert(s.to_multiset().len() == 0);
    } else {
        let rest = s.drop_last();
        lemma_filter_count(rest, pred, x);
        lemma_filter_step(s, pred, s.len() - 1);
        assert(s.take(s.len() as int) =~= s);
        assert(s.take(s.len() - 1) =~= rest);
        assert(s =~= rest.push(s.last()));
        rest.to_multiset_ensures();
        rest.filter(pred).to_multiset_ensures();
    }
}

/// Mapping the elements one for one keeps how often each is held, when no
/// two elements map to the same.
pub proof fn lemma_map_count<A, B>(s: Seq<A>, f: spec_fn(A) -> B, x: A)
    requires
        forall|a: A, b: A| #[trigger] f(a) == #[trigger] f(b) ==> a == b,
    ensures
        s.map_values(f).to_multiset().count(f(x)) == s.to_multiset().count(x),
    decreases s.len(),
{
    if s.len() == 0 {
        s.to_multiset_ensures();
        s.map_values(f).to_multiset_ensures();
        assert(s.map_values(f).to_multiset().len() == 0);
        assert(s.to_multiset().len() == 0);
    } else {
        let rest = s.drop_last();
        lemma_map_count(rest, f, x);
        assert(s =~= rest.push(s.last()));
        assert(s.map_values(f) =~= rest.map_values(f).push(f(s.last())));
        rest.to_multiset_ensures();
        rest.map_values(f).to_multiset_ensures();
    }
}

/// A value to which no element maps does not occur among the mapped
/// elements.
pub proof fn lemma_map_count_outside<A, B>(s: Seq<A>, f: spec_fn(A) -> B, y: B)
    requires
        forall|a: A| #[trigger] f(a) != y,
    ensures
        s.map_values(f).to_multiset().count(y) == 0,
{
    s.map_values(f).to_multiset_ensures();
    if s.map_values(f).contains(y) {
        let i = choose|i: int| 0 <= i < s.map_values(f).len() && s.map_values(f)[i] == y;
        assert(f(s[i]) == y);
    }
}

/// Appending an element keeps what a sequence contained and adds that
/// element.
pub proof fn lemma_contains_push<A>(s: Seq<A>, x: A, y: A)
    ensures
        s.push(x).contains(x),
        s.contains(y) ==> s.push(x).contains(y),
{
    assert(s.push(x)[s.len() as int] == x);
    if s.contains(y) {
        let i = choose|i: int| 0 <= i < s.len() && s[i] == y;
        assert(s.push(x)[i] == y);
    }
}

/// An element held at least twice stands at two different positions.
pub proof fn lemma_two_positions<A>(s: Seq<A>, x: A) -> (r: (int, int))
    requires
        s.to_multiset().count(x) >= 2,
    ensures
        0 <= r.0 < r.1 < s.len(),
        s[r.0] == x,
        s[r.1] == x,
{
    s.to_multiset_ensures();
    assert(s.contains(x));
    let i = choose|i: int| 0 <= i < s.len() && s[i] == x;
    let rest = s.remove(i);
    rest.to_multiset_ensures();
    assert(rest.to_multiset().count(x) >= 1);
    assert(rest.contains(x));
    let j = choose|j: int| 0 <= j < rest.len() && rest[j] == x;
    if j < i {
        assert(rest[j] == s[j]);
        (j, i)
    } else {
        assert(rest[j] == s[j + 1]);
        (i, j + 1)
    }
}

/// An element held at all stands at some position.
pub proof fn lemma_some_position<A>(s: Seq<A>, x: A) -> (i: int)
    requires
        s.to_multiset().count(x) >= 1,
    ensures
        0 <= i < s.len(),
        s[i] == x,
{
    s.to_multiset_ensures();
    assert(s.contains(x));
    choose|i: int| 0 <= i < s.len() && s[i] == x
}

/// Every element of a sequence is held by the multiset of its elements.
pub proof fn lemma_position_counts<A>(s: Seq<A>, i: int)
    requires
        0 <= i < s.len(),
    ensures
        s.to_multiset().count(s[i]) >= 1,
{
    s.to_multiset_ensures();
    assert(s.contains(s[i]));
}

/// Elements at two different positions are each held; when they are the
/// same, that element is held at least twice.
pub proof fn lemma_positions_count<A>(s: Seq<A>, i: int, j: int)
    requires
        0 <= i < j < s.len(),
    ensures
        s.to_multiset().count(s[i]) >= 1,
        s.to_multiset().count(s[j]) >= 1,
        s[i] == s[j] ==> s.to_multiset().count(s[i]) >= 2,
{
    lemma_position_counts(s, i);
    lemma_position_counts(s, j);
    let rest = s.remove(i);
    s.to_multiset_ensures();
    assert(rest[j - 1] == s[j]);
    lemma_position_counts(rest, j - 1);
}

/// The multiset of a concatenation is the sum of the multisets of its parts.
pub proof fn lemma_concat_count<A>(a: Seq<A>, b: Seq<A>, x: A)
    ensures
        (a + b).to_multiset().count(x) == a.to_multiset().count(x) + b.to_multiset().count(x),
{
    lemma_multiset_commutative(a, b);
}

/// The sum of `weight` over the elements of a sequence.
pub open spec fn seq_total<V>(s: Seq<V>, weight: spec_fn(V) -> nat) -> nat
    decreases s.len(),
{
    if s.len() == 0 {
        0
    } else {
        seq_total(s.drop_last(), weight) + weight(s.last())
    }
}

/// The sum of `weight` over the elements of a multiset, each counted as
/// often as it is held.
pub open spec fn total<V>(m: Multiset<V>, weight: spec_fn(V) -> nat) -> nat
    decreases m.len(),
{
    if m.len() == 0 {
        0
    } else {
        let x = m.choose();
        weight(x) + total(m.remove(x), weight)
    }
}

/// The sum over a multiset can be taken with any of its elements first.
pub proof fn lemma_total_remove<V>(m: Multiset<V>, weight: spec_fn(V) -> nat, x: V)
    requires
        m.count(x) > 0,
    ensures
        total(m, weight) == weight(x) + total(m.remove(x), weight),
    decreases m.len(),
{
    let c = m.choose();
    assert(m.len() > 0) by {
        assert(m.remove(x).len() == m.len() - 1);
    }
    if c != x {
        assert(m.remove(c).count(x) > 0);
        assert(m.remove(x).count(c) > 0);
        assert(m.remove(c).len() < m.len());
        assert(m.remove(x).len() < m.len());
        lemma_total_remove(m.remove(c), weight, x);
        lemma_total_remove(m.remove(x), weight, c);
        assert(m.remove(c).remove(x) =~= m.remove(x).remove(c));
    }
}

/// One more element adds its weight to the sum.
pub proof fn lemma_total_insert<V>(m: Multiset<V>, weight: spec_fn(V) -> nat, x: V)
    ensures
        total(m.insert(x), weight) == total(m, weight) + weight(x),
{
    lemma_total_remove(m.insert(x), weight, x);
    assert(m.insert(x).remove(x) =~= m);
}

/// Putting one element in the place of another changes the sum by the
/// difference of their weights.
pub proof fn lemma_total_replace<V>(m: Multiset<V>, weight: spec_fn(V) -> nat, x: V, y: V)
    requires
        m.count(x) > 0,
    ensures
        total(m.remove(x).insert(y), weight) + weight(x) == total(m, weight) + weight(y),
{
    lemma_total_remove(m, weight, x);
    lemma_total_insert(m.remove(x), weight, y);
}

/// The sum over the multiset of the elements of a sequence is the sum over
/// the sequence.
pub proof fn lemma_total_of_seq<V>(s: Seq<V>, weight: spec_fn(V) -> nat)
    ensures
        total(s.to_multiset(), weight) == seq_total(s, weight),
    decreases s.len(),
{
    s.to_multiset_ensures();
    if s.len() > 0 {
        let rest = s.drop_last();
        lemma_total_of_seq(rest, weight);
        rest.to_multiset_ensures();
        assert(s =~= rest.push(s.last()));
        lemma_total_insert(rest.to_multiset(), weight, s.last());
    }
}

/// No element weighs more than the sum over the sequence.
pub proof fn lemma_seq_total_bounds<V>(s: Seq<V>, weight: spec_fn(V) -> nat, i: int)
    requires
        0 <= i < s.len(),
    ensures
        weight(s[i]) <= seq_total(s, weight),
    decreases s.len(),
{
    if i < s.len() - 1 {
        lemma_seq_total_bounds(s.drop_last(), weight, i);
    }
}

/// A sum that is not zero has an element that weighs something.
pub proof fn lemma_seq_total_positive<V>(s: Seq<V>, weight: spec_fn(V) -> nat) -> (i: int)
    requires
        seq_total(s, weight) > 0,
    ensures
        0 <= i < s.len(),
        weight(s[i]) > 0,
    decreases s.len(),
{
    if weight(s.last()) > 0 {
        s.len() - 1
    } else {
        lemma_seq_total_positive(s.drop_last(), weight)
    }
}

/// A sum over more of a sequence is no smaller.
pub proof fn lemma_seq_total_step<V>(s: Seq<V>, weight: spec_fn(V) -> nat, i: int)
    requires
        0 <= i < s.len(),
    ensures
        seq_total(s.take(i + 1), weight) == seq_total(s.take(i), weight) + weight(s[i]),
{
    assert(s.take(i + 1).drop_last() =~= s.take(i));
}

/// Every multiset is the multiset of the elements of some sequence.
pub proof fn lemma_multiset_has_seq<V>(m: Multiset<V>) -> (s: Seq<V>)
    ensures
        s.to_multiset() == m,
    decreases m.len(),
{
    if m.len() == 0 {
        let s = Seq::<V>::empty();
        s.to_multiset_ensures();
        assert(s.to_multiset().len() == 0);
        assert forall|v: V| m.count(v) == 0 by {
            if m.count(v) > 0 {
                assert(m.remove(v).len() == m.len() - 1);
            }
        }
        assert(s.to_multiset() =~= m);
        s
    } else {
        let x = m.choose();
        assert(m.remove(x).len() < m.len());
        let rest = lemma_multiset_has_seq(m.remove(x));
        rest.to_multiset_ensures();
        assert(rest.push(x).to_multiset() =~= m);
        rest.push(x)
    }
}

/// The sum of the first `n` values of `f`.
pub open spec fn sum_upto(f: spec_fn(int) -> nat, n: nat) -> nat
    decreases n,
{
    if n == 0 {
        0
    } else {
        sum_upto(f, (n - 1) as nat) + f(n - 1)
    }
}

/// The sum of sums is the sum of the summands' sums.
pub proof fn lemma_sum_add(f: spec_fn(int) -> nat, g: spec_fn(int) -> nat, h: spec_fn(int) -> nat, n: nat)
    requires
        forall|k: int| 0 <= k < n ==> #[trigger] h(k) == f(k) + g(k),
    ensures
        sum_upto(h, n) == sum_upto(f, n) + sum_upto(g, n),
    decreases n,
{
    if n > 0 {
        lemma_sum_add(f, g, h, (n - 1) as nat);
    }
}

/// Sums of the same values are the same.
pub proof fn lemma_sum_same(f: spec_fn(int) -> nat, g: spec_fn(int) -> nat, n: nat)
    requires
        forall|k: int| 0 <= k < n ==> #[trigger] f(k) == g(k),
    ensures
        sum_upto(f, n) == sum_upto(g, n),
    decreases n,
{
    if n > 0 {
        lemma_sum_same(f, g, (n - 1) as nat);
    }
}

/// The sum of values that are all `c` is `n` times `c`.
pub proof fn lemma_sum_const(f: spec_fn(int) -> nat, n: nat, c: nat)
    requires
        forall|k: int| 0 <= k < n ==> #[trigger] f(k) == c,
    ensures
        sum_upto(f, n) == n * c,
    decreases n,
{
    if n > 0 {
        lemma_sum_const(f, (n - 1) as nat, c);
        assert((n - 1) * c + c == n * c) by (nonlinear_arith);
    } else {
        assert(0 * c == 0) by (nonlinear_arith);
    }
}

/// The sum of values that are 1 at one place and 0 elsewhere is 1.
pub proof fn lemma_sum_one(f: spec_fn(int) -> nat, n: nat, at: int)
    requires
        0 <= at < n,
        forall|k: int|
            0 <= k < n ==> #[trigger] f(k) == if k == at {
                1nat
            } else {
                0nat
            },
    ensures
        sum_upto(f, n) == 1,
    decreases n,
{
    if at == n - 1 {
        lemma_sum_const(f, (n - 1) as nat, 0);
    } else {
        lemma_sum_one(f, (n - 1) as nat, at);
    }
}

} // verus!
