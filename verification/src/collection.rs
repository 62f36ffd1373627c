//! A multiset container that keeps its elements in canonical order, so that
//! two containers holding the same elements are identical whatever the order
//! in which the elements arrived.

use vstd::multiset::Multiset;
use vstd::prelude::*;
use vstd::seq_lib::*;

verus! {

/// Where one value stands relative to another in the canonical order.
#[derive(Debug, Clone, Copy, PartialEq, Eq, Structural)]
pub enum Placement {
    Before,
    Same,
    After,
}

/// Values with a total order on their views, an executable comparison that
/// decides it, and a way to copy them that keeps the view.
pub trait Sortable: View + Sized {
    /// `a` stands no later than `b`.
    spec fn precedes(a: Self::V, b: Self::V) -> bool;

    /// Of any two values, one stands no later than the other.
    proof fn precedes_is_total(a: Self::V, b: Self::V)
        ensures
            Self::precedes(a, b) || Self::precedes(b, a),
    ;

    /// Two values that each stand no later than the other are the same.
    proof fn precedes_is_antisymmetric(a: Self::V, b: Self::V)
        requires
            Self::precedes(a, b),
            Self::precedes(b, a),
        ensures
            a == b,
    ;

    /// The order carries over a value in the middle.
    proof fn precedes_is_transitive(a: Self::V, b: Self::V, c: Self::V)
        requires
            Self::precedes(a, b),
            Self::precedes(b, c),
        ensures
            Self::precedes(a, c),
    ;

    /// Decides where `self` stands relative to `other`.
    fn compare(&self, other: &Self) -> (r: Placement)
        ensures
            match r {
                Placement::Before => Self::precedes(self@, other@) && self@ != other@,
                Placement::Same => self@ == other@,
                Placement::After => Self::precedes(other@, self@) && self@ != other@,
            },
    ;

    /// A copy with the same view.
    fn duplicate(&self) -> (r: Self)
        ensures
            r@ == self@,
    ;
}

/// The views of a sequence of values, one for one.
pub open spec fn views<T: View>(s: Seq<T>) -> Seq<T::V> {
    s.map_values(|t: T| t@)
}

/// Every element stands no later than the elements after it.
pub open spec fn is_sorted<T: Sortable>(s: Seq<T::V>) -> bool {
    forall|i: int, j: int| 0 <= i <= j < s.len() ==> T::precedes(#[trigger] s[i], #[trigger] s[j])
}

/// Two sorted sequences that hold the same elements, each as often, are the
/// same sequence: the canonical arrangement of a multiset is unique.
pub proof fn sorted_arrangement_is_unique<T: Sortable>(a: Seq<T::V>, b: Seq<T::V>)
    requires
        is_sorted::<T>(a),
        is_sorted::<T>(b),
        a.to_multiset() == b.to_multiset(),
    ensures
        a == b,
    decreases a.len(),
{
    a.to_multiset_ensures();
    b.to_multiset_ensures();
    if a.len() > 0 {
        let x = a[0];
        let y = b[0];
        assert(a.contains(x));
        assert(b.to_multiset().count(x) > 0);
        assert(b.contains(x));
        let j = choose|j: int| 0 <= j < b.len() && b[j] == x;
        assert(T::precedes(b[0], b[j]));
        assert(b.contains(y));
        assert(a.to_multiset().count(y) > 0);
        assert(a.contains(y));
        let i = choose|i: int| 0 <= i < a.len() && a[i] == y;
        assert(T::precedes(a[0], a[i]));
        T::precedes_is_antisymmetric(x, y);
        let a1 = a.remove(0);
        let b1 = b.remove(0);
        assert(a1.to_multiset() == b1.to_multiset());
        assert forall|i: int, j: int| 0 <= i <= j < a1.len() implies T::precedes(
            #[trigger] a1[i],
            #[trigger] a1[j],
        ) by {
            assert(a1[i] == a[i + 1] && a1[j] == a[j + 1]);
        }
        assert forall|i: int, j: int| 0 <= i <= j < b1.len() implies T::precedes(
            #[trigger] b1[i],
            #[trigger] b1[j],
        ) by {
            assert(b1[i] == b[i + 1] && b1[j] == b[j + 1]);
        }
        sorted_arrangement_is_unique::<T>(a1, b1);
        assert(a =~= seq![x] + a1);
        assert(b =~= seq![y] + b1);
    } else {
        assert(a =~= b);
    }
}

/// A multiset without elements is the empty multiset.
pub proof fn lemma_multiset_is_empty<V>(m: Multiset<V>)
    requires
        m.len() == 0,
    ensures
        m == Multiset::<V>::empty(),
{
    assert forall|v: V| m.count(v) == 0 by {
        if m.count(v) > 0 {
            assert(m.remove(v).len() == m.len() - 1);
        }
    }
    assert(m =~= Multiset::<V>::empty());
}

/// A multiset of `T` kept in canonical order.
#[derive(Debug, PartialEq, Eq, PartialOrd, Ord, Hash)]
pub struct BTreeMultiSet<T: Sortable> {
    items: Vec<T>,
}

impl<T: Sortable> View for BTreeMultiSet<T> {
    type V = Multiset<T::V>;

    /// What the container holds, each element with its multiplicity.
    open spec fn view(&self) -> Multiset<T::V> {
        self.ordered().to_multiset()
    }
}

impl<T: Sortable> BTreeMultiSet<T> {
    /// The elements in the order in which they are enumerated, each as often
    /// as it is held.
    pub closed spec fn ordered(&self) -> Seq<T::V> {
        views(self.items@)
    }

    #[verifier::type_invariant]
    spec fn kept_sorted(&self) -> bool {
        is_sorted::<T>(self.ordered())
    }

    /// An empty container.
    pub fn new() -> (r: Self)
        ensures
            r@ == Multiset::<T::V>::empty(),
            r.ordered() == Seq::<T::V>::empty(),
    {
        let r = BTreeMultiSet { items: Vec::new() };
        proof {
            assert(r.ordered() =~= Seq::<T::V>::empty());
            r.ordered().to_multiset_ensures();
            lemma_multiset_is_empty(r@);
        }
        r
    }

    /// The number of elements held, counted with multiplicity.
    pub fn len(&self) -> (r: usize)
        ensures
            r == self.ordered().len(),
            r == self@.len(),
    {
        proof {
            self.ordered().to_multiset_ensures();
        }
        self.items.len()
    }

    /// The first position at which `value` is held, if it is held at all.
    pub fn position(&self, value: &T) -> (r: Option<usize>)
        ensures
            match r {
                Some(i) => {
                    &&& i < self.ordered().len()
                    &&& self.ordered()[i as int] == value@
                    &&& forall|k: int| 0 <= k < i ==> self.ordered()[k] != value@
                },
                None => self@.count(value@) == 0,
            },
    {
        let n = self.items.len();
        let mut i: usize = 0;
        while i < n
            invariant
                n == self.items.len(),
                i <= n,
                forall|k: int| 0 <= k < i ==> #[trigger] self.ordered()[k] != value@,
            decreases n - i,
        {
            if let Placement::Same = self.items[i].compare(value) {
                return Some(i);
            }
            i += 1;
        }
        proof {
            self.ordered().to_multiset_ensures();
            assert(!self.ordered().contains(value@));
        }
        None
    }

    /// Adds one occurrence of `value`.
    pub fn insert(&mut self, value: T)
        ensures
            final(self)@ == old(self)@.insert(value@),
    {
        proof {
            use_type_invariant(&*self);
        }
        let n = self.items.len();
        let ghost before = self.ordered();
        let mut pos: usize = 0;
        while pos < n
            invariant
                n == self.items.len(),
                pos <= n,
                before == self.ordered(),
                is_sorted::<T>(before),
                forall|k: int| 0 <= k < pos ==> T::precedes(#[trigger] before[k], value@),
            ensures
                pos <= n,
                forall|k: int| 0 <= k < pos ==> T::precedes(#[trigger] before[k], value@),
                forall|k: int| pos <= k < n ==> T::precedes(value@, #[trigger] before[k]),
            decreases n - pos,
        {
            match self.items[pos].compare(&value) {
                Placement::After => {
                    proof {
                        assert forall|k: int| pos <= k < n implies T::precedes(
                            value@,
                            #[trigger] before[k],
                        ) by {
                            T::precedes_is_transitive(value@, before[pos as int], before[k]);
                        }
                    }
                    break ;
                },
                _ => {},
            }
            pos += 1;
        }
        proof {
            let after = before.insert(pos as int, value@);
            T::precedes_is_total(value@, value@);
            assert forall|i: int, j: int| 0 <= i <= j < after.len() implies T::precedes(
                #[trigger] after[i],
                #[trigger] after[j],
            ) by {
                if i < pos {
                    assert(after[i] == before[i]);
                } else if i > pos {
                    assert(after[i] == before[i - 1]);
                }
                if j < pos {
                    assert(after[j] == before[j]);
                } else if j > pos {
                    assert(after[j] == before[j - 1]);
                }
            }
            assert(views(self.items@.insert(pos as int, value)) =~= after);
            to_multiset_insert(before, pos as int, value@);
        }
        let mut items: Vec<T> = Vec::new();
        std::mem::swap(&mut items, &mut self.items);
        items.insert(pos, value);
        self.items = items;
    }

    /// Takes one occurrence of `value` out, if one is held.
    pub fn take(&mut self, value: &T) -> (r: Option<T>)
        ensures
            match r {
                Some(v) => v@ == value@ && old(self)@.count(value@) > 0 && final(self)@ == old(
                    self,
                )@.remove(value@),
                None => old(self)@.count(value@) == 0 && final(self)@ == old(self)@,
            },
    {
        proof {
            use_type_invariant(&*self);
        }
        match self.position(value) {
            Some(i) => {
                proof {
                    let before = self.ordered();
                    let after = before.remove(i as int);
                    before.to_multiset_ensures();
                    assert(before.contains(value@));
                    assert forall|a: int, b: int| 0 <= a <= b < after.len() implies T::precedes(
                        #[trigger] after[a],
                        #[trigger] after[b],
                    ) by {
                        let a0 = if a < i { a } else { a + 1 };
                        let b0 = if b < i { b } else { b + 1 };
                        assert(after[a] == before[a0] && after[b] == before[b0]);
                    }
                    assert(views(self.items@.remove(i as int)) =~= after);
                }
                let mut items: Vec<T> = Vec::new();
                std::mem::swap(&mut items, &mut self.items);
                let taken = items.remove(i);
                self.items = items;
                Some(taken)
            },
            None => None,
        }
    }

    /// Takes one occurrence of `value` out, if one is held.
    pub fn remove(&mut self, value: &T) -> (r: Option<T>)
        ensures
            match r {
                Some(v) => v@ == value@ && old(self)@.count(value@) > 0 && final(self)@ == old(
                    self,
                )@.remove(value@),
                None => old(self)@.count(value@) == 0 && final(self)@ == old(self)@,
            },
    {
        self.take(value)
    }

    /// Whether two containers hold the same elements, each as often. Two
    /// that do are the same sequence of elements: the canonical order leaves
    /// no room for two arrangements.
    pub fn same_as(&self, other: &Self) -> (r: bool)
        ensures
            r == (self@ == other@),
            r == (self.ordered() == other.ordered()),
    {
        proof {
            use_type_invariant(self);
            use_type_invariant(other);
            self.ordered().to_multiset_ensures();
            other.ordered().to_multiset_ensures();
            if self@ == other@ {
                sorted_arrangement_is_unique::<T>(self.ordered(), other.ordered());
            }
        }
        let n = self.items.len();
        if n != other.items.len() {
            return false;
        }
        let mut i: usize = 0;
        while i < n
            invariant
                n == self.items.len(),
                n == other.items.len(),
                i <= n,
                self@ == other@ ==> self.ordered() == other.ordered(),
                forall|k: int| 0 <= k < i ==> self.ordered()[k] == other.ordered()[k],
            decreases n - i,
        {
            match self.items[i].compare(&other.items[i]) {
                Placement::Same => {},
                _ => {
                    assert(self.ordered()[i as int] != other.ordered()[i as int]);
                    return false;
                },
            }
            i += 1;
        }
        proof {
            assert(self.ordered() =~= other.ordered());
        }
        true
    }

    /// A container holding the elements of `items`, each as often as it
    /// occurs there.
    pub fn from_vec(items: Vec<T>) -> (r: Self)
        ensures
            r@ == views(items@).to_multiset(),
    {
        let mut rest = items;
        let mut r = Self::new();
        proof {
            assert(views(rest@).to_multiset().add(r@) =~= views(items@).to_multiset());
        }
        while rest.len() > 0
            invariant
                views(rest@).to_multiset().add(r@) == views(items@).to_multiset(),
            decreases rest.len(),
        {
            let ghost before = views(rest@);
            let ghost held = r@;
            let item = rest.pop().unwrap();
            proof {
                assert(before =~= views(rest@).push(item@));
                views(rest@).to_multiset_ensures();
            }
            r.insert(item);
            proof {
                assert(views(rest@).to_multiset().add(r@) =~= before.to_multiset().add(held));
            }
        }
        proof {
            views(rest@).to_multiset_ensures();
            lemma_multiset_is_empty(views(rest@).to_multiset());
            assert(views(rest@).to_multiset().add(r@) =~= r@);
        }
        r
    }

    /// All elements, each as often as it is held, in canonical order.
    pub fn iter(&self) -> (r: &Vec<T>)
        ensures
            views(r@) == self.ordered(),
            is_sorted::<T>(self.ordered()),
            self.ordered().to_multiset() == self@,
    {
        proof {
            use_type_invariant(self);
        }
        &self.items
    }
}

impl<T: Sortable> Default for BTreeMultiSet<T> {
    fn default() -> (r: Self)
        ensures
            r@ == Multiset::<T::V>::empty(),
            r.ordered() == Seq::<T::V>::empty(),
    {
        Self::new()
    }
}

impl<T: Sortable> Clone for BTreeMultiSet<T> {
    fn clone(&self) -> (r: Self)
        ensures
            r@ == self@,
            r.ordered() == self.ordered(),
    {
        proof {
            use_type_invariant(self);
        }
        let n = self.items.len();
        let mut items: Vec<T> = Vec::new();
        let mut i: usize = 0;
        while i < n
            invariant
                n == self.items.len(),
                i <= n,
                views(items@) == views(self.items@.take(i as int)),
            decreases n - i,
        {
            proof {
                assert(views(self.items@.take(i + 1)) =~= views(self.items@.take(i as int)).push(
                    self.items@[i as int]@,
                ));
            }
            items.push(self.items[i].duplicate());
            proof {
                assert(views(items@) =~= views(self.items@.take(i as int)).push(
                    self.items@[i as int]@,
                ));
            }
            i += 1;
        }
        proof {
            assert(self.items@.take(n as int) =~= self.items@);
        }
        BTreeMultiSet { items }
    }
}

} // verus!
