//! Boards as the player sees them, with the stacks and slots in their
//! places, and the way between them and snapshots.

use crate::collection::{views, BTreeMultiSet, Sortable};
use crate::counting::{lemma_position_counts, lemma_some_position};
use crate::state;
use crate::state::{stack_precedes, Card, CardStack, Output, PlaceHolder, State};
use vstd::multiset::Multiset;
use vstd::prelude::*;

verus! {

/// What is remembered of a board when it becomes a snapshot: its stacks in
/// their places.
pub struct DenormalizationInformation {
    initial_stacks: Vec<CardStack>,
}

impl DenormalizationInformation {
    /// The stacks of the board that was remembered, in their places.
    pub closed spec fn initial(&self) -> Seq<Seq<Card>> {
        views(self.initial_stacks@)
    }

    /// The stacks of the board that was remembered, in their places.
    pub fn initial_stacks(&self) -> (r: &Vec<CardStack>)
        ensures
            views(r@) == self.initial(),
    {
        &self.initial_stacks
    }
}

/// A snapshot together with what is needed to show it.
pub struct DisplayState {
    pub state: State,
    pub denormalization_information: DenormalizationInformation,
}

/// The holding slots in their places.
#[derive(Debug, PartialOrd, Ord, Hash, PartialEq, Eq)]
pub struct PlaceHolders {
    pub holes: Vec<PlaceHolder>,
}

impl Clone for PlaceHolders {
    fn clone(&self) -> (r: Self)
        ensures
            r.holes@ == self.holes@,
    {
        PlaceHolders { holes: self.holes.clone() }
    }
}

impl Default for PlaceHolders {
    fn default() -> (r: Self)
        ensures
            r.holes@ == seq![PlaceHolder(None), PlaceHolder(None), PlaceHolder(None)],
    {
        let mut holes: Vec<PlaceHolder> = Vec::new();
        holes.push(PlaceHolder(None));
        holes.push(PlaceHolder(None));
        holes.push(PlaceHolder(None));
        assert(holes@ =~= seq![PlaceHolder(None), PlaceHolder(None), PlaceHolder(None)]);
        PlaceHolders { holes }
    }
}

/// A board as the player sees it: the stacks and the slots in their places.
pub struct DenormalizedState {
    pub placeholders: PlaceHolders,
    pub output: Output,
    pub board: Vec<CardStack>,
}

/// The number of cards, from the bottom, that two stacks have in common.
pub open spec fn common_prefix_len(a: Seq<Card>, b: Seq<Card>) -> nat
    decreases a.len(),
{
    if a.len() > 0 && b.len() > 0 && a[0] == b[0] {
        1 + common_prefix_len(a.drop_first(), b.drop_first())
    } else {
        0
    }
}

/// Of the stacks in `pool`, `chosen` is the one to show in the place of
/// `target`: none has more cards in common with `target` from the bottom,
/// and of those with as many it stands last in the canonical order.
pub open spec fn is_best_match(target: Seq<Card>, chosen: Seq<Card>, pool: Multiset<Seq<Card>>) -> bool {
    &&& pool.count(chosen) > 0
    &&& forall|other: Seq<Card>|
        pool.count(other) > 0 ==> {
            ||| common_prefix_len(target, other) < common_prefix_len(target, chosen)
            ||| common_prefix_len(target, other) == common_prefix_len(target, chosen)
                && #[trigger] stack_precedes(other, chosen)
        }
}

/// The stacks of `board` that are left when the first `upto` of `chosen`
/// have been taken out.
pub open spec fn pool_after(board: Multiset<Seq<Card>>, chosen: Seq<Seq<Card>>, upto: int) -> Multiset<
    Seq<Card>,
>
    decreases upto,
{
    if upto <= 0 {
        board
    } else {
        pool_after(board, chosen, upto - 1).remove(chosen[upto - 1])
    }
}

proof fn lemma_common_prefix_above(a: Seq<Card>, b: Seq<Card>, k: int)
    requires
        0 <= k <= a.len(),
        k <= b.len(),
        forall|i: int| 0 <= i < k ==> a[i] == b[i],
    ensures
        common_prefix_len(a, b) == k + common_prefix_len(a.skip(k), b.skip(k)),
    decreases k,
{
    if k == 0 {
        assert(a.skip(0) =~= a);
        assert(b.skip(0) =~= b);
    } else {
        assert(a[0] == b[0]);
        assert forall|i: int| 0 <= i < k - 1 implies a.drop_first()[i] == b.drop_first()[i] by {
            assert(a.drop_first()[i] == a[i + 1]);
            assert(b.drop_first()[i] == b[i + 1]);
        }
        lemma_common_prefix_above(a.drop_first(), b.drop_first(), k - 1);
        assert(a.drop_first().skip(k - 1) =~= a.skip(k));
        assert(b.drop_first().skip(k - 1) =~= b.skip(k));
    }
}

/// The number of cards, from the bottom, that two stacks have in common.
pub fn common_prefix(a: &CardStack, b: &CardStack) -> (r: usize)
    ensures
        r == common_prefix_len(a@, b@),
{
    let mut i: usize = 0;
    while i < a.cards.len() && i < b.cards.len() && a.cards[i] == b.cards[i]
        invariant
            i <= a.cards.len(),
            i <= b.cards.len(),
            forall|k: int| 0 <= k < i ==> a@[k] == b@[k],
        decreases a.cards.len() - i,
    {
        i += 1;
    }
    proof {
        lemma_common_prefix_above(a@, b@, i as int);
        if i < a.cards.len() && i < b.cards.len() {
            assert(a@.skip(i as int)[0] == a@[i as int]);
            assert(b@.skip(i as int)[0] == b@[i as int]);
        }
    }
    i
}

fn best_match(available: &BTreeMultiSet<CardStack>, target: &CardStack) -> (r: CardStack)
    requires
        available@.len() > 0,
    ensures
        is_best_match(target@, r@, available@),
{
    let stacks = available.iter();
    let ghost pool = available.ordered();
    proof {
        pool.to_multiset_ensures();
    }
    let mut best: usize = 0;
    let mut best_len = common_prefix(target, &stacks[0]);
    let mut i: usize = 1;
    proof {
        assert(views(stacks@)[0] == stacks[0]@);
    }
    while i < stacks.len()
        invariant
            1 <= i <= stacks.len(),
            best < i,
            pool == available.ordered(),
            views(stacks@) == pool,
            best_len == common_prefix_len(target@, pool[best as int]),
            forall|k: int|
                0 <= k < i ==> common_prefix_len(target@, #[trigger] pool[k]) < best_len || (
                common_prefix_len(target@, pool[k]) == best_len && k <= best),
        decreases stacks.len() - i,
    {
        proof {
            assert(views(stacks@)[i as int] == stacks[i as int]@);
        }
        let len = common_prefix(target, &stacks[i]);
        if len >= best_len {
            best = i;
            best_len = len;
        }
        i += 1;
    }
    proof {
        assert(views(stacks@)[best as int] == stacks[best as int]@);
        lemma_position_counts(pool, best as int);
        assert forall|other: Seq<Card>| available@.count(other) > 0 implies {
            ||| common_prefix_len(target@, other) < common_prefix_len(target@, pool[best as int])
            ||| common_prefix_len(target@, other) == common_prefix_len(target@, pool[best as int])
                && #[trigger] stack_precedes(other, pool[best as int])
        } by {
            let k = lemma_some_position(pool, other);
            if k <= best {
                assert(CardStack::precedes(pool[k], pool[best as int]));
            }
        }
    }
    stacks[best].clone()
}

impl State {
    /// The board as the player sees it: in the place of each remembered
    /// stack, the stack of this snapshot that has most in common with it,
    /// of those not yet shown; the slots in canonical order.
    pub fn denormalize(self, denormalization_information: &DenormalizationInformation) -> (r:
        DenormalizedState)
        requires
            denormalization_information.initial().len() <= self@.board.len(),
        ensures
            r.output == self.output,
            views(r.placeholders.holes@) == self.placeholders.holes.ordered(),
            r.board.len() == denormalization_information.initial().len(),
            forall|i: int|
                0 <= i < r.board.len() ==> is_best_match(
                    denormalization_information.initial()[i],
                    #[trigger] r.board[i]@,
                    pool_after(self@.board, views(r.board@), i),
                ),
            self@.board == views(r.board@).to_multiset().add(
                pool_after(self@.board, views(r.board@), r.board.len() as int),
            ),
    {
        let State { placeholders, output, board } = self;
        let mut available = board;
        let ghost whole = available@;
        let initial_stacks = &denormalization_information.initial_stacks;
        let ghost initial = denormalization_information.initial();
        let mut shown: Vec<CardStack> = Vec::new();
        let mut i: usize = 0;
        proof {
            assert(views(shown@) =~= Seq::<Seq<Card>>::empty());
            views(shown@).to_multiset_ensures();
            assert(views(shown@).to_multiset().len() == 0);
            assert(whole =~= views(shown@).to_multiset().add(whole));
        }
        while i < initial_stacks.len()
            invariant
                i <= initial_stacks.len(),
                initial == views(initial_stacks@),
                initial.len() <= whole.len(),
                shown.len() == i,
                available@ == pool_after(whole, views(shown@), i as int),
                available@.len() + i == whole.len(),
                whole == views(shown@).to_multiset().add(available@),
                forall|k: int|
                    0 <= k < i ==> is_best_match(
                        initial[k],
                        #[trigger] shown[k]@,
                        pool_after(whole, views(shown@), k),
                    ),
            decreases initial_stacks.len() - i,
        {
            proof {
                assert(views(initial_stacks@)[i as int] == initial_stacks[i as int]@);
            }
            let matching_stack = best_match(&available, &initial_stacks[i]);
            let matching_stack = available.remove(&matching_stack).unwrap();
            let ghost before = views(shown@);
            let ghost chosen = matching_stack@;
            shown.push(matching_stack);
            proof {
                let after = views(shown@);
                assert(after =~= before.push(chosen));
                before.to_multiset_ensures();
                lemma_pool_after_push(whole, before, chosen, i as int);
                assert forall|k: int| 0 <= k < i + 1 implies is_best_match(
                    initial[k],
                    #[trigger] shown[k]@,
                    pool_after(whole, after, k),
                ) by {
                    lemma_pool_after_push(whole, before, chosen, k);
                    if k < i {
                        assert(shown[k]@ == before[k]);
                    }
                }
                assert(whole =~= after.to_multiset().add(available@));
            }
            i += 1;
        }
        let holes = placeholders.holes.iter();
        let mut slots: Vec<PlaceHolder> = Vec::new();
        let mut j: usize = 0;
        while j < holes.len()
            invariant
                j <= holes.len(),
                views(holes@) == placeholders.holes.ordered(),
                slots@ == holes@.take(j as int),
            decreases holes.len() - j,
        {
            slots.push(holes[j]);
            proof {
                assert(slots@ =~= holes@.take(j + 1));
            }
            j += 1;
        }
        proof {
            assert(holes@.take(j as int) =~= holes@);
            assert(views(slots@) =~= views(holes@));
        }
        DenormalizedState { placeholders: PlaceHolders { holes: slots }, output, board: shown }
    }
}

/// What is left after the first stacks have been taken out does not depend
/// on the stacks that are taken out later.
proof fn lemma_pool_after_push(
    board: Multiset<Seq<Card>>,
    chosen: Seq<Seq<Card>>,
    next: Seq<Card>,
    upto: int,
)
    requires
        0 <= upto <= chosen.len(),
    ensures
        pool_after(board, chosen.push(next), upto) == pool_after(board, chosen, upto),
        upto == chosen.len() ==> pool_after(board, chosen.push(next), upto + 1) == pool_after(
            board,
            chosen,
            upto,
        ).remove(next),
    decreases upto,
{
    if upto > 0 {
        lemma_pool_after_push(board, chosen, next, upto - 1);
        assert(chosen.push(next)[upto - 1] == chosen[upto - 1]);
    }
    if upto == chosen.len() {
        assert(chosen.push(next)[upto] == next);
    }
}

impl DenormalizedState {
    /// The snapshot of this board, in which the places of the stacks and
    /// slots no longer matter, and what is needed to show the snapshots that
    /// follow from it with the stacks in their places.
    pub fn normalize(self) -> (r: (State, DenormalizationInformation))
        ensures
            r.0@.board == views(self.board@).to_multiset(),
            r.0@.holes == self.placeholders.holes@.to_multiset(),
            r.0.output == self.output,
            r.1.initial() == views(self.board@),
    {
        let mut initial_stacks: Vec<CardStack> = Vec::new();
        let mut i: usize = 0;
        while i < self.board.len()
            invariant
                i <= self.board.len(),
                views(initial_stacks@) == views(self.board@).take(i as int),
            decreases self.board.len() - i,
        {
            let ghost before = views(initial_stacks@);
            initial_stacks.push(self.board[i].clone());
            proof {
                assert(views(initial_stacks@) =~= before.push(self.board@[i as int]@));
                assert(views(self.board@).take(i + 1) =~= views(self.board@).take(i as int).push(
                    self.board@[i as int]@,
                ));
            }
            i += 1;
        }
        proof {
            assert(views(self.board@).take(i as int) =~= views(self.board@));
            assert(views(self.placeholders.holes@) =~= self.placeholders.holes@);
        }
        let information = DenormalizationInformation { initial_stacks };
        let state = State {
            board: BTreeMultiSet::from_vec(self.board),
            output: self.output,
            placeholders: state::PlaceHolders {
                holes: BTreeMultiSet::from_vec(self.placeholders.holes),
            },
        };
        (state, information)
    }
}

} // verus!
