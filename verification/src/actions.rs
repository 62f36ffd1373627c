//! The move generator: every snapshot that one legal move leads to.

use crate::collection::views;
use crate::combinations::{
    cartesian_product, lemma_pairs_complete, lemma_pairs_sound, lemma_pairs_views,
    lemma_product_complete, lemma_product_sound, lemma_product_views, pair_combinations,
    pairs_in_order, product_in_order,
};
use crate::counting::{
    lemma_concat_count, lemma_contains_push, lemma_filter_count, lemma_filter_empty,
    lemma_filter_step, lemma_map_count, lemma_map_count_outside, lemma_position_counts,
    lemma_positions_count, lemma_some_position, lemma_two_positions,
};
use crate::rules::{
    allowed_in, as_hole_place, as_hole_unit, as_stack_place, hole_unit, holds_card, holds_of,
    is_free, laying, lemma_families_cover, lemma_no_self_relocation,
    lemma_promotion_is_symmetric, lemma_run_length_bounds, promoting, promotion_of, receives,
    relocation, relocations, run_length, runs_of, shows_accepted, shows_beast, shows_pirate,
    stack_unit, stack_units, stacks_onto, takes, top_cards, Family, Move, Place, Unit,
};
use crate::state::{
    color_index, Beast, Card, CardOrBundle, CardStack, NormalCard, Output, PlaceHolder, State,
    StateView,
};
use vstd::prelude::*;
use vstd::slice::slice_subrange;

verus! {

/// A place in a snapshot from which a card can be taken: the top of one of
/// its stacks, or one of its holding slots.
#[derive(Clone, Copy)]
pub enum CardLocation<'a> {
    Stack(&'a CardStack),
    PlaceHolder(&'a PlaceHolder),
}

impl<'a> View for CardLocation<'a> {
    type V = Place;

    open spec fn view(&self) -> Place {
        match *self {
            CardLocation::Stack(stack) => Place::Stack(stack@),
            CardLocation::PlaceHolder(hole) => Place::Hole(*hole),
        }
    }
}

impl<'a> CardLocation<'a> {
    /// The card that lies open at this location, if any.
    pub fn peek(&self) -> (r: Option<Card>)
        ensures
            r == self@.card(),
    {
        match self {
            CardLocation::Stack(stack) => {
                let n = stack.cards.len();
                if n > 0 {
                    Some(stack.cards[n - 1])
                } else {
                    None
                }
            },
            CardLocation::PlaceHolder(hole) => match hole.0 {
                Some(CardOrBundle::Card(card)) => Some(card),
                _ => None,
            },
        }
    }
}

impl<'a> CardLocation<'a> {
    /// Whether no card lies open at this location: the stack is empty, or the
    /// slot is empty or holds a bundle.
    pub fn is_empty(&self) -> (r: bool)
        ensures
            r == self@.card().is_none(),
    {
        self.peek().is_none()
    }
}

impl Output {
    /// Whether the output piles take `card`: its rank is one above the pile
    /// of its suit.
    pub fn can_output_card(&self, card: &NormalCard) -> (r: bool)
        ensures
            r == (card.number.0 == self@[color_index(card.color)] + 1),
    {
        let top = self.tally(&card.color);
        top.0 < u8::MAX && top.next().0 == card.number.0
    }
}

impl Card {
    /// Whether `card_to_place` can be laid on this card: both are normal
    /// cards, this one is exactly one rank higher, and the suits differ.
    pub fn can_stack_with(&self, card_to_place: &Card) -> (r: bool)
        ensures
            r == stacks_onto(*self, *card_to_place),
    {
        match (self.normal(), card_to_place.normal()) {
            (Some(card), Some(card_to_place)) => {
                card_to_place.number.0 < u8::MAX && card.number.0 == card_to_place.number.next().0
                    && card.color != card_to_place.color
            },
            _ => false,
        }
    }
}

impl CardStack {
    /// Whether this stack takes `card_to_place` on top: it is empty, or its
    /// top card can have the card laid on it.
    pub fn can_stack_with(&self, card_to_place: &Card) -> (r: bool)
        ensures
            r == receives(self@, *card_to_place),
    {
        let n = self.cards.len();
        if n == 0 {
            true
        } else {
            self.cards[n - 1].can_stack_with(card_to_place)
        }
    }

    /// The length of the longest run at the top of this stack that can be
    /// moved as one unit.
    pub fn max_split_size(&self) -> (r: usize)
        ensures
            r == run_length(self@),
    {
        let n = self.cards.len();
        if n == 0 {
            return 0;
        }
        let mut size: usize = 1;
        proof {
            assert(self@.take(n as int) =~= self@);
        }
        while size < n && self.cards[n - size - 1].can_stack_with(&self.cards[n - size])
            invariant
                n == self.cards.len(),
                1 <= size <= n,
                run_length(self@) == run_length(self@.take(n - size + 1)) + size - 1,
                run_length(self@.take(n - size + 1)) >= 1,
            decreases n - size,
        {
            proof {
                let upper = self@.take(n - size + 1);
                assert(upper.drop_last() =~= self@.take(n - size));
                assert(upper.last() == self@[n - size]);
                assert(upper[upper.len() - 2] == self@[n - size - 1]);
            }
            size += 1;
        }
        proof {
            let upper = self@.take(n - size + 1);
            if size < n {
                assert(upper.last() == self@[n - size]);
                assert(upper[upper.len() - 2] == self@[n - size - 1]);
            }
        }
        size
    }
}

/// Some cards of a snapshot that can move together, with the place they lie
/// at: a run at the top of a stack, or the single card of a slot.
#[allow(inconsistent_fields)]
pub enum CardSplitOrigin<'a> {
    Stack { location: &'a CardStack, cards: &'a [Card] },
    PlaceHolder { location: &'a PlaceHolder, card: &'a Card },
}

impl<'a> View for CardSplitOrigin<'a> {
    type V = Unit;

    open spec fn view(&self) -> Unit {
        match *self {
            CardSplitOrigin::Stack { location, cards } => Unit {
                from: Place::Stack(location@),
                cards: cards@,
            },
            CardSplitOrigin::PlaceHolder { location, card } => Unit {
                from: Place::Hole(*location),
                cards: seq![*card],
            },
        }
    }
}

/// What is left of `state` after the open card of a place has gone to the
/// output piles.
pub open spec fn leaving_output(state: StateView) -> spec_fn(Place) -> StateView {
    |from: Place| state.after(Move::Output { from })
}

/// What is left of `from` after the top card of `stack` has gone into the
/// empty slot `hole`: the same whichever empty slot takes the card.
pub open spec fn held(from: StateView, stack: Seq<Card>, hole: PlaceHolder) -> StateView {
    from.after(Move::Hold { stack })
}

/// What is left of `from` after `unit` has been laid on the stack `onto`.
pub open spec fn relocated(from: StateView, unit: Unit, onto: Seq<Card>) -> StateView {
    from.after(relocation(unit, onto))
}

/// The promotion of a beast with two pirates, each named by its location.
pub open spec fn promotion<'a>(
    combo: (CardLocation<'a>, (CardLocation<'a>, CardLocation<'a>)),
) -> Move {
    Move::Promote { beast: combo.0@, first: combo.1.0@, second: combo.1.1@ }
}

/// What is left of `from` after the promotion `combo`.
pub open spec fn promoted<'a>(
    from: StateView,
    combo: (CardLocation<'a>, (CardLocation<'a>, CardLocation<'a>)),
) -> StateView {
    from.after(promotion(combo))
}

/// The first components of a sequence of pairs, as places.
pub open spec fn pair_places<'a>(pairs: Seq<(CardLocation<'a>, NormalCard)>) -> Seq<Place> {
    Seq::new(pairs.len(), |i: int| pairs[i].0@)
}

impl State {
    /// The places of this snapshot in the order of enumeration: the stacks
    /// first, then the slots, each group in canonical order.
    pub open spec fn places(&self) -> Seq<Place> {
        self.board.ordered().map_values(as_stack_place())
            + self.placeholders.holes.ordered().map_values(as_hole_place())
    }

    /// The enumeration holds each place as often as the snapshot does.
    pub proof fn lemma_places_count(&self, p: Place)
        ensures
            self.places().to_multiset().count(p) == self@.count_of(p),
    {
        let stacks = self.board.ordered();
        let holes = self.placeholders.holes.ordered();
        lemma_concat_count(
            stacks.map_values(as_stack_place()),
            holes.map_values(as_hole_place()),
            p,
        );
        match p {
            Place::Stack(s) => {
                lemma_map_count(stacks, as_stack_place(), s);
                lemma_map_count_outside(holes, as_hole_place(), p);
            },
            Place::Hole(h) => {
                lemma_map_count(holes, as_hole_place(), h);
                lemma_map_count_outside(stacks, as_stack_place(), p);
            },
        }
    }

    /// A place that passes a filter over the places of this snapshot is one
    /// of its places.
    pub proof fn lemma_filtered_place(&self, pred: spec_fn(Place) -> bool, k: int)
        requires
            0 <= k < self.places().filter(pred).len(),
        ensures
            pred(self.places().filter(pred)[k]),
            self@.count_of(self.places().filter(pred)[k]) > 0,
    {
        let kept = self.places().filter(pred);
        self.places().lemma_filter_pred(pred, k);
        assert(kept.contains(kept[k]));
        self.places().lemma_filter_contains_rev(pred, kept[k]);
        self.places().to_multiset_ensures();
        self.lemma_places_count(kept[k]);
    }

    /// A place of this snapshot that passes a filter stands among the places
    /// that the filter keeps; when the snapshot has it twice, it stands there
    /// at two positions.
    pub proof fn lemma_place_is_kept(&self, pred: spec_fn(Place) -> bool, p: Place)
        requires
            pred(p),
        ensures
            self.places().filter(pred).to_multiset().count(p) == self@.count_of(p),
    {
        self.lemma_places_count(p);
        lemma_filter_count(self.places(), pred, p);
    }

    /// Every place of this snapshot: the top of each stack, then each slot.
    pub fn locations(&self) -> (r: Vec<CardLocation<'_>>)
        ensures
            views(r@) == self.places(),
    {
        let stacks = self.board.iter();
        let holes = self.placeholders.holes.iter();
        let mut r: Vec<CardLocation<'_>> = Vec::new();
        let mut i: usize = 0;
        while i < stacks.len()
            invariant
                i <= stacks.len(),
                views(stacks@) == self.board.ordered(),
                views(r@) == self.board.ordered().take(i as int).map_values(as_stack_place()),
            decreases stacks.len() - i,
        {
            let ghost before = views(r@);
            r.push(CardLocation::Stack(&stacks[i]));
            proof {
                assert(views(stacks@)[i as int] == stacks@[i as int]@);
                assert(views(r@) =~= before.push(Place::Stack(stacks@[i as int]@)));
                assert(self.board.ordered().take(i + 1) =~= self.board.ordered().take(
                    i as int,
                ).push(self.board.ordered()[i as int]));
                assert(views(r@) =~= self.board.ordered().take(i + 1).map_values(
                    as_stack_place(),
                ));
            }
            i += 1;
        }
        proof {
            assert(self.board.ordered().take(i as int) =~= self.board.ordered());
        }
        let mut j: usize = 0;
        while j < holes.len()
            invariant
                j <= holes.len(),
                views(holes@) == self.placeholders.holes.ordered(),
                views(r@) == self.board.ordered().map_values(as_stack_place())
                    + self.placeholders.holes.ordered().take(j as int).map_values(
                    as_hole_place(),
                ),
            decreases holes.len() - j,
        {
            let ghost before = views(r@);
            r.push(CardLocation::PlaceHolder(&holes[j]));
            proof {
                assert(views(holes@)[j as int] == holes@[j as int]@);
                assert(views(r@) =~= before.push(Place::Hole(holes@[j as int])));
                assert(self.placeholders.holes.ordered().take(j + 1)
                    =~= self.placeholders.holes.ordered().take(j as int).push(
                    self.placeholders.holes.ordered()[j as int],
                ));
                assert(views(r@) =~= self.board.ordered().map_values(as_stack_place())
                    + self.placeholders.holes.ordered().take(j + 1).map_values(as_hole_place()));
            }
            j += 1;
        }
        proof {
            assert(self.placeholders.holes.ordered().take(j as int)
                =~= self.placeholders.holes.ordered());
        }
        r
    }

    /// Takes the open card at `location` away: the stack loses its top card,
    /// the slot becomes empty. Where the location offers no card, nothing
    /// changes.
    pub fn pop(&mut self, location: &CardLocation<'_>) -> (r: Option<Card>)
        requires
            old(self)@.count_of(location@) > 0,
        ensures
            r == location@.card(),
            final(self)@ == old(self)@.without_card_at(location@),
    {
        match location {
            CardLocation::Stack(stack) => {
                let mut stack_from = self.board.take(stack).unwrap();
                let card = stack_from.cards.pop();
                self.board.insert(stack_from);
                proof {
                    if card.is_none() {
                        assert(self.board@ =~= old(self).board@);
                    }
                }
                card
            },
            CardLocation::PlaceHolder(hole) => match hole.0 {
                Some(CardOrBundle::Card(card)) => {
                    let mut hole_from = self.placeholders.holes.take(hole).unwrap();
                    hole_from.0 = None;
                    self.placeholders.holes.insert(hole_from);
                    Some(card)
                },
                _ => None,
            },
        }
    }

    /// The snapshot after the open card at `location` has gone to the output
    /// pile of its suit.
    pub fn after_output(&self, location: &CardLocation<'_>, card: &NormalCard) -> (r: State)
        requires
            location@.card() == Some(Card::Normal(*card)),
            self@.allows(Move::Output { from: location@ }),
        ensures
            r@ == self@.after(Move::Output { from: location@ }),
    {
        let mut new_state = self.clone();
        new_state.pop(location);
        let mut top = new_state.output.tally(&card.color);
        top.next_inplace();
        new_state.output.set_tally(&card.color, top);
        new_state
    }

    /// The snapshot after the top `cards` of the stack `location` have gone
    /// onto the stack `onto`.
    pub fn after_stack_relocation(
        &self,
        location: &CardStack,
        cards: &[Card],
        onto: &CardStack,
    ) -> (r: State)
        requires
            cards@ == top_cards(location@, cards@.len()),
            self@.allows(
                Move::Relocate { from: Place::Stack(location@), count: cards@.len(), onto: onto@ },
            ),
        ensures
            r@ == self@.after(
                Move::Relocate { from: Place::Stack(location@), count: cards@.len(), onto: onto@ },
            ),
    {
        proof {
            lemma_run_length_bounds(location@);
            lemma_no_self_relocation(location@, cards@.len());
        }
        let mut new_state = self.clone();
        let mut from_stack = new_state.board.take(location).unwrap();
        let kept = from_stack.cards.len() - cards.len();
        from_stack.cards.truncate(kept);
        proof {
            assert(from_stack@ =~= location@.take(location@.len() - cards@.len()));
        }
        new_state.board.insert(from_stack);
        let mut stack = new_state.board.take(onto).unwrap();
        stack.cards.extend_from_slice(cards);
        proof {
            assert(stack@ =~= onto@ + top_cards(location@, cards@.len()));
        }
        new_state.board.insert(stack);
        new_state
    }

    /// The snapshot after the single `card` of the slot `location` has gone
    /// onto the stack `onto`.
    pub fn after_slot_relocation(
        &self,
        location: &PlaceHolder,
        card: &Card,
        onto: &CardStack,
    ) -> (r: State)
        requires
            location.0 == Some(CardOrBundle::Card(*card)),
            self@.allows(Move::Relocate { from: Place::Hole(*location), count: 1, onto: onto@ }),
        ensures
            r@ == self@.after(
                Move::Relocate { from: Place::Hole(*location), count: 1, onto: onto@ },
            ),
    {
        let mut new_state = self.clone();
        let mut hole = new_state.placeholders.holes.take(location).unwrap();
        hole.0 = None;
        new_state.placeholders.holes.insert(hole);
        let mut stack = new_state.board.take(onto).unwrap();
        stack.cards.push(*card);
        new_state.board.insert(stack);
        proof {
            assert(onto@.push(*card) =~= onto@ + seq![*card]);
        }
        new_state
    }

    /// The snapshot after the top card of `stack` has gone into the empty slot
    /// `hole`.
    pub fn after_hold(&self, stack: &CardStack, hole: &PlaceHolder) -> (r: State)
        requires
            hole.0.is_none(),
            self@.allows(Move::Hold { stack: stack@ }),
        ensures
            r@ == self@.after(Move::Hold { stack: stack@ }),
    {
        let mut new_state = self.clone();
        let mut stack_from = new_state.board.take(stack).unwrap();
        let card = stack_from.cards.pop().unwrap();
        new_state.board.insert(stack_from);
        let mut hole_into = new_state.placeholders.holes.take(hole).unwrap();
        hole_into.0 = Some(CardOrBundle::Card(card));
        new_state.placeholders.holes.insert(hole_into);
        new_state
    }

    /// The snapshot after the beast open at `beast` and the pirates open at
    /// `first` and `second` have become one bundle in a slot.
    pub fn after_promotion(
        &self,
        beast: &CardLocation<'_>,
        first: &CardLocation<'_>,
        second: &CardLocation<'_>,
    ) -> (r: State)
        requires
            self@.allows(Move::Promote { beast: beast@, first: first@, second: second@ }),
        ensures
            r@ == self@.after(Move::Promote { beast: beast@, first: first@, second: second@ }),
    {
        let mut new_state = self.clone();
        let kind = match new_state.pop(beast) {
            Some(Card::Beast(kind)) => kind,
            _ => {
                assert(false);
                Beast::Whale
            },
        };
        new_state.pop(first);
        new_state.pop(second);
        let mut bundle_place = new_state.placeholders.holes.take(&PlaceHolder(None)).unwrap();
        bundle_place.0 = Some(CardOrBundle::BeastBundle(kind));
        new_state.placeholders.holes.insert(bundle_place);
        new_state
    }

    /// What the output moves lead to, as they are listed: one snapshot for
    /// each place at which a normal card lies open that the output piles
    /// take, in the order of the places.
    pub open spec fn output_states(&self) -> Seq<StateView> {
        self.places().filter(shows_accepted(self@)).map_values(leaving_output(self@))
    }

    /// What the output moves lead to: one snapshot for each place at which a
    /// normal card lies open that the output piles take.
    pub fn card_output_states(&self) -> (r: Vec<State>)
        ensures
            views(r@) == self.output_states(),
            self@.yields(views(r@), Family::Output),
    {
        let outputs = self.valid_card_outputs();
        let ghost shown = self.places().filter(shows_accepted(self@));
        let ghost mut moves: Seq<Move> = Seq::empty();
        let mut r: Vec<State> = Vec::new();
        let mut i: usize = 0;
        while i < outputs.len()
            invariant
                i <= outputs.len(),
                r.len() == i,
                moves.len() == i,
                shown == self.places().filter(shows_accepted(self@)),
                pair_places(outputs@) == shown,
                forall|k: int|
                    0 <= k < outputs.len() ==> (#[trigger] outputs[k]).0@.card() == Some(
                        Card::Normal(outputs[k].1),
                    ),
                forall|k: int|
                    0 <= k < i ==> moves[k] == (Move::Output { from: shown[k] }) && self@.makes(
                        #[trigger] moves[k],
                        r[k]@,
                    ),
            decreases outputs.len() - i,
        {
            let location = outputs[i].0;
            let card = outputs[i].1;
            proof {
                assert(pair_places(outputs@)[i as int] == location@);
                self.lemma_filtered_place(shows_accepted(self@), i as int);
            }
            let new_state = self.after_output(&location, &card);
            proof {
                moves = moves.push(Move::Output { from: location@ });
            }
            r.push(new_state);
            i += 1;
        }
        proof {
            assert(outputs@.len() == pair_places(outputs@).len());
            assert(views(r@).len() == self.output_states().len());
            assert forall|k: int| 0 <= k < r.len() implies views(r@)[k] == self.output_states()[k] by {
                assert(self@.makes(moves[k], r[k]@));
            }
            assert(views(r@) =~= self.output_states());
            assert forall|k: int| 0 <= k < views(r@).len() implies self@.leads_by(
                Family::Output,
                #[trigger] views(r@)[k],
            ) by {
                assert(self@.makes(moves[k], views(r@)[k]));
            }
            assert forall|m: Move| m.family() == Family::Output && self@.allows(m) implies views(
                r@,
            ).contains(#[trigger] self@.after(m)) by {
                let p = m->Output_from;
                self.lemma_place_is_kept(shows_accepted(self@), p);
                let k = lemma_some_position(shown, p);
                assert(moves[k] == m);
                assert(self@.makes(moves[k], r[k]@));
                assert(views(r@)[k] == self@.after(m));
            }
        }
        r
    }

    /// What the hold moves lead to: one snapshot for each pair of a stack
    /// with a card and an empty slot.
    pub fn card_hold_states(&self) -> (r: Vec<State>)
        ensures
            views(r@) == self.hold_states(),
            self@.yields(views(r@), Family::Hold),
    {
        let stacks = self.board.iter();
        let holes = self.placeholders.holes.iter();
        let ghost board = self.board.ordered();
        let ghost slots = self.placeholders.holes.ordered();
        let ghost free = slots.filter(is_free()).len();
        let ghost mut moves: Seq<Move> = Seq::empty();
        let mut r: Vec<State> = Vec::new();
        let mut i: usize = 0;
        proof {
            assert(views(r@) =~= holds_of(self@, board.take(0), free));
        }
        while i < stacks.len()
            invariant
                i <= stacks.len(),
                free == slots.filter(is_free()).len(),
                views(r@) == holds_of(self@, board.take(i as int), free),
                board == self.board.ordered(),
                views(stacks@) == board,
                board.to_multiset() == self@.board,
                slots == self.placeholders.holes.ordered(),
                views(holes@) == slots,
                slots.to_multiset() == self@.holes,
                moves.len() == r.len(),
                forall|k: int|
                    0 <= k < r.len() ==> (#[trigger] moves[k]).family() == Family::Hold
                        && self@.makes(moves[k], r[k]@),
                forall|a: int, b: int|
                    0 <= a < i && 0 <= b < slots.len() && board[a].len() > 0 && slots[b].0.is_none()
                        ==> views(r@).contains(#[trigger] held(self@, board[a], slots[b])),
            decreases stacks.len() - i,
        {
            let stack = &stacks[i];
            proof {
                assert(views(stacks@)[i as int] == stack@);
                lemma_position_counts(board, i as int);
            }
            let mut j: usize = 0;
            let ghost start = views(r@);
            proof {
                lemma_filter_empty(slots.take(0), is_free());
                assert(views(r@) =~= start + Seq::new(
                    0,
                    |k: int| self@.after(Move::Hold { stack: stack@ }),
                ));
            }
            while j < holes.len()
                invariant
                    0 <= i < stacks.len(),
                    j <= holes.len(),
                    start == holds_of(self@, board.take(i as int), free),
                    views(r@) == start + if stack@.len() > 0 {
                        Seq::new(
                            slots.take(j as int).filter(is_free()).len(),
                            |k: int| self@.after(Move::Hold { stack: stack@ }),
                        )
                    } else {
                        Seq::empty()
                    },
                    stack@ == board[i as int],
                    self@.board.count(stack@) > 0,
                    board == self.board.ordered(),
                    slots == self.placeholders.holes.ordered(),
                    views(holes@) == slots,
                    slots.to_multiset() == self@.holes,
                    moves.len() == r.len(),
                    forall|k: int|
                        0 <= k < r.len() ==> (#[trigger] moves[k]).family() == Family::Hold
                            && self@.makes(moves[k], r[k]@),
                    forall|a: int, b: int|
                        0 <= a < i && 0 <= b < slots.len() && board[a].len() > 0
                            && slots[b].0.is_none() ==> views(r@).contains(
                            #[trigger] held(self@, board[a], slots[b]),
                        ),
                    forall|b: int|
                        0 <= b < j && stack@.len() > 0 && slots[b].0.is_none() ==> views(
                            r@,
                        ).contains(#[trigger] held(self@, stack@, slots[b])),
                decreases holes.len() - j,
            {
                let hole = &holes[j];
                proof {
                    assert(views(holes@)[j as int] == *hole);
                    lemma_position_counts(slots, j as int);
                    lemma_filter_step(slots, is_free(), j as int);
                }
                if stack.cards.len() > 0 && hole.0.is_none() {
                    let new_state = self.after_hold(stack, hole);
                    let ghost before = views(r@);
                    r.push(new_state);
                    proof {
                        moves = moves.push(Move::Hold { stack: stack@ });
                        let made = held(self@, stack@, *hole);
                        assert(views(r@) =~= before.push(made));
                        assert(views(r@) =~= start + Seq::new(
                            slots.take(j + 1).filter(is_free()).len(),
                            |k: int| self@.after(Move::Hold { stack: stack@ }),
                        ));
                        assert forall|a: int, b: int|
                            0 <= a < i && 0 <= b < slots.len() && board[a].len() > 0
                                && slots[b].0.is_none() implies views(r@).contains(
                            #[trigger] held(self@, board[a], slots[b]),
                        ) by {
                            lemma_contains_push(before, made, held(self@, board[a], slots[b]));
                        }
                        assert forall|b: int|
                            0 <= b < j + 1 && stack@.len() > 0 && slots[b].0.is_none() implies views(
                            r@,
                        ).contains(#[trigger] held(self@, stack@, slots[b])) by {
                            lemma_contains_push(before, made, held(self@, stack@, slots[b]));
                        }
                    }
                }
                j += 1;
            }
            proof {
                assert(slots.take(j as int) =~= slots);
                assert(board.take(i + 1).drop_last() =~= board.take(i as int));
                assert(board.take(i + 1).last() == stack@);
            }
            i += 1;
        }
        proof {
            assert(board.take(i as int) =~= board);
            assert forall|k: int| 0 <= k < views(r@).len() implies self@.leads_by(
                Family::Hold,
                #[trigger] views(r@)[k],
            ) by {
                assert(self@.makes(moves[k], views(r@)[k]));
            }
            assert forall|m: Move| m.family() == Family::Hold && self@.allows(m) implies views(
                r@,
            ).contains(#[trigger] self@.after(m)) by {
                let a = lemma_some_position(board, m->Hold_stack);
                let b = lemma_some_position(slots, PlaceHolder(None));
                assert(held(self@, board[a], slots[b]) == self@.after(m));
            }
        }
        r
    }

    /// What the relocation moves lead to, as they are listed: for each unit
    /// on offer in turn, one snapshot for each stack in turn that takes its
    /// lowest card.
    pub open spec fn split_states(&self) -> Seq<StateView> {
        relocations(self@, self.units(), self.board.ordered())
    }

    /// What the hold moves lead to, as they are listed: for each stack with
    /// a card in turn, one snapshot for each empty slot.
    pub open spec fn hold_states(&self) -> Seq<StateView> {
        holds_of(
            self@,
            self.board.ordered(),
            self.placeholders.holes.ordered().filter(is_free()).len(),
        )
    }

    /// What the promotions lead to, as they are listed: one snapshot for
    /// each beast lying open in turn and each two pirates lying open, the
    /// first of them with each later one in turn, where the promotion is
    /// allowed.
    pub open spec fn promotion_states(&self) -> Seq<StateView> {
        product_in_order(
            self.places().filter(shows_beast()),
            pairs_in_order(self.places().filter(shows_pirate())),
        ).filter(allowed_in(self@)).map_values(promoting(self@))
    }

    /// Every snapshot that one legal move leads to, as they are listed: what
    /// the output moves lead to, then the relocations, the hold moves and
    /// the promotions.
    pub open spec fn next_states(&self) -> Seq<StateView> {
        self.output_states() + self.split_states() + self.hold_states() + self.promotion_states()
    }

    /// What the relocation moves lead to: one snapshot for each unit on offer
    /// and each stack that takes its lowest card. Every stack is asked, that
    /// of the unit too, which never takes it.
    pub fn card_split_states(&self) -> (r: Vec<State>)
        ensures
            views(r@) == self.split_states(),
            self@.yields(views(r@), Family::Relocate),
    {
        let origins = self.valid_card_splits();
        let stacks = self.board.iter();
        let ghost board = self.board.ordered();
        let ghost units = views(origins@);
        let ghost mut moves: Seq<Move> = Seq::empty();
        let mut r: Vec<State> = Vec::new();
        let mut i: usize = 0;
        proof {
            assert(views(r@) =~= relocations(self@, units.take(0), board));
        }
        while i < origins.len()
            invariant
                i <= origins.len(),
                board == self.board.ordered(),
                views(stacks@) == board,
                board.to_multiset() == self@.board,
                units == views(origins@),
                units == self.units(),
                views(r@) == relocations(self@, units.take(i as int), board),
                forall|k: int| 0 <= k < origins.len() ==> self@.offers(#[trigger] origins[k]@),
                moves.len() == r.len(),
                forall|k: int|
                    0 <= k < r.len() ==> (#[trigger] moves[k]).family() == Family::Relocate
                        && self@.makes(moves[k], r[k]@),
                forall|a: int, b: int|
                    0 <= a < i && 0 <= b < board.len() && receives(board[b], units[a].cards[0])
                        ==> views(r@).contains(#[trigger] relocated(self@, units[a], board[b])),
            decreases origins.len() - i,
        {
            let origin = &origins[i];
            let ghost unit = origin@;
            proof {
                assert(units[i as int] == unit);
                assert(self@.offers(origins[i as int]@));
            }
            let mut j: usize = 0;
            proof {
                lemma_filter_empty(board.take(0), takes(unit));
                assert(views(r@) =~= relocations(self@, units.take(i as int), board) + board.take(
                    0,
                ).filter(takes(unit)).map_values(laying(self@, unit)));
            }
            while j < stacks.len()
                invariant
                    0 <= i < origins.len(),
                    j <= stacks.len(),
                    board == self.board.ordered(),
                    views(stacks@) == board,
                    board.to_multiset() == self@.board,
                    units == views(origins@),
                    views(r@) == relocations(self@, units.take(i as int), board) + board.take(
                        j as int,
                    ).filter(takes(unit)).map_values(laying(self@, unit)),
                    unit == origin@,
                    unit == units[i as int],
                    self@.offers(unit),
                    moves.len() == r.len(),
                    forall|k: int|
                        0 <= k < r.len() ==> (#[trigger] moves[k]).family() == Family::Relocate
                            && self@.makes(moves[k], r[k]@),
                    forall|a: int, b: int|
                        0 <= a < i && 0 <= b < board.len() && receives(
                            board[b],
                            units[a].cards[0],
                        ) ==> views(r@).contains(#[trigger] relocated(self@, units[a], board[b])),
                    forall|b: int|
                        0 <= b < j && receives(board[b], unit.cards[0]) ==> views(r@).contains(
                            #[trigger] relocated(self@, unit, board[b]),
                        ),
                decreases stacks.len() - j,
            {
                let onto = &stacks[j];
                proof {
                    assert(views(stacks@)[j as int] == onto@);
                    lemma_position_counts(board, j as int);
                    lemma_filter_step(board, takes(unit), j as int);
                }
                let made = match origin {
                    CardSplitOrigin::PlaceHolder { location, card } => {
                        proof {
                            assert(unit.cards[0] == **card);
                        }
                        if onto.can_stack_with(card) {
                            Some(self.after_slot_relocation(location, card, onto))
                        } else {
                            None
                        }
                    },
                    CardSplitOrigin::Stack { location, cards } => {
                        if onto.can_stack_with(&cards[0]) {
                            Some(self.after_stack_relocation(location, cards, onto))
                        } else {
                            None
                        }
                    },
                };
                if let Some(new_state) = made {
                    let ghost before = views(r@);
                    let ghost next = relocated(self@, unit, onto@);
                    proof {
                        assert(new_state@ == next);
                    }
                    r.push(new_state);
                    proof {
                        moves = moves.push(relocation(unit, onto@));
                        assert(views(r@) =~= before.push(next));
                        assert(views(r@) =~= relocations(self@, units.take(i as int), board)
                            + board.take(j + 1).filter(takes(unit)).map_values(
                            laying(self@, unit),
                        ));
                        assert forall|a: int, b: int|
                            0 <= a < i && 0 <= b < board.len() && receives(
                                board[b],
                                units[a].cards[0],
                            ) implies views(r@).contains(
                            #[trigger] relocated(self@, units[a], board[b]),
                        ) by {
                            lemma_contains_push(before, next, relocated(self@, units[a], board[b]));
                        }
                        assert forall|b: int|
                            0 <= b < j + 1 && receives(board[b], unit.cards[0]) implies views(
                            r@,
                        ).contains(#[trigger] relocated(self@, unit, board[b])) by {
                            lemma_contains_push(before, next, relocated(self@, unit, board[b]));
                        }
                    }
                }
                j += 1;
            }
            proof {
                assert(board.take(j as int) =~= board);
                assert(units.take(i + 1).drop_last() =~= units.take(i as int));
                assert(units.take(i + 1).last() == unit);
            }
            i += 1;
        }
        proof {
            assert(units.take(i as int) =~= units);
            assert forall|k: int| 0 <= k < views(r@).len() implies self@.leads_by(
                Family::Relocate,
                #[trigger] views(r@)[k],
            ) by {
                assert(self@.makes(moves[k], views(r@)[k]));
            }
            assert forall|m: Move|
                m.family() == Family::Relocate && self@.allows(m) implies views(r@).contains(
                #[trigger] self@.after(m),
            ) by {
                let from = m->Relocate_from;
                let unit = match from {
                    Place::Stack(s) => stack_unit(s, m->Relocate_count),
                    Place::Hole(h) => hole_unit(h),
                };
                if from is Stack {
                    lemma_run_length_bounds(from->Stack_0);
                }
                assert(self@.offers(unit));
                assert(units.contains(unit));
                let a = choose|a: int| 0 <= a < units.len() && units[a] == unit;
                let b = lemma_some_position(board, m->Relocate_onto);
                assert(relocation(units[a], board[b]) == m);
                assert(relocated(self@, units[a], board[b]) == self@.after(m));
            }
        }
        r
    }

    /// What the promotions lead to: one snapshot for each beast lying open
    /// and each two pirates lying open at different places, where a slot is
    /// there for the bundle.
    pub fn beast_promotion_states(&self) -> (r: Vec<State>)
        ensures
            views(r@) == self.promotion_states(),
            self@.yields(views(r@), Family::Promote),
    {
        let free_placeholder = self.placeholders.holes.position(&PlaceHolder(None));
        let ghost slots = self.placeholders.holes.ordered();
        proof {
            if let Some(at) = free_placeholder {
                lemma_position_counts(slots, at as int);
            }
        }
        let beasts = self.exposed_beasts();
        let pirates = self.exposed_pirates();
        let ghost beast_places = self.places().filter(shows_beast());
        let ghost pirate_places = self.places().filter(shows_pirate());
        let ghost beast_seq = beasts@;
        let ghost pirate_seq = pirates@;
        let pairs = pair_combinations(pirates);
        let ghost pair_seq = pairs@;
        let combos = cartesian_product(beasts, pairs);
        let ghost combo_places = views(combos@);
        let ghost mut moves: Seq<Move> = Seq::empty();
        let mut r: Vec<State> = Vec::new();
        let mut i: usize = 0;
        proof {
            lemma_pairs_views(pirate_seq);
            lemma_product_views(beast_seq, pair_seq);
            lemma_filter_empty(combo_places.take(0), allowed_in(self@));
            assert(views(r@) =~= combo_places.take(0).filter(allowed_in(self@)).map_values(
                promoting(self@),
            ));
        }
        while i < combos.len()
            invariant
                i <= combos.len(),
                combo_places == views(combos@),
                combo_places == product_in_order(beast_places, pairs_in_order(pirate_places)),
                views(r@) == combo_places.take(i as int).filter(allowed_in(self@)).map_values(
                    promoting(self@),
                ),
                free_placeholder.is_some() <==> self@.holes.count(PlaceHolder(None)) > 0,
                beast_places == self.places().filter(shows_beast()),
                pirate_places == self.places().filter(shows_pirate()),
                views(beast_seq) == beast_places,
                views(pirate_seq) == pirate_places,
                pair_seq == pairs_in_order(pirate_seq),
                combos@ == product_in_order(beast_seq, pair_seq),
                moves.len() == r.len(),
                forall|k: int|
                    0 <= k < r.len() ==> (#[trigger] moves[k]).family() == Family::Promote
                        && self@.makes(moves[k], r[k]@),
                forall|k: int|
                    0 <= k < i && self@.allows(promotion(combos@[k])) ==> views(r@).contains(
                        #[trigger] promoted(self@, combos@[k]),
                    ),
            decreases combos.len() - i,
        {
            let beast = combos[i].0;
            let first = combos[i].1.0;
            let second = combos[i].1.1;
            let free = match beast {
                CardLocation::Stack(_) => free_placeholder.is_some(),
                CardLocation::PlaceHolder(_) => true,
            };
            proof {
                let (a, q) = lemma_product_sound(beast_seq, pair_seq, i as int);
                let (x, y) = lemma_pairs_sound(pirate_seq, q);
                assert(beast@ == views(beast_seq)[a]);
                assert(first@ == views(pirate_seq)[x]);
                assert(second@ == views(pirate_seq)[y]);
                self.lemma_filtered_place(shows_beast(), a);
                self.lemma_filtered_place(shows_pirate(), x);
                self.lemma_filtered_place(shows_pirate(), y);
                lemma_positions_count(pirate_places, x, y);
                self.lemma_place_is_kept(shows_pirate(), first@);
                assert(free <==> self@.allows(promotion(combos@[i as int])));
                lemma_filter_step(combo_places, allowed_in(self@), i as int);
                assert(promotion_of(combo_places[i as int]) == promotion(combos@[i as int]));
            }
            if free {
                let new_state = self.after_promotion(&beast, &first, &second);
                let ghost before = views(r@);
                let ghost next = promoted(self@, combos@[i as int]);
                r.push(new_state);
                proof {
                    moves = moves.push(promotion(combos@[i as int]));
                    assert(views(r@) =~= before.push(next));
                    assert(views(r@) =~= combo_places.take(i + 1).filter(
                        allowed_in(self@),
                    ).map_values(promoting(self@)));
                    assert forall|k: int|
                        0 <= k < i + 1 && self@.allows(promotion(combos@[k])) implies views(
                        r@,
                    ).contains(#[trigger] promoted(self@, combos@[k])) by {
                        lemma_contains_push(before, next, promoted(self@, combos@[k]));
                    }
                }
            }
            i += 1;
        }
        proof {
            assert(combo_places.take(i as int) =~= combo_places);
            assert forall|k: int| 0 <= k < views(r@).len() implies self@.leads_by(
                Family::Promote,
                #[trigger] views(r@)[k],
            ) by {
                assert(self@.makes(moves[k], views(r@)[k]));
            }
            assert forall|m: Move|
                m.family() == Family::Promote && self@.allows(m) implies views(r@).contains(
                #[trigger] self@.after(m),
            ) by {
                let beast = m->Promote_beast;
                let first = m->Promote_first;
                let second = m->Promote_second;
                self.lemma_place_is_kept(shows_beast(), beast);
                self.lemma_place_is_kept(shows_pirate(), first);
                self.lemma_place_is_kept(shows_pirate(), second);
                let a = lemma_some_position(beast_places, beast);
                let (x, y) = if first == second {
                    lemma_two_positions(pirate_places, first)
                } else {
                    let x0 = lemma_some_position(pirate_places, first);
                    let y0 = lemma_some_position(pirate_places, second);
                    if x0 < y0 {
                        (x0, y0)
                    } else {
                        (y0, x0)
                    }
                };
                lemma_pairs_complete(pirate_seq, x, y);
                let pair = (pirate_seq[x], pirate_seq[y]);
                let q = choose|q: int| 0 <= q < pair_seq.len() && pair_seq[q] == pair;
                lemma_product_complete(beast_seq, pair_seq, a, q);
                let combo = (beast_seq[a], pair);
                let k = choose|k: int| 0 <= k < combos@.len() && combos@[k] == combo;
                assert(combo.0@ == views(beast_seq)[a]);
                assert(pair.0@ == views(pirate_seq)[x]);
                assert(pair.1@ == views(pirate_seq)[y]);
                if promotion(combo) != m {
                    lemma_promotion_is_symmetric(self@, beast, first, second);
                }
                assert(promoted(self@, combos@[k]) == self@.after(m));
            }
        }
        r
    }

    /// Every snapshot that one legal move leads to, and no other: what the
    /// output moves lead to, then the relocations, the hold moves and the
    /// promotions, one snapshot for each move as the families list them.
    pub fn get_next_states(&self) -> (r: Vec<State>)
        ensures
            views(r@) == self.next_states(),
            forall|next: StateView| views(r@).contains(next) <==> self@.leads_to(next),
    {
        let mut r = self.card_output_states();
        let mut card_split_states = self.card_split_states();
        let mut card_hold_states = self.card_hold_states();
        let mut beast_promotion_states = self.beast_promotion_states();
        proof {
            lemma_families_cover(
                self@,
                views(r@),
                views(card_split_states@),
                views(card_hold_states@),
                views(beast_promotion_states@),
            );
        }
        let ghost outputs = views(r@);
        let ghost relocations = views(card_split_states@);
        let ghost holds = views(card_hold_states@);
        let ghost promotions = views(beast_promotion_states@);
        r.append(&mut card_split_states);
        r.append(&mut card_hold_states);
        r.append(&mut beast_promotion_states);
        proof {
            assert(views(r@) =~= outputs + relocations + holds + promotions);
        }
        r
    }

    /// The places at which a beast lies open.
    pub fn exposed_beasts(&self) -> (r: Vec<CardLocation<'_>>)
        ensures
            views(r@) == self.places().filter(shows_beast()),
    {
        let all = self.locations();
        let mut r: Vec<CardLocation<'_>> = Vec::new();
        let mut i: usize = 0;
        proof {
            lemma_filter_empty(self.places().take(0), shows_beast());
        }
        while i < all.len()
            invariant
                i <= all.len(),
                views(all@) == self.places(),
                views(r@) == self.places().take(i as int).filter(shows_beast()),
            decreases all.len() - i,
        {
            proof {
                lemma_filter_step(self.places(), shows_beast(), i as int);
            }
            if let Some(Card::Beast(_)) = all[i].peek() {
                r.push(all[i]);
                proof {
                    assert(views(r@) =~= self.places().take(i as int).filter(shows_beast()).push(
                        self.places()[i as int],
                    ));
                }
            }
            i += 1;
        }
        proof {
            assert(self.places().take(i as int) =~= self.places());
        }
        r
    }

    /// The places at which a pirate lies open.
    pub fn exposed_pirates(&self) -> (r: Vec<CardLocation<'_>>)
        ensures
            views(r@) == self.places().filter(shows_pirate()),
    {
        let all = self.locations();
        let mut r: Vec<CardLocation<'_>> = Vec::new();
        let mut i: usize = 0;
        proof {
            lemma_filter_empty(self.places().take(0), shows_pirate());
        }
        while i < all.len()
            invariant
                i <= all.len(),
                views(all@) == self.places(),
                views(r@) == self.places().take(i as int).filter(shows_pirate()),
            decreases all.len() - i,
        {
            proof {
                lemma_filter_step(self.places(), shows_pirate(), i as int);
            }
            if let Some(Card::Pirate) = all[i].peek() {
                r.push(all[i]);
                proof {
                    assert(views(r@) =~= self.places().take(i as int).filter(shows_pirate()).push(
                        self.places()[i as int],
                    ));
                }
            }
            i += 1;
        }
        proof {
            assert(self.places().take(i as int) =~= self.places());
        }
        r
    }

    /// The units on offer, as they are listed: of each stack in turn, the runs
    /// at its top from the top card alone to the longest run; then, of each
    /// slot with a single card in turn, that card.
    pub open spec fn units(&self) -> Seq<Unit> {
        stack_units(self.board.ordered()) + self.placeholders.holes.ordered().filter(
            holds_card(),
        ).map_values(as_hole_unit())
    }

    /// The units that can be moved onto a stack: of each stack, every run at
    /// its top up to the longest, and no longer one; and of each slot with a
    /// single card, that card.
    pub fn valid_card_splits(&self) -> (r: Vec<CardSplitOrigin<'_>>)
        ensures
            views(r@) == self.units(),
            forall|i: int| 0 <= i < r.len() ==> self@.offers(#[trigger] r[i]@),
            forall|unit: Unit| self@.offers(unit) ==> views(r@).contains(unit),
    {
        let stacks = self.board.iter();
        let holes = self.placeholders.holes.iter();
        let ghost board = self.board.ordered();
        let ghost slots = self.placeholders.holes.ordered();
        let mut r: Vec<CardSplitOrigin<'_>> = Vec::new();
        let mut i: usize = 0;
        proof {
            assert(views(r@) =~= stack_units(board.take(0)));
        }
        while i < stacks.len()
            invariant
                i <= stacks.len(),
                board == self.board.ordered(),
                views(stacks@) == board,
                board.to_multiset() == self@.board,
                views(r@) == stack_units(board.take(i as int)),
                forall|k: int| 0 <= k < r.len() ==> self@.offers(#[trigger] r[k]@),
                forall|a: int, size: nat|
                    0 <= a < i && 1 <= size <= run_length(board[a]) ==> views(r@).contains(
                        #[trigger] stack_unit(board[a], size),
                    ),
            decreases stacks.len() - i,
        {
            let stack = &stacks[i];
            let max_split_size = stack.max_split_size();
            let n = stack.cards.len();
            let mut split_size: usize = 0;
            proof {
                assert(views(stacks@)[i as int] == stack@);
                lemma_run_length_bounds(stack@);
                lemma_position_counts(board, i as int);
            }
            proof {
                assert(views(r@) =~= stack_units(board.take(i as int)) + runs_of(stack@).take(0));
            }
            while split_size < max_split_size
                invariant
                    split_size <= max_split_size <= n,
                    max_split_size == run_length(stack@),
                    views(r@) == stack_units(board.take(i as int)) + runs_of(stack@).take(
                        split_size as int,
                    ),
                    n == stack.cards.len(),
                    0 <= i < stacks.len(),
                    stack@ == board[i as int],
                    self@.board.count(stack@) > 0,
                    forall|k: int| 0 <= k < r.len() ==> self@.offers(#[trigger] r[k]@),
                    forall|a: int, size: nat|
                        0 <= a < i && 1 <= size <= run_length(board[a]) ==> views(r@).contains(
                            #[trigger] stack_unit(board[a], size),
                        ),
                    forall|size: nat|
                        1 <= size <= split_size ==> views(r@).contains(
                            #[trigger] stack_unit(stack@, size),
                        ),
                decreases max_split_size - split_size,
            {
                split_size += 1;
                let cards = slice_subrange(stack.cards.as_slice(), n - split_size, n);
                let ghost before = views(r@);
                r.push(CardSplitOrigin::Stack { location: stack, cards });
                proof {
                    let unit = stack_unit(stack@, split_size as nat);
                    assert(cards@ =~= top_cards(stack@, split_size as nat));
                    assert(views(r@) =~= before.push(unit));
                    assert(runs_of(stack@).take(split_size as int) =~= runs_of(stack@).take(
                        split_size - 1,
                    ).push(unit));
                    assert(views(r@) =~= stack_units(board.take(i as int)) + runs_of(stack@).take(
                        split_size as int,
                    ));
                    assert forall|a: int, size: nat|
                        0 <= a < i && 1 <= size <= run_length(board[a]) implies views(
                        r@,
                    ).contains(#[trigger] stack_unit(board[a], size)) by {
                        lemma_contains_push(before, unit, stack_unit(board[a], size));
                    }
                    assert forall|size: nat| 1 <= size <= split_size implies views(r@).contains(
                        #[trigger] stack_unit(stack@, size),
                    ) by {
                        lemma_contains_push(before, unit, stack_unit(stack@, size));
                    }
                }
            }
            proof {
                assert(runs_of(stack@).take(split_size as int) =~= runs_of(stack@));
                assert(board.take(i + 1).drop_last() =~= board.take(i as int));
                assert(board.take(i + 1).last() == stack@);
            }
            i += 1;
        }
        let mut j: usize = 0;
        proof {
            assert(board.take(i as int) =~= board);
            lemma_filter_empty(slots.take(0), holds_card());
            assert(views(r@) =~= stack_units(board) + slots.take(0).filter(
                holds_card(),
            ).map_values(as_hole_unit()));
        }
        while j < holes.len()
            invariant
                j <= holes.len(),
                i == stacks.len(),
                board == self.board.ordered(),
                views(stacks@) == board,
                board.to_multiset() == self@.board,
                slots == self.placeholders.holes.ordered(),
                views(holes@) == slots,
                slots.to_multiset() == self@.holes,
                views(r@) == stack_units(board) + slots.take(j as int).filter(
                    holds_card(),
                ).map_values(as_hole_unit()),
                forall|k: int| 0 <= k < r.len() ==> self@.offers(#[trigger] r[k]@),
                forall|a: int, size: nat|
                    0 <= a < i && 1 <= size <= run_length(board[a]) ==> views(r@).contains(
                        #[trigger] stack_unit(board[a], size),
                    ),
                forall|b: int|
                    0 <= b < j && Place::Hole(slots[b]).card().is_some() ==> views(r@).contains(
                        #[trigger] hole_unit(slots[b]),
                    ),
            decreases holes.len() - j,
        {
            proof {
                assert(views(holes@)[j as int] == holes@[j as int]);
                lemma_position_counts(slots, j as int);
                lemma_filter_step(slots, holds_card(), j as int);
            }
            if let Some(CardOrBundle::Card(card)) = &holes[j].0 {
                let ghost before = views(r@);
                r.push(CardSplitOrigin::PlaceHolder { location: &holes[j], card });
                proof {
                    let unit = hole_unit(slots[j as int]);
                    assert(views(r@) =~= before.push(unit));
                    assert(views(r@) =~= stack_units(board) + slots.take(j + 1).filter(
                        holds_card(),
                    ).map_values(as_hole_unit()));
                    assert forall|a: int, size: nat|
                        0 <= a < i && 1 <= size <= run_length(board[a]) implies views(
                        r@,
                    ).contains(#[trigger] stack_unit(board[a], size)) by {
                        lemma_contains_push(before, unit, stack_unit(board[a], size));
                    }
                    assert forall|b: int|
                        0 <= b < j + 1 && Place::Hole(slots[b]).card().is_some() implies views(
                        r@,
                    ).contains(#[trigger] hole_unit(slots[b])) by {
                        lemma_contains_push(before, unit, hole_unit(slots[b]));
                    }
                }
            }
            j += 1;
        }
        proof {
            assert(slots.take(j as int) =~= slots);
            assert forall|unit: Unit| self@.offers(unit) implies views(r@).contains(unit) by {
                match unit.from {
                    Place::Stack(s) => {
                        let a = lemma_some_position(board, s);
                        assert(unit == stack_unit(board[a], unit.cards.len()));
                    },
                    Place::Hole(h) => {
                        let b = lemma_some_position(slots, h);
                        assert(unit == hole_unit(slots[b]));
                    },
                }
            }
        }
        r
    }

    /// The places from which a card can go to the output piles, each with
    /// that card: the normal cards lying open that are one rank above the
    /// pile of their suit.
    pub fn valid_card_outputs(&self) -> (r: Vec<(CardLocation<'_>, NormalCard)>)
        ensures
            pair_places(r@) == self.places().filter(shows_accepted(self@)),
            forall|i: int|
                0 <= i < r.len() ==> (#[trigger] r[i]).0@.card() == Some(Card::Normal(r[i].1)),
    {
        let all = self.locations();
        let mut r: Vec<(CardLocation<'_>, NormalCard)> = Vec::new();
        let mut i: usize = 0;
        proof {
            lemma_filter_empty(self.places().take(0), shows_accepted(self@));
            assert(pair_places(r@) =~= Seq::<Place>::empty());
        }
        while i < all.len()
            invariant
                i <= all.len(),
                views(all@) == self.places(),
                pair_places(r@) == self.places().take(i as int).filter(shows_accepted(self@)),
                forall|k: int|
                    0 <= k < r.len() ==> (#[trigger] r[k]).0@.card() == Some(Card::Normal(r[k].1)),
            decreases all.len() - i,
        {
            proof {
                lemma_filter_step(self.places(), shows_accepted(self@), i as int);
            }
            if let Some(Card::Normal(card)) = all[i].peek() {
                if self.output.can_output_card(&card) {
                    r.push((all[i], card));
                    proof {
                        assert(pair_places(r@) =~= self.places().take(i as int).filter(
                            shows_accepted(self@),
                        ).push(self.places()[i as int]));
                    }
                }
            }
            i += 1;
        }
        proof {
            assert(self.places().take(i as int) =~= self.places());
        }
        r
    }
}

} // verus!
