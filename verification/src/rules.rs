//! The rules of the game, stated over what a snapshot holds: which moves a
//! snapshot allows and what each of them leaves behind.

use crate::counting::total;
use crate::state::{
    color_index, Beast, Card, CardColor, CardOrBundle, NormalCard, PlaceHolder, StateView,
};
use vstd::prelude::*;

verus! {

/// A place from which a card can be taken: the top of a stack, named by the
/// cards of the stack, or a holding slot, named by what it holds.
pub ghost enum Place {
    Stack(Seq<Card>),
    Hole(PlaceHolder),
}

impl Place {
    /// The card that lies open at this place: the top card of a non-empty
    /// stack, or the single card in a slot. An empty stack, an empty slot and
    /// a slot with a bundle offer none.
    pub open spec fn card(self) -> Option<Card> {
        match self {
            Place::Stack(s) => if s.len() > 0 {
                Some(s.last())
            } else {
                None
            },
            Place::Hole(h) => match h.0 {
                Some(CardOrBundle::Card(c)) => Some(c),
                _ => None,
            },
        }
    }
}

/// Names a stack as a place.
pub open spec fn as_stack_place() -> spec_fn(Seq<Card>) -> Place {
    |s: Seq<Card>| Place::Stack(s)
}

/// Names a slot as a place.
pub open spec fn as_hole_place() -> spec_fn(PlaceHolder) -> Place {
    |h: PlaceHolder| Place::Hole(h)
}

/// The places at which a pirate lies open.
pub open spec fn shows_pirate() -> spec_fn(Place) -> bool {
    |p: Place| p.card() == Some(Card::Pirate)
}

/// The places at which a beast lies open.
pub open spec fn shows_beast() -> spec_fn(Place) -> bool {
    |p: Place| p.card() matches Some(Card::Beast(_))
}

/// The places at which a normal card lies open that the output piles of
/// `state` take.
pub open spec fn shows_accepted(state: StateView) -> spec_fn(Place) -> bool {
    |p: Place| p.card() matches Some(Card::Normal(n)) && state.accepts(n)
}

/// `below` can have `above` laid on it: both are normal cards, `below` is
/// exactly one rank higher, and the suits differ.
pub open spec fn stacks_onto(below: Card, above: Card) -> bool {
    match (below, above) {
        (Card::Normal(b), Card::Normal(a)) => b.number.0 == a.number.0 + 1 && b.color != a.color,
        _ => false,
    }
}

/// A stack takes `card` on top: it is empty, or its top card can have `card`
/// laid on it.
pub open spec fn receives(stack: Seq<Card>, card: Card) -> bool {
    stack.len() == 0 || stacks_onto(stack.last(), card)
}

/// The length of the longest run at the top of a stack in which every card
/// lies on one that can have it laid on it. Zero for an empty stack; the top
/// card alone is a run of one.
pub open spec fn run_length(stack: Seq<Card>) -> nat
    decreases stack.len(),
{
    if stack.len() == 0 {
        0
    } else if stack.len() >= 2 && stacks_onto(stack[stack.len() - 2], stack.last()) {
        1 + run_length(stack.drop_last())
    } else {
        1
    }
}

/// The top `count` cards of a stack, in their order.
pub open spec fn top_cards(stack: Seq<Card>, count: nat) -> Seq<Card> {
    stack.skip(stack.len() - count)
}

/// Every card of `cards` but the first lies on one that can have it laid on
/// it.
pub open spec fn is_run(cards: Seq<Card>) -> bool {
    forall|i: int| 0 < i < cards.len() ==> stacks_onto(cards[i - 1], #[trigger] cards[i])
}

/// The run at the top of a stack is no longer than the stack, and a stack
/// with a card has a run of at least that card.
pub proof fn lemma_run_length_bounds(stack: Seq<Card>)
    ensures
        run_length(stack) <= stack.len(),
        stack.len() > 0 ==> run_length(stack) >= 1,
    decreases stack.len(),
{
    if stack.len() >= 2 {
        lemma_run_length_bounds(stack.drop_last());
    }
}

/// In a run at the top of a stack, the lowest card is as many ranks above the
/// top card as cards lie on it.
pub proof fn lemma_run_ranks(stack: Seq<Card>, count: nat)
    requires
        2 <= count <= run_length(stack),
    ensures
        count <= stack.len(),
        stack[stack.len() - count] is Normal,
        stack.last() is Normal,
        stack[stack.len() - count]->Normal_0.number.0 == stack.last()->Normal_0.number.0 + count
            - 1,
    decreases count,
{
    lemma_run_length_bounds(stack);
    if count > 2 {
        lemma_run_ranks(stack.drop_last(), (count - 1) as nat);
    }
}

/// A unit taken from the top of a stack cannot be laid back on that stack:
/// no card of a run can have the lowest card of the run laid on it.
pub proof fn lemma_no_self_relocation(stack: Seq<Card>, count: nat)
    requires
        1 <= count <= run_length(stack),
    ensures
        !receives(stack, top_cards(stack, count)[0]),
{
    lemma_run_length_bounds(stack);
    if count >= 2 {
        lemma_run_ranks(stack, count);
    }
}

/// Some cards that can move together, and the place they lie at.
pub ghost struct Unit {
    pub from: Place,
    pub cards: Seq<Card>,
}

/// The top `size` cards of `stack`, as a unit.
pub open spec fn stack_unit(stack: Seq<Card>, size: nat) -> Unit {
    Unit { from: Place::Stack(stack), cards: top_cards(stack, size) }
}

/// The single card of the slot `hole`, as a unit.
pub open spec fn hole_unit(hole: PlaceHolder) -> Unit {
    Unit { from: Place::Hole(hole), cards: seq![Place::Hole(hole).card().unwrap()] }
}

/// The runs at the top of a stack, as units, from the top card alone to the
/// longest run.
pub open spec fn runs_of(stack: Seq<Card>) -> Seq<Unit> {
    Seq::new(run_length(stack), |k: int| stack_unit(stack, (k + 1) as nat))
}

/// The runs at the tops of some stacks, stack after stack.
pub open spec fn stack_units(board: Seq<Seq<Card>>) -> Seq<Unit>
    decreases board.len(),
{
    if board.len() == 0 {
        Seq::empty()
    } else {
        stack_units(board.drop_last()) + runs_of(board.last())
    }
}

/// The slots that hold a single card.
pub open spec fn holds_card() -> spec_fn(PlaceHolder) -> bool {
    |hole: PlaceHolder| Place::Hole(hole).card().is_some()
}

/// Names the single card of a slot as a unit.
pub open spec fn as_hole_unit() -> spec_fn(PlaceHolder) -> Unit {
    |hole: PlaceHolder| hole_unit(hole)
}

/// The stacks that take the lowest card of `unit`.
pub open spec fn takes(unit: Unit) -> spec_fn(Seq<Card>) -> bool {
    |onto: Seq<Card>| receives(onto, unit.cards[0])
}

/// What is left of `state` after `unit` has been laid on a stack.
pub open spec fn laying(state: StateView, unit: Unit) -> spec_fn(Seq<Card>) -> StateView {
    |onto: Seq<Card>| state.after(relocation(unit, onto))
}

/// What the relocations of some units lead to, as they are listed: for each
/// unit in turn, one snapshot for each stack of `board` in turn that takes
/// it.
pub open spec fn relocations(state: StateView, units: Seq<Unit>, board: Seq<Seq<Card>>) -> Seq<
    StateView,
>
    decreases units.len(),
{
    if units.len() == 0 {
        Seq::empty()
    } else {
        relocations(state, units.drop_last(), board) + board.filter(
            takes(units.last()),
        ).map_values(laying(state, units.last()))
    }
}

/// The empty slots.
pub open spec fn is_free() -> spec_fn(PlaceHolder) -> bool {
    |hole: PlaceHolder| hole.0.is_none()
}

/// What the hold moves from some stacks lead to, as they are listed: for
/// each stack with a card in turn, one snapshot for each of the `free`
/// empty slots.
pub open spec fn holds_of(state: StateView, board: Seq<Seq<Card>>, free: nat) -> Seq<StateView>
    decreases board.len(),
{
    if board.len() == 0 {
        Seq::empty()
    } else {
        holds_of(state, board.drop_last(), free) + if board.last().len() > 0 {
            Seq::new(free, |k: int| state.after(Move::Hold { stack: board.last() }))
        } else {
            Seq::empty()
        }
    }
}

/// The promotion of a beast with two pirates, each named by its place.
pub open spec fn promotion_of(combo: (Place, (Place, Place))) -> Move {
    Move::Promote { beast: combo.0, first: combo.1.0, second: combo.1.1 }
}

/// The promotions that `state` allows.
pub open spec fn allowed_in(state: StateView) -> spec_fn((Place, (Place, Place))) -> bool {
    |combo: (Place, (Place, Place))| state.allows(promotion_of(combo))
}

/// What is left of `state` after a promotion.
pub open spec fn promoting(state: StateView) -> spec_fn((Place, (Place, Place))) -> StateView {
    |combo: (Place, (Place, Place))| state.after(promotion_of(combo))
}

/// The four families of moves.
pub ghost enum Family {
    Output,
    Relocate,
    Hold,
    Promote,
}

/// One move of the game.
pub ghost enum Move {
    /// The open card at `from` goes to the output pile of its suit.
    Output { from: Place },
    /// The top `count` cards of the stack at `from`, or the single card of the
    /// slot at `from`, go onto the stack `onto`.
    Relocate { from: Place, count: nat, onto: Seq<Card> },
    /// The top card of the stack `stack` goes into an empty slot.
    Hold { stack: Seq<Card> },
    /// The beast open at `beast` and the pirates open at `first` and `second`
    /// become one bundle in a slot.
    Promote { beast: Place, first: Place, second: Place },
}

impl Move {
    /// The family that this move belongs to.
    pub open spec fn family(self) -> Family {
        match self {
            Move::Output { .. } => Family::Output,
            Move::Relocate { .. } => Family::Relocate,
            Move::Hold { .. } => Family::Hold,
            Move::Promote { .. } => Family::Promote,
        }
    }
}

/// The move that lays `unit` on the stack `onto`.
pub open spec fn relocation(unit: Unit, onto: Seq<Card>) -> Move {
    Move::Relocate { from: unit.from, count: unit.cards.len(), onto }
}

impl StateView {
    /// The height of the output pile of `color`.
    pub open spec fn tally(self, color: CardColor) -> nat {
        self.output[color_index(color)]
    }

    /// The output piles take `card`: it is one rank above the pile of its
    /// suit.
    pub open spec fn accepts(self, card: NormalCard) -> bool {
        card.number.0 == self.tally(card.color) + 1
    }

    /// How many stacks, or slots, of this snapshot are like `place`.
    pub open spec fn count_of(self, place: Place) -> nat {
        match place {
            Place::Stack(s) => self.board.count(s),
            Place::Hole(h) => self.holes.count(h),
        }
    }

    /// This snapshot with the open card of one `place` taken away: the stack
    /// loses its top card, the slot becomes empty. Where `place` offers no
    /// card, nothing changes.
    pub open spec fn without_card_at(self, place: Place) -> StateView {
        if place.card().is_none() {
            self
        } else {
            match place {
                Place::Stack(s) => StateView {
                    board: self.board.remove(s).insert(s.drop_last()),
                    ..self
                },
                Place::Hole(h) => StateView {
                    holes: self.holes.remove(h).insert(PlaceHolder(None)),
                    ..self
                },
            }
        }
    }

    /// This snapshot with `cards` laid on one stack like `onto`.
    pub open spec fn with_cards_on(self, onto: Seq<Card>, cards: Seq<Card>) -> StateView {
        StateView { board: self.board.remove(onto).insert(onto + cards), ..self }
    }

    /// This snapshot with one empty slot filled with `content`.
    pub open spec fn with_slot_filled(self, content: CardOrBundle) -> StateView {
        StateView {
            holes: self.holes.remove(PlaceHolder(None)).insert(PlaceHolder(Some(content))),
            ..self
        }
    }

    /// This snapshot offers `unit` to be moved: a run at the top of one of its
    /// stacks, no longer than the longest run there, or the single card in
    /// one of its slots.
    pub open spec fn offers(self, unit: Unit) -> bool {
        &&& self.count_of(unit.from) > 0
        &&& match unit.from {
            Place::Stack(s) => {
                &&& 1 <= unit.cards.len() <= run_length(s)
                &&& unit.cards == top_cards(s, unit.cards.len())
            },
            Place::Hole(h) => {
                &&& unit.from.card() matches Some(c)
                &&& unit.cards == seq![c]
            },
        }
    }

    /// This snapshot allows the move `m`.
    pub open spec fn allows(self, m: Move) -> bool {
        match m {
            Move::Output { from } => {
                &&& self.count_of(from) > 0
                &&& from.card() matches Some(Card::Normal(n))
                &&& self.accepts(n)
            },
            Move::Relocate { from, count, onto } => {
                &&& self.count_of(from) > 0
                &&& self.board.count(onto) > 0
                &&& match from {
                    Place::Stack(s) => {
                        &&& 1 <= count <= run_length(s)
                        &&& receives(onto, top_cards(s, count)[0])
                    },
                    Place::Hole(h) => {
                        &&& count == 1
                        &&& from.card() matches Some(c)
                        &&& receives(onto, c)
                    },
                }
            },
            Move::Hold { stack } => {
                &&& self.board.count(stack) > 0
                &&& stack.len() > 0
                &&& self.holes.count(PlaceHolder(None)) > 0
            },
            Move::Promote { beast, first, second } => {
                &&& self.count_of(beast) > 0
                &&& self.count_of(first) > 0
                &&& self.count_of(second) > 0
                &&& beast.card() matches Some(Card::Beast(_))
                &&& first.card() == Some(Card::Pirate)
                &&& second.card() == Some(Card::Pirate)
                &&& first == second ==> self.count_of(first) >= 2
                &&& beast is Stack ==> self.holes.count(PlaceHolder(None)) > 0
            },
        }
    }

    /// What the move `m` leaves of this snapshot.
    pub open spec fn after(self, m: Move) -> StateView {
        match m {
            Move::Output { from } => {
                let n = from.card().unwrap()->Normal_0;
                let taken = self.without_card_at(from);
                StateView {
                    output: self.output.update(color_index(n.color), n.number.0 as nat),
                    ..taken
                }
            },
            Move::Relocate { from, count, onto } => match from {
                Place::Stack(s) => StateView {
                    board: self.board.remove(s).insert(s.take(s.len() - count)),
                    ..self
                }.with_cards_on(onto, top_cards(s, count)),
                Place::Hole(h) => self.without_card_at(from).with_cards_on(
                    onto,
                    seq![from.card().unwrap()],
                ),
            },
            Move::Hold { stack } => self.without_card_at(Place::Stack(stack)).with_slot_filled(
                CardOrBundle::Card(stack.last()),
            ),
            Move::Promote { beast, first, second } => self.without_card_at(beast).without_card_at(
                first,
            ).without_card_at(second).with_slot_filled(
                CardOrBundle::BeastBundle(beast.card().unwrap()->Beast_0),
            ),
        }
    }

    /// The move `m` is allowed here and leaves `next`.
    pub open spec fn makes(self, m: Move, next: StateView) -> bool {
        self.allows(m) && self.after(m) == next
    }

    /// An allowed move of `family` leaves `next`.
    pub open spec fn leads_by(self, family: Family, next: StateView) -> bool {
        exists|m: Move| m.family() == family && #[trigger] self.makes(m, next)
    }

    /// The snapshots `next` are what the allowed moves of one `family` leave:
    /// each of them is left by such a move, and each such move leaves one of
    /// them.
    pub open spec fn yields(self, next: Seq<StateView>, family: Family) -> bool {
        &&& forall|i: int| 0 <= i < next.len() ==> self.leads_by(family, #[trigger] next[i])
        &&& forall|m: Move|
            m.family() == family && self.allows(m) ==> next.contains(#[trigger] self.after(m))
    }

    /// One move leads from this snapshot to `next`.
    pub open spec fn leads_to(self, next: StateView) -> bool {
        exists|m: Move| #[trigger] self.makes(m, next)
    }

    /// Every stack is empty: the game is won.
    pub open spec fn is_won(self) -> bool {
        forall|s: Seq<Card>| self.board.count(s) > 0 ==> s.len() == 0
    }

    /// How many slots hold a bundle.
    pub open spec fn bundles(self) -> nat {
        self.holes.count(bundle_slot(Beast::Whale)) + self.holes.count(
            bundle_slot(Beast::Tentacle),
        ) + self.holes.count(bundle_slot(Beast::Ship))
    }

    /// The estimate that guides the search: the cards that the output piles
    /// still lack, plus one for each slot that holds a bundle.
    pub open spec fn estimate(self) -> nat {
        owed(self.tally(CardColor::Red)) + owed(self.tally(CardColor::Teal)) + owed(
            self.tally(CardColor::Blue),
        ) + self.bundles()
    }

    /// The output tally has a height for each of the three suits.
    pub open spec fn well_formed(self) -> bool {
        self.output.len() == 3
    }

    /// How many cards lie on the stacks.
    pub open spec fn cards_on_stacks(self) -> nat {
        total(self.board, stack_height())
    }

    /// How many cards lie in the slots, not counting those in bundles.
    pub open spec fn cards_in_slots(self) -> nat {
        total(self.holes, slot_cards())
    }

    /// How many cards have gone to the output piles.
    pub open spec fn cards_output(self) -> nat {
        self.tally(CardColor::Red) + self.tally(CardColor::Teal) + self.tally(CardColor::Blue)
    }

    /// How many cards the snapshot accounts for: those on the stacks, in the
    /// slots and on the output piles, and three for each bundle.
    pub open spec fn population(self) -> nat {
        self.cards_on_stacks() + self.cards_in_slots() + self.cards_output() + 3 * self.bundles()
    }

    /// Moves lead from this snapshot to `last`, one after the other, or
    /// `last` is this snapshot.
    pub open spec fn reaches(self, last: StateView) -> bool {
        exists|path: Seq<StateView>| #[trigger] is_path(path) && path[0] == self && path.last() == last
    }
}

/// The number of cards of a stack.
pub open spec fn stack_height() -> spec_fn(Seq<Card>) -> nat {
    |stack: Seq<Card>| stack.len()
}

/// The number of single cards in a slot: one or none.
pub open spec fn slot_cards() -> spec_fn(PlaceHolder) -> nat {
    |hole: PlaceHolder|
        if Place::Hole(hole).card().is_some() {
            1nat
        } else {
            0nat
        }
}

/// A slot that holds the bundle of `beast`.
pub open spec fn bundle_slot(beast: Beast) -> PlaceHolder {
    PlaceHolder(Some(CardOrBundle::BeastBundle(beast)))
}

/// The cards that an output pile of the given height still lacks to hold
/// all nine ranks of its suit.
pub open spec fn owed(height: nat) -> nat {
    if height <= 9 {
        (9 - height) as nat
    } else {
        0
    }
}

/// A sequence of snapshots, each led to from the one before by one move.
pub open spec fn is_path(path: Seq<StateView>) -> bool {
    &&& path.len() >= 1
    &&& forall|i: int| 0 <= i < path.len() - 1 ==> (#[trigger] path[i]).leads_to(path[i + 1])
}

/// No snapshot occurs twice in the path.
pub open spec fn no_snapshot_twice(path: Seq<StateView>) -> bool {
    forall|i: int, j: int| 0 <= i < j < path.len() ==> path[i] != path[j]
}

/// A path from `start` to a snapshot in which the game is won.
pub open spec fn is_solution(start: StateView, path: Seq<StateView>) -> bool {
    &&& is_path(path)
    &&& path[0] == start
    &&& path.last().is_won()
}

/// It makes no difference which of the two pirates of a promotion is named
/// first.
pub proof fn lemma_promotion_is_symmetric(state: StateView, beast: Place, first: Place, second: Place)
    requires
        state.allows(Move::Promote { beast, first, second }),
    ensures
        state.allows(Move::Promote { beast, first: second, second: first }),
        state.after(Move::Promote { beast, first: second, second: first }) == state.after(
            Move::Promote { beast, first, second },
        ),
{
    let one = state.after(Move::Promote { beast, first, second });
    let other = state.after(Move::Promote { beast, first: second, second: first });
    assert(one.board =~= other.board);
    assert(one.holes =~= other.holes);
}

/// What one family yields is led to by one move.
proof fn lemma_family_sound(state: StateView, yielded: Seq<StateView>, family: Family, k: int)
    requires
        state.yields(yielded, family),
        0 <= k < yielded.len(),
    ensures
        state.leads_to(yielded[k]),
{
    assert(state.leads_by(family, yielded[k]));
    let m = choose|m: Move| m.family() == family && #[trigger] state.makes(m, yielded[k]);
    assert(state.makes(m, yielded[k]));
}

/// What a move of a family leaves is among what that family yields.
proof fn lemma_family_complete(state: StateView, yielded: Seq<StateView>, m: Move) -> (k: int)
    requires
        state.yields(yielded, m.family()),
        state.allows(m),
    ensures
        0 <= k < yielded.len(),
        yielded[k] == state.after(m),
{
    assert(yielded.contains(state.after(m)));
    choose|k: int| 0 <= k < yielded.len() && yielded[k] == state.after(m)
}

/// What the four families of moves yield together is what one move leads
/// to.
pub proof fn lemma_families_cover(
    state: StateView,
    outputs: Seq<StateView>,
    relocations: Seq<StateView>,
    holds: Seq<StateView>,
    promotions: Seq<StateView>,
)
    requires
        state.yields(outputs, Family::Output),
        state.yields(relocations, Family::Relocate),
        state.yields(holds, Family::Hold),
        state.yields(promotions, Family::Promote),
    ensures
        forall|next: StateView|
            (outputs + relocations + holds + promotions).contains(next) <==> state.leads_to(next),
{
    let all = outputs + relocations + holds + promotions;
    let a = outputs.len() as int;
    let b = a + relocations.len();
    let c = b + holds.len();
    assert forall|next: StateView| all.contains(next) implies state.leads_to(next) by {
        let k = choose|k: int| 0 <= k < all.len() && all[k] == next;
        if k < a {
            lemma_family_sound(state, outputs, Family::Output, k);
        } else if k < b {
            lemma_family_sound(state, relocations, Family::Relocate, k - a);
        } else if k < c {
            lemma_family_sound(state, holds, Family::Hold, k - b);
        } else {
            lemma_family_sound(state, promotions, Family::Promote, k - c);
        }
    }
    assert forall|next: StateView| state.leads_to(next) implies all.contains(next) by {
        let m = choose|m: Move| #[trigger] state.makes(m, next);
        let family = m.family();
        if family == Family::Output {
            let k = lemma_family_complete(state, outputs, m);
            assert(all[k] == next);
        } else if family == Family::Relocate {
            let k = lemma_family_complete(state, relocations, m);
            assert(all[a + k] == next);
        } else if family == Family::Hold {
            let k = lemma_family_complete(state, holds, m);
            assert(all[b + k] == next);
        } else {
            let k = lemma_family_complete(state, promotions, m);
            assert(all[c + k] == next);
        }
    }
}

} // verus!
