//! What holds of every snapshot and every move.

use crate::counting::{
    lemma_multiset_has_seq, lemma_sum_add, lemma_sum_const, lemma_sum_one, lemma_sum_same,
    lemma_total_of_seq, lemma_total_replace, seq_total, sum_upto, total,
};
use crate::godot_shuffle::{lemma_swap_keeps_the_items, swapped};
use crate::rules::{
    bundle_slot, is_path, is_run, lemma_no_self_relocation, lemma_run_length_bounds, run_length,
    slot_cards, stack_height, stack_unit, stacks_onto, top_cards, Move, Place, Unit,
};
use crate::solver::astar_outcome;
use crate::state::{
    empty_holes, Beast, Card, CardColor, CardOrBundle, PlaceHolder, StateView,
};
use crate::validators::{copies_in, expected_copies, lemma_regular_cards_complete, regular_cards};
use vstd::multiset::Multiset;
use vstd::prelude::*;

verus! {

/// A card may go to the output piles exactly when it is a normal card lying
/// open whose rank is one above the pile of its suit. The move then raises
/// that pile by exactly one and leaves the other piles as they are.
pub proof fn output_follows_the_tally(state: StateView, from: Place)
    requires
        state.well_formed(),
    ensures
        state.allows(Move::Output { from }) <==> ({
            &&& state.count_of(from) > 0
            &&& from.card() matches Some(Card::Normal(n))
            &&& n.number.0 == state.tally(n.color) + 1
        }),
        state.allows(Move::Output { from }) ==> {
            let n = from.card().unwrap()->Normal_0;
            let next = state.after(Move::Output { from });
            &&& next.well_formed()
            &&& next.tally(n.color) == state.tally(n.color) + 1
            &&& forall|color: CardColor| color != n.color ==> next.tally(color) == state.tally(color)
        },
{
}

/// No move lowers an output pile, and only an output move changes one.
pub proof fn tally_never_decreases(state: StateView, m: Move, color: CardColor)
    requires
        state.well_formed(),
        state.allows(m),
    ensures
        state.after(m).well_formed(),
        state.after(m).tally(color) >= state.tally(color),
        !(m is Output) ==> state.after(m).output == state.output,
{
}

/// The top `count` cards of a stack are no more than its longest run
/// exactly when each of them but the lowest lies on a card that can have it
/// laid on it.
pub proof fn run_length_counts_the_run_at_the_top(stack: Seq<Card>, count: nat)
    ensures
        1 <= count <= run_length(stack) <==> 1 <= count <= stack.len() && is_run(
            top_cards(stack, count),
        ),
    decreases stack.len(),
{
    lemma_run_length_bounds(stack);
    if stack.len() == 0 {
    } else if count <= 1 || count > stack.len() {
    } else {
        let lower = stack.drop_last();
        let unit = top_cards(stack, count);
        let rest = top_cards(lower, (count - 1) as nat);
        run_length_counts_the_run_at_the_top(lower, (count - 1) as nat);
        assert(unit.len() == count);
        assert(unit =~= rest.push(stack.last()));
        assert(unit[count - 2] == stack[stack.len() - 2]);
        if is_run(unit) {
            assert(stacks_onto(unit[count - 2], unit[count - 1]));
            assert forall|i: int| 0 < i < rest.len() implies stacks_onto(
                rest[i - 1],
                #[trigger] rest[i],
            ) by {
                assert(rest[i] == unit[i]);
                assert(rest[i - 1] == unit[i - 1]);
            }
        }
        if 1 <= count <= run_length(stack) {
            assert forall|i: int| 0 < i < unit.len() implies stacks_onto(
                unit[i - 1],
                #[trigger] unit[i],
            ) by {
                if i < count - 1 {
                    assert(rest[i] == unit[i]);
                    assert(rest[i - 1] == unit[i - 1]);
                }
            }
        }
    }
}

/// Of a stack of the board, the units on offer are the runs at its top:
/// every run up to the longest is on offer, and no longer unit is.
pub proof fn runs_at_the_top_are_on_offer(state: StateView, stack: Seq<Card>, count: nat)
    requires
        state.board.count(stack) > 0,
    ensures
        1 <= count <= run_length(stack) ==> state.offers(stack_unit(stack, count)),
        count > run_length(stack) ==> forall|unit: Unit|
            unit.from == Place::Stack(stack) && unit.cards.len() == count ==> !state.offers(unit),
        1 <= count <= stack.len() ==> (state.offers(stack_unit(stack, count)) <==> is_run(
            top_cards(stack, count),
        )),
{
    lemma_run_length_bounds(stack);
    run_length_counts_the_run_at_the_top(stack, count);
}

/// Taking the open card of a place away takes one card from the stacks or
/// from the slots, and changes nothing else that is counted.
pub proof fn lemma_count_without_card(state: StateView, place: Place)
    requires
        state.count_of(place) > 0,
        place.card().is_some(),
    ensures
        state.without_card_at(place).output == state.output,
        state.without_card_at(place).bundles() == state.bundles(),
        state.without_card_at(place).cards_on_stacks() + state.without_card_at(
            place,
        ).cards_in_slots() + 1 == state.cards_on_stacks() + state.cards_in_slots(),
        place is Stack ==> state.without_card_at(place).cards_in_slots() == state.cards_in_slots(),
        place is Hole ==> state.without_card_at(place).cards_on_stacks() == state.cards_on_stacks(),
        state.without_card_at(place).board.len() == state.board.len(),
        state.without_card_at(place).holes.len() == state.holes.len(),
{
    match place {
        Place::Stack(s) => {
            lemma_total_replace(state.board, stack_height(), s, s.drop_last());
        },
        Place::Hole(h) => {
            lemma_total_replace(state.holes, slot_cards(), h, PlaceHolder(None));
        },
    }
}

/// Laying cards on a stack adds them to the cards on the stacks, and changes
/// nothing else that is counted.
pub proof fn lemma_count_with_cards(state: StateView, onto: Seq<Card>, cards: Seq<Card>)
    requires
        state.board.count(onto) > 0,
    ensures
        state.with_cards_on(onto, cards).cards_on_stacks() == state.cards_on_stacks() + cards.len(),
        state.with_cards_on(onto, cards).board.len() == state.board.len(),
{
    lemma_total_replace(state.board, stack_height(), onto, onto + cards);
}

/// Filling an empty slot adds one card to the slots, or one bundle, and
/// changes nothing else that is counted.
pub proof fn lemma_count_with_slot(state: StateView, content: CardOrBundle)
    requires
        state.holes.count(PlaceHolder(None)) > 0,
    ensures
        state.with_slot_filled(content).cards_in_slots() == state.cards_in_slots() + if content is Card {
            1nat
        } else {
            0nat
        },
        state.with_slot_filled(content).bundles() == state.bundles() + if content is Card {
            0nat
        } else {
            1nat
        },
        state.with_slot_filled(content).holes.len() == state.holes.len(),
{
    lemma_total_replace(state.holes, slot_cards(), PlaceHolder(None), PlaceHolder(Some(content)));
}

/// A promotion takes exactly three cards out of the stacks and slots, the
/// beast and the two pirates, and puts exactly one bundle, that of the
/// beast, into one slot: there are three cards fewer and one bundle more,
/// and as many stacks and slots as before.
pub proof fn promotion_bundles_three_cards(
    state: StateView,
    beast: Place,
    first: Place,
    second: Place,
)
    requires
        state.allows(Move::Promote { beast, first, second }),
    ensures
        ({
            let next = state.after(Move::Promote { beast, first, second });
            let kind = beast.card().unwrap()->Beast_0;
            &&& next.cards_on_stacks() + next.cards_in_slots() + 3 == state.cards_on_stacks()
                + state.cards_in_slots()
            &&& next.bundles() == state.bundles() + 1
            &&& next.holes.count(bundle_slot(kind)) == state.holes.count(bundle_slot(kind)) + 1
            &&& forall|other: Beast|
                other != kind ==> next.holes.count(bundle_slot(other)) == state.holes.count(
                    bundle_slot(other),
                )
            &&& next.holes.len() == state.holes.len()
            &&& next.board.len() == state.board.len()
            &&& next.output == state.output
        }),
{
    let one = state.without_card_at(beast);
    let two = one.without_card_at(first);
    let three = two.without_card_at(second);
    lemma_count_without_card(state, beast);
    assert(one.count_of(first) > 0);
    lemma_count_without_card(one, first);
    assert(two.count_of(second) > 0);
    lemma_count_without_card(two, second);
    assert(three.holes.count(PlaceHolder(None)) > 0);
    lemma_count_with_slot(three, CardOrBundle::BeastBundle(beast.card().unwrap()->Beast_0));
}

/// No move makes a card or loses one: what lies on the stacks, in the slots
/// and on the output piles, with three cards for each bundle, is as much
/// after a move as before. Nor does a move change the number of stacks or of
/// slots.
pub proof fn moves_keep_the_population(state: StateView, m: Move)
    requires
        state.well_formed(),
        state.allows(m),
    ensures
        state.after(m).population() == state.population(),
        state.after(m).board.len() == state.board.len(),
        state.after(m).holes.len() == state.holes.len(),
        state.after(m).well_formed(),
{
    match m {
        Move::Output { from } => {
            lemma_count_without_card(state, from);
        },
        Move::Relocate { from, count, onto } => match from {
            Place::Stack(s) => {
                lemma_run_length_bounds(s);
                lemma_no_self_relocation(s, count);
                let kept = s.take(s.len() - count);
                let lifted = StateView { board: state.board.remove(s).insert(kept), ..state };
                lemma_total_replace(state.board, stack_height(), s, kept);
                assert(lifted.board.count(onto) > 0);
                lemma_count_with_cards(lifted, onto, top_cards(s, count));
            },
            Place::Hole(h) => {
                lemma_count_without_card(state, from);
                lemma_count_with_cards(state.without_card_at(from), onto, seq![from.card().unwrap()]);
            },
        },
        Move::Hold { stack } => {
            lemma_count_without_card(state, Place::Stack(stack));
            lemma_count_with_slot(
                state.without_card_at(Place::Stack(stack)),
                CardOrBundle::Card(stack.last()),
            );
        },
        Move::Promote { beast, first, second } => {
            promotion_bundles_three_cards(state, beast, first, second);
        },
    }
}

/// Card conservation: every snapshot on a path accounts for as many cards as
/// the first one, and has as many stacks and slots.
pub proof fn paths_keep_the_population(path: Seq<StateView>, at: int)
    requires
        is_path(path),
        path[0].well_formed(),
        0 <= at < path.len(),
    ensures
        path[at].well_formed(),
        path[at].population() == path[0].population(),
        path[at].board.len() == path[0].board.len(),
        path[at].holes.len() == path[0].holes.len(),
    decreases at,
{
    if at > 0 {
        paths_keep_the_population(path, at - 1);
        let before = path[at - 1];
        assert(before.leads_to(path[at]));
        let m = choose|m: Move| #[trigger] before.makes(m, path[at]);
        moves_keep_the_population(before, m);
    }
}

/// Card conservation: whatever can be reached from a snapshot accounts for
/// as many cards as that snapshot.
pub proof fn reachable_keeps_the_population(start: StateView, last: StateView)
    requires
        start.well_formed(),
        start.reaches(last),
    ensures
        last.population() == start.population(),
        last.board.len() == start.board.len(),
        last.holes.len() == start.holes.len(),
{
    let path = choose|path: Seq<StateView>|
        #[trigger] is_path(path) && path[0] == start && path.last() == last;
    paths_keep_the_population(path, path.len() - 1);
}

/// Of each card of `deck`, by its place there, how often it lies in a
/// stack.
pub open spec fn stack_census(stack: Seq<Card>, deck: Seq<Card>) -> spec_fn(int) -> nat {
    |k: int| stack.to_multiset().count(deck[k])
}

/// Of each card of `deck`, by its place there, how often it lies in some
/// stacks.
pub open spec fn board_census(stacks: Seq<Seq<Card>>, deck: Seq<Card>) -> spec_fn(int) -> nat {
    |k: int| seq_total(stacks, copies_in(deck[k]))
}

/// No card occurs twice in `deck`.
pub open spec fn no_card_twice(deck: Seq<Card>) -> bool {
    forall|i: int, j: int| 0 <= i < j < deck.len() ==> deck[i] != deck[j]
}

/// A stack of cards of a deck has as many cards as the counts of the cards
/// of the deck in it add up to.
pub proof fn lemma_stack_census(stack: Seq<Card>, deck: Seq<Card>)
    requires
        no_card_twice(deck),
        forall|j: int| 0 <= j < stack.len() ==> deck.contains(#[trigger] stack[j]),
    ensures
        stack.len() == sum_upto(stack_census(stack, deck), deck.len()),
    decreases stack.len(),
{
    stack.to_multiset_ensures();
    if stack.len() == 0 {
        assert(stack.to_multiset().len() == 0);
        lemma_sum_const(stack_census(stack, deck), deck.len(), 0);
    } else {
        let rest = stack.drop_last();
        let top = stack.last();
        rest.to_multiset_ensures();
        assert(stack =~= rest.push(top));
        assert forall|j: int| 0 <= j < rest.len() implies deck.contains(#[trigger] rest[j]) by {
            assert(rest[j] == stack[j]);
        }
        lemma_stack_census(rest, deck);
        assert(deck.contains(stack[stack.len() - 1]));
        let at = choose|at: int| 0 <= at < deck.len() && deck[at] == top;
        let one = |k: int|
            if k == at {
                1nat
            } else {
                0nat
            };
        lemma_sum_one(one, deck.len(), at);
        lemma_sum_add(stack_census(rest, deck), one, stack_census(stack, deck), deck.len());
    }
}

/// Stacks of cards of a deck have as many cards as the counts of the cards
/// of the deck in them add up to.
pub proof fn lemma_board_census(stacks: Seq<Seq<Card>>, deck: Seq<Card>)
    requires
        no_card_twice(deck),
        forall|i: int, j: int|
            0 <= i < stacks.len() && 0 <= j < stacks[i].len() ==> deck.contains(
                #[trigger] stacks[i][j],
            ),
    ensures
        seq_total(stacks, stack_height()) == sum_upto(board_census(stacks, deck), deck.len()),
    decreases stacks.len(),
{
    if stacks.len() == 0 {
        lemma_sum_const(board_census(stacks, deck), deck.len(), 0);
    } else {
        let rest = stacks.drop_last();
        let last = stacks.last();
        assert forall|i: int, j: int|
            0 <= i < rest.len() && 0 <= j < rest[i].len() implies deck.contains(
            #[trigger] rest[i][j],
        ) by {
            assert(rest[i][j] == stacks[i][j]);
        }
        lemma_board_census(rest, deck);
        assert forall|j: int| 0 <= j < last.len() implies deck.contains(#[trigger] last[j]) by {
            assert(last[j] == stacks[stacks.len() - 1][j]);
        }
        lemma_stack_census(last, deck);
        lemma_sum_add(
            board_census(rest, deck),
            stack_census(last, deck),
            board_census(stacks, deck),
            deck.len(),
        );
    }
}

/// No card occurs twice among the cards of the game.
pub proof fn lemma_regular_cards_differ()
    ensures
        no_card_twice(regular_cards()),
        regular_cards().len() == 31,
{
    assert forall|i: int, j: int| 0 <= i < j < regular_cards().len() implies regular_cards()[i]
        != regular_cards()[j] by {
        if j < 27 {
            assert(i / 3 != j / 3 || i % 3 != j % 3);
        }
    }
}

/// The game has 36 cards: 27 normal cards, three beasts and six pirates.
pub proof fn lemma_regular_cards_number()
    ensures
        sum_upto(|k: int| expected_copies(regular_cards()[k]), 31) == 36,
{
    let f = |k: int| expected_copies(regular_cards()[k]);
    lemma_sum_const(f, 27, 1);
    assert(sum_upto(f, 28) == sum_upto(f, 27) + f(27));
    assert(sum_upto(f, 29) == sum_upto(f, 28) + f(28));
    assert(sum_upto(f, 30) == sum_upto(f, 29) + f(29));
    assert(sum_upto(f, 31) == sum_upto(f, 30) + f(30));
}

impl StateView {
    /// The snapshot is a deal of the game: the stacks hold each card as
    /// often as the game has it, no card is output, and the slots are three
    /// empty ones.
    pub open spec fn is_deal(self) -> bool {
        &&& forall|card: Card| !self.miscounts(card)
        &&& self.output == seq![0nat, 0nat, 0nat]
        &&& self.holes == empty_holes()
    }
}

/// A deal of the game accounts for 36 cards, all of them on the stacks.
pub proof fn a_deal_has_all_cards(state: StateView)
    requires
        state.is_deal(),
    ensures
        state.cards_on_stacks() == 36,
        state.population() == 36,
        state.well_formed(),
{
    let deck = regular_cards();
    let stacks = lemma_multiset_has_seq(state.board);
    lemma_regular_cards_differ();
    lemma_regular_cards_number();
    lemma_total_of_seq(stacks, stack_height());
    assert forall|i: int, j: int|
        0 <= i < stacks.len() && 0 <= j < stacks[i].len() implies deck.contains(
        #[trigger] stacks[i][j],
    ) by {
        let card = stacks[i][j];
        if expected_copies(card) == 0 {
            lemma_total_of_seq(stacks, copies_in(card));
            crate::counting::lemma_seq_total_bounds(stacks, copies_in(card), i);
            stacks[i].to_multiset_ensures();
            assert(stacks[i].contains(card));
            assert(state.miscounts(card));
        } else {
            let k = lemma_regular_cards_complete(card);
        }
    }
    lemma_board_census(stacks, deck);
    assert forall|k: int| 0 <= k < 31 implies #[trigger] board_census(stacks, deck)(k)
        == expected_copies(deck[k]) by {
        lemma_total_of_seq(stacks, copies_in(deck[k]));
        assert(!state.miscounts(deck[k]));
    }
    lemma_sum_same(board_census(stacks, deck), |k: int| expected_copies(regular_cards()[k]), 31);
    lemma_slots_of_a_deal();
}

/// Three empty slots hold neither a card nor a bundle.
pub proof fn lemma_slots_of_a_deal()
    ensures
        total(empty_holes(), slot_cards()) == 0,
        empty_holes().count(bundle_slot(Beast::Whale)) == 0,
        empty_holes().count(bundle_slot(Beast::Tentacle)) == 0,
        empty_holes().count(bundle_slot(Beast::Ship)) == 0,
        empty_holes().len() == 3,
{
    let none = Multiset::<PlaceHolder>::empty();
    let one = none.insert(PlaceHolder(None));
    let two = one.insert(PlaceHolder(None));
    crate::counting::lemma_total_insert(none, slot_cards(), PlaceHolder(None));
    crate::counting::lemma_total_insert(one, slot_cards(), PlaceHolder(None));
    crate::counting::lemma_total_insert(two, slot_cards(), PlaceHolder(None));
    assert(total(none, slot_cards()) == 0);
}

/// Card conservation: every snapshot that can be reached from a deal of the
/// game accounts for all 36 cards, on the stacks, in the slots, on the
/// output piles or three to a bundle, and has as many stacks as the deal and
/// three slots.
pub proof fn the_game_keeps_all_cards(deal: StateView, last: StateView)
    requires
        deal.is_deal(),
        deal.reaches(last),
    ensures
        last.population() == 36,
        last.board.len() == deal.board.len(),
        last.holes.len() == 3,
{
    a_deal_has_all_cards(deal);
    lemma_slots_of_a_deal();
    reachable_keeps_the_population(deal, last);
}

/// The same stacks, each as often, in any places.
pub open spec fn same_stacks(one: Seq<Seq<Card>>, other: Seq<Seq<Card>>) -> bool {
    one.to_multiset() == other.to_multiset()
}

/// The snapshot of a board: its stacks and slots without their places.
pub open spec fn snapshot_of(stacks: Seq<Seq<Card>>, slots: Seq<PlaceHolder>, output: Seq<nat>) -> StateView {
    StateView { holes: slots.to_multiset(), output, board: stacks.to_multiset() }
}

/// Boards that differ only in the places of their stacks have the same
/// snapshot, and the search finds the same from both: a path of the same
/// length, or none.
pub proof fn rearranged_boards_are_one_snapshot(
    one: Seq<Seq<Card>>,
    other: Seq<Seq<Card>>,
    slots: Seq<PlaceHolder>,
    output: Seq<nat>,
)
    requires
        same_stacks(one, other),
    ensures
        snapshot_of(one, slots, output) == snapshot_of(other, slots, output),
        astar_outcome(snapshot_of(one, slots, output)) == astar_outcome(
            snapshot_of(other, slots, output),
        ),
{
}

/// A board on which two stacks have changed places has the same stacks.
pub proof fn exchanged_stacks_are_the_same_stacks(stacks: Seq<Seq<Card>>, a: int, b: int)
    requires
        0 <= a < stacks.len(),
        0 <= b < stacks.len(),
    ensures
        same_stacks(stacks, swapped(stacks, a, b)),
{
    lemma_swap_keeps_the_items(stacks, a, b);
}

} // verus!
