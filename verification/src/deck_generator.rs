//! The deal of a game: a new deck, shuffled as the seed has it, dealt onto
//! the stacks of the board.

use crate::collection::{views, BTreeMultiSet};
use crate::combinations::{cartesian_product, lemma_product_at, product_in_order};
use crate::godot_shuffle::{first_draws, pcg32_seeded, shuffle, shuffled, Seed, STREAM};
use crate::parser::STACKS;
use crate::state::{
    empty_holes, Beast, Card, CardColor, CardNumber, CardStack, NormalCard, Output, PlaceHolders,
    State, StateView,
};
use crate::validators::checked_suit;
use vstd::prelude::*;

verus! {

/// The deck of the game before it is shuffled: the normal cards by rank and,
/// within a rank, teal, red, blue; then six pirates; then the tentacle, the
/// whale and the ship.
pub open spec fn fresh_deck() -> Seq<Card> {
    Seq::new(
        27,
        |i: int|
            Card::Normal(
                NormalCard { number: CardNumber((i / 3 + 1) as u8), color: checked_suit(i % 3) },
            ),
    ) + Seq::new(6, |i: int| Card::Pirate) + seq![
        Card::Beast(Beast::Tentacle),
        Card::Beast(Beast::Whale),
        Card::Beast(Beast::Ship),
    ]
}

/// How many cards of a deck of `len` cards go onto the stack `stack` when
/// the cards are dealt in turn.
pub open spec fn column_height(len: nat, stack: int) -> nat {
    if stack < len {
        ((len - stack - 1) / 6 + 1) as nat
    } else {
        0
    }
}

/// The cards of a deck that go onto the stack `stack` when the cards are
/// dealt in turn onto six stacks: every sixth card, from the card at `stack`
/// on.
pub open spec fn column(deck: Seq<Card>, stack: int) -> Seq<Card> {
    Seq::new(column_height(deck.len(), stack), |k: int| deck[stack + 6 * k])
}

/// The six stacks that a deck is dealt onto.
pub open spec fn dealt(deck: Seq<Card>) -> Seq<Seq<Card>> {
    Seq::new(6, |stack: int| column(deck, stack))
}

/// The snapshot at the start of a game with the given deck: the deck dealt
/// onto the stacks, no card output, the slots empty.
pub open spec fn deal_of(deck: Seq<Card>) -> StateView {
    StateView { holes: empty_holes(), output: seq![0nat, 0nat, 0nat], board: dealt(deck).to_multiset() }
}

/// The deck of the game before it is shuffled.
pub fn new_deck() -> (deck: Vec<Card>)
    ensures
        deck@ == fresh_deck(),
{
    let mut numbers: Vec<u8> = Vec::new();
    let mut number: u8 = 1;
    while number <= 9
        invariant
            1 <= number <= 10,
            numbers.len() == number - 1,
            forall|k: int| 0 <= k < numbers.len() ==> numbers[k] == k + 1,
        decreases 10 - number,
    {
        numbers.push(number);
        number += 1;
    }
    let mut colors: Vec<CardColor> = Vec::new();
    colors.push(CardColor::Teal);
    colors.push(CardColor::Red);
    colors.push(CardColor::Blue);
    let ghost number_seq = numbers@;
    let ghost color_seq = colors@;
    let pairs = cartesian_product(numbers, colors);
    let mut deck: Vec<Card> = Vec::new();
    let mut i: usize = 0;
    proof {
        lemma_product_at(number_seq, color_seq, 0, 0);
    }
    while i < pairs.len()
        invariant
            i <= pairs.len(),
            pairs.len() == 27,
            pairs@ == product_in_order(number_seq, color_seq),
            number_seq.len() == 9,
            color_seq == seq![CardColor::Teal, CardColor::Red, CardColor::Blue],
            forall|k: int| 0 <= k < 9 ==> number_seq[k] == k + 1,
            deck.len() == i,
            forall|k: int| 0 <= k < i ==> deck[k] == fresh_deck()[k],
        decreases pairs.len() - i,
    {
        proof {
            assert(color_seq.len() == 3);
            lemma_product_at(number_seq, color_seq, i as int / 3, i as int % 3);
            assert((i as int / 3) * 3 + i as int % 3 == i);
            assert(pairs@[i as int] == (number_seq[i as int / 3], color_seq[i as int % 3]));
            assert(color_seq[i as int % 3] == checked_suit(i as int % 3));
        }
        let pair = pairs[i];
        deck.push(Card::Normal(NormalCard { number: CardNumber(pair.0), color: pair.1 }));
        i += 1;
    }
    let mut pirates: usize = 0;
    while pirates < 6
        invariant
            pirates <= 6,
            deck.len() == 27 + pirates,
            forall|k: int| 0 <= k < deck.len() ==> deck[k] == fresh_deck()[k],
        decreases 6 - pirates,
    {
        deck.push(Card::Pirate);
        pirates += 1;
    }
    deck.push(Card::Beast(Beast::Tentacle));
    deck.push(Card::Beast(Beast::Whale));
    deck.push(Card::Beast(Beast::Ship));
    proof {
        assert(deck@ =~= fresh_deck());
    }
    deck
}

/// Deals a deck onto the stacks of a board, one card onto each stack in
/// turn, and gives the snapshot at the start of the game.
pub fn distribute(deck: Vec<Card>) -> (r: State)
    ensures
        r@ == deal_of(deck@),
{
    let mut stacks: Vec<CardStack> = Vec::new();
    let mut stack: usize = 0;
    while stack < STACKS
        invariant
            stack <= 6,
            stacks.len() == stack,
            forall|s: int| 0 <= s < stack ==> (#[trigger] stacks[s])@ == column(deck@, s),
        decreases 6 - stack,
    {
        let mut cards: Vec<Card> = Vec::new();
        let height: usize = if stack < deck.len() {
            (deck.len() - stack - 1) / STACKS + 1
        } else {
            0
        };
        while cards.len() < height
            invariant
                stack < 6,
                height == column_height(deck@.len(), stack as int),
                cards.len() <= height,
                forall|k: int| 0 <= k < cards.len() ==> cards[k] == deck[stack + 6 * k],
            decreases height - cards.len(),
        {
            assert(stack + 6 * cards.len() < deck.len()) by {
                assert(cards.len() <= (deck.len() - stack - 1) / 6);
            }
            cards.push(deck[stack + STACKS * cards.len()]);
        }
        proof {
            assert(cards@ =~= column(deck@, stack as int));
        }
        stacks.push(CardStack { cards });
        stack += 1;
    }
    proof {
        assert(views(stacks@) =~= dealt(deck@));
    }
    State {
        board: BTreeMultiSet::from_vec(stacks),
        output: Output::default(),
        placeholders: PlaceHolders::default(),
    }
}

/// The snapshot at the start of the game of a seed.
pub fn generate_game(seed: Seed) -> (r: State)
    ensures
        r@ == deal_of(
            shuffled(fresh_deck(), first_draws(pcg32_seeded(seed.bits(), STREAM), 35)),
        ),
{
    let mut deck = new_deck();
    shuffle(deck.as_mut_slice(), seed);
    distribute(deck)
}

} // verus!
