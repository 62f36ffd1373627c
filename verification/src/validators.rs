//! Validation of a freshly dealt board: that it holds exactly the cards of
//! the game.

use crate::collection::views;
use crate::counting::{
    lemma_seq_total_bounds, lemma_seq_total_positive, lemma_seq_total_step, lemma_total_of_seq,
    seq_total, total,
};
use crate::state::{Beast, Card, CardColor, CardNumber, CardStack, NormalCard, State, StateView};
use vstd::prelude::*;

verus! {

/// Why a board is not a deal of the game.
#[derive(Debug, Clone, Copy, PartialEq, Eq, Structural)]
pub enum InvalidInitialState {
    /// The board holds `card` `count` times, where the game has it
    /// `expected` times.
    InvalidCardAmount { card: Card, count: usize, expected: usize },
}

/// How often a card lies in a stack.
pub open spec fn copies_in(card: Card) -> spec_fn(Seq<Card>) -> nat {
    |stack: Seq<Card>| stack.to_multiset().count(card)
}

/// How often the game has a card: each normal card of rank 1 to 9 once, each
/// beast once, the pirate six times, and no other card.
pub open spec fn expected_copies(card: Card) -> nat {
    match card {
        Card::Pirate => 6,
        Card::Beast(_) => 1,
        Card::Normal(n) => if 1 <= n.number.0 <= 9 {
            1
        } else {
            0
        },
    }
}

/// The suits in the order in which the cards of a rank are checked.
pub open spec fn checked_suit(at: int) -> CardColor {
    if at == 0 {
        CardColor::Teal
    } else if at == 1 {
        CardColor::Red
    } else {
        CardColor::Blue
    }
}

/// The cards of the game, each once, in the order in which they are checked:
/// the normal cards by rank, then the beasts, then the pirate.
pub open spec fn regular_cards() -> Seq<Card> {
    Seq::new(
        27,
        |i: int| Card::Normal(NormalCard { number: CardNumber((i / 3 + 1) as u8), color: checked_suit(i % 3) }),
    ) + seq![
        Card::Beast(Beast::Ship),
        Card::Beast(Beast::Whale),
        Card::Beast(Beast::Tentacle),
        Card::Pirate,
    ]
}

/// A count as far as a `usize` holds it.
pub open spec fn clipped(count: nat) -> usize {
    if count <= usize::MAX {
        count as usize
    } else {
        usize::MAX
    }
}

impl StateView {
    /// How often `card` lies on the board.
    pub open spec fn copies_on_board(self, card: Card) -> nat {
        total(self.board, copies_in(card))
    }

    /// The board holds `card` more or less often than the game has it.
    pub open spec fn miscounts(self, card: Card) -> bool {
        self.copies_on_board(card) != expected_copies(card)
    }

    /// The first `upto` cards of the game lie on the board as often as the
    /// game has them.
    pub open spec fn counts_right_before(self, upto: int) -> bool {
        forall|k: int| 0 <= k < upto && k < 31 ==> !self.miscounts(#[trigger] regular_cards()[k])
    }
}

/// The card at place `(i, j)` is not a card of the game, and every card
/// before it is one: in an earlier stack, or lower in the same stack.
pub open spec fn first_stranger_at(board: Seq<Seq<Card>>, i: int, j: int) -> bool {
    &&& 0 <= i < board.len()
    &&& 0 <= j < board[i].len()
    &&& expected_copies(board[i][j]) == 0
    &&& forall|a: int, b: int|
        0 <= a < board.len() && 0 <= b < board[a].len() && (a < i || (a == i && b < j))
            ==> expected_copies(#[trigger] board[a][b]) > 0
}

/// Every card that the game has is among the cards that are checked.
pub proof fn lemma_regular_cards_complete(card: Card) -> (k: int)
    requires
        expected_copies(card) > 0,
    ensures
        0 <= k < 31,
        regular_cards()[k] == card,
{
    match card {
        Card::Pirate => 30,
        Card::Beast(Beast::Ship) => 27,
        Card::Beast(Beast::Whale) => 28,
        Card::Beast(Beast::Tentacle) => 29,
        Card::Normal(n) => {
            let suit: int = match n.color {
                CardColor::Teal => 0,
                CardColor::Red => 1,
                CardColor::Blue => 2,
            };
            let k = (n.number.0 - 1) * 3 + suit;
            assert(k / 3 + 1 == n.number.0 && k % 3 == suit);
            k
        },
    }
}

fn count_in_stack(stack: &CardStack, card: &Card) -> (r: usize)
    ensures
        r == stack@.to_multiset().count(*card),
{
    let mut count: usize = 0;
    let mut i: usize = 0;
    proof {
        stack@.take(0).to_multiset_ensures();
        assert(stack@.take(0).to_multiset().len() == 0);
    }
    while i < stack.cards.len()
        invariant
            i <= stack.cards.len(),
            count <= i,
            count == stack@.take(i as int).to_multiset().count(*card),
        decreases stack.cards.len() - i,
    {
        proof {
            assert(stack@.take(i + 1) =~= stack@.take(i as int).push(stack@[i as int]));
            stack@.take(i as int).to_multiset_ensures();
        }
        if stack.cards[i] == *card {
            count += 1;
        }
        i += 1;
    }
    proof {
        assert(stack@.take(i as int) =~= stack@);
    }
    count
}

fn expected_count(card: &Card) -> (r: usize)
    ensures
        r == expected_copies(*card),
{
    match card {
        Card::Pirate => 6,
        Card::Beast(_) => 1,
        Card::Normal(n) => if 1 <= n.number.0 && n.number.0 <= 9 {
            1
        } else {
            0
        },
    }
}

fn regular_deck() -> (r: Vec<Card>)
    ensures
        r@ == regular_cards(),
{
    let mut deck: Vec<Card> = Vec::new();
    let mut number: u8 = 1;
    while number <= 9
        invariant
            1 <= number <= 10,
            deck.len() == 3 * (number - 1),
            forall|k: int| 0 <= k < deck.len() ==> deck[k] == regular_cards()[k],
        decreases 10 - number,
    {
        deck.push(Card::Normal(NormalCard { number: CardNumber(number), color: CardColor::Teal }));
        deck.push(Card::Normal(NormalCard { number: CardNumber(number), color: CardColor::Red }));
        deck.push(Card::Normal(NormalCard { number: CardNumber(number), color: CardColor::Blue }));
        number += 1;
    }
    deck.push(Card::Beast(Beast::Ship));
    deck.push(Card::Beast(Beast::Whale));
    deck.push(Card::Beast(Beast::Tentacle));
    deck.push(Card::Pirate);
    proof {
        assert(deck@ =~= regular_cards());
    }
    deck
}

impl State {
    /// How often `card` lies on the board, as far as a `usize` holds it.
    pub fn count_card(&self, card: &Card) -> (r: usize)
        ensures
            r == clipped(self@.copies_on_board(*card)),
    {
        let stacks = self.board.iter();
        let ghost board = self.board.ordered();
        let mut count: usize = 0;
        let mut i: usize = 0;
        while i < stacks.len()
            invariant
                i <= stacks.len(),
                board == self.board.ordered(),
                views(stacks@) == board,
                board.to_multiset() == self@.board,
                count == clipped(seq_total(board.take(i as int), copies_in(*card))),
            decreases stacks.len() - i,
        {
            proof {
                assert(views(stacks@)[i as int] == stacks[i as int]@);
                lemma_seq_total_step(board, copies_in(*card), i as int);
            }
            count = count.saturating_add(count_in_stack(&stacks[i], card));
            i += 1;
        }
        proof {
            assert(board.take(i as int) =~= board);
            lemma_total_of_seq(board, copies_in(*card));
        }
        count
    }

    /// Checks that the board holds exactly the cards of the game: each
    /// normal card of rank 1 to 9 once, each beast once, and six pirates.
    /// Reports the first card that it holds more or less often: of the
    /// cards of the game in the order of `regular_cards`, or else the first
    /// card on the board that the game does not have.
    pub fn is_valid(&self) -> (r: Result<(), InvalidInitialState>)
        ensures
            match r {
                Ok(()) => forall|card: Card| !self@.miscounts(card),
                Err(InvalidInitialState::InvalidCardAmount { card, count, expected }) => {
                    &&& self@.miscounts(card)
                    &&& count == clipped(self@.copies_on_board(card))
                    &&& expected == expected_copies(card)
                    &&& {
                        ||| exists|k: int|
                            0 <= k < 31 && #[trigger] regular_cards()[k] == card
                                && self@.counts_right_before(k)
                        ||| self@.counts_right_before(31) && exists|i: int, j: int|
                            #[trigger] first_stranger_at(self.board.ordered(), i, j)
                                && self.board.ordered()[i][j] == card
                    }
                },
            },
    {
        let deck = regular_deck();
        let mut k: usize = 0;
        while k < deck.len()
            invariant
                k <= deck.len(),
                deck@ == regular_cards(),
                deck.len() == 31,
                self@.counts_right_before(k as int),
            decreases deck.len() - k,
        {
            let card = deck[k];
            let count = self.count_card(&card);
            let expected = expected_count(&card);
            if count != expected {
                return Err(InvalidInitialState::InvalidCardAmount { card, count, expected });
            }
            k += 1;
        }
        let stacks = self.board.iter();
        let ghost board = self.board.ordered();
        let mut i: usize = 0;
        while i < stacks.len()
            invariant
                i <= stacks.len(),
                board == self.board.ordered(),
                views(stacks@) == board,
                board.to_multiset() == self@.board,
                self@.counts_right_before(31),
                forall|a: int, b: int|
                    0 <= a < i && 0 <= b < board[a].len() ==> expected_copies(
                        #[trigger] board[a][b],
                    ) > 0,
            decreases stacks.len() - i,
        {
            let stack = &stacks[i];
            proof {
                assert(views(stacks@)[i as int] == stack@);
            }
            let mut j: usize = 0;
            while j < stack.cards.len()
                invariant
                    0 <= i < stacks.len(),
                    j <= stack.cards.len(),
                    board == self.board.ordered(),
                    views(stacks@) == board,
                    board.to_multiset() == self@.board,
                    stack@ == board[i as int],
                    self@.counts_right_before(31),
                    forall|a: int, b: int|
                        0 <= a < i && 0 <= b < board[a].len() ==> expected_copies(
                            #[trigger] board[a][b],
                        ) > 0,
                    forall|b: int| 0 <= b < j ==> expected_copies(#[trigger] board[i as int][b]) > 0,
                decreases stack.cards.len() - j,
            {
                let card = stack.cards[j];
                let expected = expected_count(&card);
                if expected == 0 {
                    let count = self.count_card(&card);
                    proof {
                        assert(first_stranger_at(board, i as int, j as int));
                        lemma_total_of_seq(board, copies_in(card));
                        lemma_seq_total_bounds(board, copies_in(card), i as int);
                        stack@.to_multiset_ensures();
                        assert(stack@.contains(card));
                    }
                    return Err(InvalidInitialState::InvalidCardAmount { card, count, expected });
                }
                j += 1;
            }
            i += 1;
        }
        proof {
            assert forall|card: Card| !self@.miscounts(card) by {
                if expected_copies(card) > 0 {
                    let k = lemma_regular_cards_complete(card);
                } else if self@.copies_on_board(card) > 0 {
                    lemma_total_of_seq(board, copies_in(card));
                    let a = lemma_seq_total_positive(board, copies_in(card));
                    board[a].to_multiset_ensures();
                    assert(board[a].contains(card));
                    let b = choose|b: int| 0 <= b < board[a].len() && board[a][b] == card;
                    assert(expected_copies(board[a][b]) > 0);
                }
            }
        }
        Ok(())
    }
}

} // verus!
