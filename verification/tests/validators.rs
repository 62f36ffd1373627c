use pirate_solitaire::collection::BTreeMultiSet;
use pirate_solitaire::deck_generator::{distribute, generate_game, new_deck};
use pirate_solitaire::godot_shuffle::Seed;
use pirate_solitaire::state::{
    Beast, Card, CardColor, CardNumber, CardStack, NormalCard, Output, PlaceHolders, State,
};
use pirate_solitaire::validators::InvalidInitialState;

fn normal(number: u8, color: CardColor) -> Card {
    Card::Normal(NormalCard { number: CardNumber(number), color })
}

fn board_of(cards: Vec<Card>) -> State {
    State {
        placeholders: PlaceHolders::default(),
        output: Output::default(),
        board: BTreeMultiSet::from_vec(vec![CardStack { cards }, CardStack { cards: vec![] }]),
    }
}

fn without(deck: &[Card], card: Card) -> Vec<Card> {
    let at = deck.iter().position(|c| *c == card).unwrap();
    let mut rest = deck.to_vec();
    rest.remove(at);
    rest
}

#[test]
fn dealt_game_is_valid() {
    assert_eq!(distribute(new_deck()).is_valid(), Ok(()));
    assert_eq!(generate_game(Seed::from_bits(12345)).is_valid(), Ok(()));
    assert_eq!(board_of(new_deck()).is_valid(), Ok(()));
}

#[test]
fn empty_board_lacks_the_first_card() {
    assert_eq!(
        board_of(vec![]).is_valid(),
        Err(InvalidInitialState::InvalidCardAmount {
            card: normal(1, CardColor::Teal),
            count: 0,
            expected: 1,
        })
    );
}

#[test]
fn missing_normal_card_is_reported() {
    let deck = without(&new_deck(), normal(7, CardColor::Blue));
    assert_eq!(
        board_of(deck).is_valid(),
        Err(InvalidInitialState::InvalidCardAmount {
            card: normal(7, CardColor::Blue),
            count: 0,
            expected: 1,
        })
    );
}

#[test]
fn doubled_normal_card_is_reported() {
    let mut deck = new_deck();
    deck.push(normal(9, CardColor::Red));
    assert_eq!(
        board_of(deck).is_valid(),
        Err(InvalidInitialState::InvalidCardAmount {
            card: normal(9, CardColor::Red),
            count: 2,
            expected: 1,
        })
    );
}

#[test]
fn missing_beast_is_reported() {
    let deck = without(&new_deck(), Card::Beast(Beast::Whale));
    assert_eq!(
        board_of(deck).is_valid(),
        Err(InvalidInitialState::InvalidCardAmount {
            card: Card::Beast(Beast::Whale),
            count: 0,
            expected: 1,
        })
    );
}

#[test]
fn wrong_number_of_pirates_is_reported() {
    let fewer = without(&new_deck(), Card::Pirate);
    assert_eq!(
        board_of(fewer).is_valid(),
        Err(InvalidInitialState::InvalidCardAmount { card: Card::Pirate, count: 5, expected: 6 })
    );
    let mut more = new_deck();
    more.push(Card::Pirate);
    more.push(Card::Pirate);
    assert_eq!(
        board_of(more).is_valid(),
        Err(InvalidInitialState::InvalidCardAmount { card: Card::Pirate, count: 8, expected: 6 })
    );
}

#[test]
fn first_mismatch_in_checking_order_is_reported() {
    let deck = without(&without(&new_deck(), Card::Pirate), normal(3, CardColor::Red));
    assert_eq!(
        board_of(deck).is_valid(),
        Err(InvalidInitialState::InvalidCardAmount {
            card: normal(3, CardColor::Red),
            count: 0,
            expected: 1,
        })
    );
    let beasts = without(&without(&new_deck(), Card::Beast(Beast::Tentacle)), Card::Beast(Beast::Ship));
    assert_eq!(
        board_of(beasts).is_valid(),
        Err(InvalidInitialState::InvalidCardAmount {
            card: Card::Beast(Beast::Ship),
            count: 0,
            expected: 1,
        })
    );
}

#[test]
fn card_that_the_game_does_not_have_is_reported() {
    let mut deck = new_deck();
    deck.push(normal(10, CardColor::Red));
    deck.push(normal(0, CardColor::Blue));
    deck.push(normal(10, CardColor::Red));
    assert_eq!(
        board_of(deck).is_valid(),
        Err(InvalidInitialState::InvalidCardAmount {
            card: normal(10, CardColor::Red),
            count: 2,
            expected: 0,
        })
    );
}

#[test]
fn cards_in_slots_are_not_counted() {
    let mut state = board_of(without(&new_deck(), Card::Pirate));
    state.placeholders.holes.take(&pirate_solitaire::state::PlaceHolder(None));
    state.placeholders.holes.insert(pirate_solitaire::state::PlaceHolder(Some(
        pirate_solitaire::state::CardOrBundle::Card(Card::Pirate),
    )));
    assert_eq!(
        state.is_valid(),
        Err(InvalidInitialState::InvalidCardAmount { card: Card::Pirate, count: 5, expected: 6 })
    );
}

#[test]
fn count_card_counts_over_all_stacks() {
    let state = State {
        placeholders: PlaceHolders::default(),
        output: Output::default(),
        board: BTreeMultiSet::from_vec(vec![
            CardStack { cards: vec![Card::Pirate, normal(1, CardColor::Red), Card::Pirate] },
            CardStack { cards: vec![Card::Pirate] },
            CardStack { cards: vec![Card::Pirate] },
            CardStack { cards: vec![] },
        ]),
    };
    assert_eq!(state.count_card(&Card::Pirate), 4);
    assert_eq!(state.count_card(&normal(1, CardColor::Red)), 1);
    assert_eq!(state.count_card(&normal(1, CardColor::Blue)), 0);
}

#[test]
fn reachable_states_keep_all_cards() {
    let start = generate_game(Seed::from_bits(3));
    let population = |s: &State| {
        s.board.iter().iter().map(|stack| stack.cards.len()).sum::<usize>()
            + s.placeholders
                .holes
                .iter()
                .iter()
                .filter(|h| matches!(h.0, Some(pirate_solitaire::state::CardOrBundle::Card(_))))
                .count()
            + s.output.by_color.iter().map(|n| n.0 as usize).sum::<usize>()
            + 3 * s.bundle_count()
    };
    assert_eq!(population(&start), 36);
    let mut frontier = vec![start];
    for _ in 0..3 {
        let mut next = vec![];
        for state in &frontier {
            for after in state.get_next_states() {
                assert_eq!(population(&after), 36);
                next.push(after);
            }
        }
        next.truncate(40);
        frontier = next;
    }
}
