use pirate_solitaire::denormalized::{common_prefix, DenormalizedState, PlaceHolders};
use pirate_solitaire::state::{
    Card, CardColor, CardNumber, CardOrBundle, CardStack, NormalCard, Output, PlaceHolder,
};

fn normal(number: u8, color: CardColor) -> Card {
    Card::Normal(NormalCard { number: CardNumber(number), color })
}

fn stack(cards: Vec<Card>) -> CardStack {
    CardStack { cards }
}

fn shown(board: Vec<CardStack>) -> DenormalizedState {
    DenormalizedState { placeholders: PlaceHolders::default(), output: Output::default(), board }
}

#[test]
fn default_shown_slots_are_three_empty_ones() {
    assert_eq!(
        PlaceHolders::default().holes,
        vec![PlaceHolder(None), PlaceHolder(None), PlaceHolder(None)]
    );
}

#[test]
fn common_prefix_counts_equal_cards_from_the_bottom() {
    let a = stack(vec![Card::Pirate, normal(1, CardColor::Red), normal(2, CardColor::Red)]);
    let b = stack(vec![Card::Pirate, normal(1, CardColor::Red), normal(3, CardColor::Red)]);
    assert_eq!(common_prefix(&a, &b), 2);
    assert_eq!(common_prefix(&a, &a), 3);
    assert_eq!(common_prefix(&a, &stack(vec![])), 0);
    assert_eq!(common_prefix(&stack(vec![normal(1, CardColor::Red)]), &a), 0);
    assert_eq!(common_prefix(&stack(vec![Card::Pirate]), &a), 1);
}

#[test]
fn normalize_forgets_the_places() {
    let a = stack(vec![Card::Pirate]);
    let b = stack(vec![normal(1, CardColor::Red)]);
    let c = stack(vec![]);
    let (one, _) = shown(vec![a.clone(), b.clone(), c.clone()]).normalize();
    let (other, _) = shown(vec![c.clone(), a.clone(), b.clone()]).normalize();
    assert_eq!(one, other);
    assert!(one.same_as(&other));
    assert_eq!(one.board.iter().clone(), vec![c, a, b]);
    assert_eq!(one.placeholders.holes.len(), 3);
    assert_eq!(one.output, Output::default());
}

#[test]
fn normalize_remembers_the_places() {
    let a = stack(vec![Card::Pirate]);
    let b = stack(vec![]);
    let (_, information) = shown(vec![a.clone(), b.clone(), a.clone()]).normalize();
    assert_eq!(information.initial_stacks().clone(), vec![a.clone(), b, a]);
}

#[test]
fn denormalize_puts_the_stacks_back_in_their_places() {
    let board = vec![
        stack(vec![normal(5, CardColor::Red), Card::Pirate]),
        stack(vec![normal(8, CardColor::Blue)]),
        stack(vec![Card::Pirate, normal(2, CardColor::Blue)]),
        stack(vec![normal(5, CardColor::Red), normal(1, CardColor::Teal)]),
    ];
    let (state, information) = shown(board.clone()).normalize();
    let back = state.denormalize(&information);
    assert_eq!(back.board, board);
    assert_eq!(back.placeholders, PlaceHolders::default());
    assert_eq!(back.output, Output::default());
}

#[test]
fn denormalize_follows_the_stacks_through_a_move() {
    let board = vec![
        stack(vec![normal(5, CardColor::Red), normal(3, CardColor::Red)]),
        stack(vec![Card::Pirate, normal(4, CardColor::Blue)]),
        stack(vec![normal(9, CardColor::Teal)]),
    ];
    let (state, information) = shown(board).normalize();
    let moved = state
        .card_split_states()
        .into_iter()
        .find(|next| next.board.iter().iter().any(|s| s.cards.len() == 3))
        .unwrap();
    let back = moved.denormalize(&information);
    assert_eq!(
        back.board,
        vec![
            stack(vec![normal(5, CardColor::Red)]),
            stack(vec![Card::Pirate, normal(4, CardColor::Blue), normal(3, CardColor::Red)]),
            stack(vec![normal(9, CardColor::Teal)]),
        ]
    );
}

#[test]
fn denormalize_takes_the_last_of_equally_good_stacks() {
    let (state, _) = shown(vec![
        stack(vec![normal(1, CardColor::Red)]),
        stack(vec![normal(2, CardColor::Red)]),
        stack(vec![normal(3, CardColor::Red)]),
    ])
    .normalize();
    let (_, information) = shown(vec![
        stack(vec![Card::Pirate]),
        stack(vec![normal(2, CardColor::Red), Card::Pirate]),
    ])
    .normalize();
    let back = state.denormalize(&information);
    assert_eq!(
        back.board,
        vec![stack(vec![normal(3, CardColor::Red)]), stack(vec![normal(2, CardColor::Red)])]
    );
}

#[test]
fn denormalize_lists_the_slots_in_canonical_order() {
    let mut state = shown(vec![stack(vec![])]).normalize().0;
    state.placeholders.holes.take(&PlaceHolder(None));
    state.placeholders.holes.insert(PlaceHolder(Some(CardOrBundle::Card(Card::Pirate))));
    let (_, information) = shown(vec![stack(vec![])]).normalize();
    let back = state.denormalize(&information);
    assert_eq!(
        back.placeholders.holes,
        vec![
            PlaceHolder(None),
            PlaceHolder(None),
            PlaceHolder(Some(CardOrBundle::Card(Card::Pirate))),
        ]
    );
}
