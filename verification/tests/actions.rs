use pirate_solitaire::actions::{CardLocation, CardSplitOrigin};
use pirate_solitaire::collection::BTreeMultiSet;
use pirate_solitaire::state::{
    Beast, Card, CardColor, CardNumber, CardOrBundle, CardStack, NormalCard, Output, PlaceHolder,
    PlaceHolders, State,
};

fn normal(number: u8, color: CardColor) -> Card {
    Card::Normal(NormalCard { number: CardNumber(number), color })
}

fn stack(cards: Vec<Card>) -> CardStack {
    CardStack { cards }
}

fn slot(card: Card) -> PlaceHolder {
    PlaceHolder(Some(CardOrBundle::Card(card)))
}

fn bundle(beast: Beast) -> PlaceHolder {
    PlaceHolder(Some(CardOrBundle::BeastBundle(beast)))
}

fn state(stacks: Vec<CardStack>, holes: Vec<PlaceHolder>, tally: [u8; 3]) -> State {
    State {
        placeholders: PlaceHolders { holes: BTreeMultiSet::from_vec(holes) },
        output: Output { by_color: [CardNumber(tally[0]), CardNumber(tally[1]), CardNumber(tally[2])] },
        board: BTreeMultiSet::from_vec(stacks),
    }
}

fn empty_slots() -> Vec<PlaceHolder> {
    vec![PlaceHolder(None), PlaceHolder(None), PlaceHolder(None)]
}

#[test]
fn output_accepts_the_rank_above_the_pile() {
    let output = Output { by_color: [CardNumber(0), CardNumber(3), CardNumber(9)] };
    assert!(output.can_output_card(&NormalCard { number: CardNumber(1), color: CardColor::Red }));
    assert!(!output.can_output_card(&NormalCard { number: CardNumber(2), color: CardColor::Red }));
    assert!(!output.can_output_card(&NormalCard { number: CardNumber(0), color: CardColor::Red }));
    assert!(output.can_output_card(&NormalCard { number: CardNumber(4), color: CardColor::Teal }));
    assert!(!output.can_output_card(&NormalCard { number: CardNumber(3), color: CardColor::Teal }));
    assert!(output.can_output_card(&NormalCard { number: CardNumber(10), color: CardColor::Blue }));
}

#[test]
fn output_at_the_highest_pile_accepts_nothing() {
    let output = Output { by_color: [CardNumber(255), CardNumber(0), CardNumber(0)] };
    assert!(!output.can_output_card(&NormalCard { number: CardNumber(0), color: CardColor::Red }));
    assert!(!output.can_output_card(&NormalCard { number: CardNumber(255), color: CardColor::Red }));
}

#[test]
fn card_stacks_on_next_rank_of_other_suit() {
    let five_red = normal(5, CardColor::Red);
    assert!(five_red.can_stack_with(&normal(4, CardColor::Blue)));
    assert!(five_red.can_stack_with(&normal(4, CardColor::Teal)));
    assert!(!five_red.can_stack_with(&normal(4, CardColor::Red)));
    assert!(!five_red.can_stack_with(&normal(3, CardColor::Blue)));
    assert!(!five_red.can_stack_with(&normal(6, CardColor::Blue)));
    assert!(!five_red.can_stack_with(&normal(5, CardColor::Blue)));
    assert!(!five_red.can_stack_with(&Card::Pirate));
    assert!(!Card::Pirate.can_stack_with(&normal(4, CardColor::Blue)));
    assert!(!Card::Beast(Beast::Whale).can_stack_with(&Card::Pirate));
    assert!(!normal(0, CardColor::Red).can_stack_with(&normal(255, CardColor::Blue)));
}

#[test]
fn empty_stack_takes_any_card() {
    let empty = stack(vec![]);
    assert!(empty.can_stack_with(&Card::Pirate));
    assert!(empty.can_stack_with(&Card::Beast(Beast::Ship)));
    assert!(empty.can_stack_with(&normal(9, CardColor::Red)));
}

#[test]
fn stack_takes_what_its_top_card_takes() {
    let s = stack(vec![normal(2, CardColor::Red), normal(7, CardColor::Teal)]);
    assert!(s.can_stack_with(&normal(6, CardColor::Red)));
    assert!(!s.can_stack_with(&normal(1, CardColor::Blue)));
    assert!(!s.can_stack_with(&Card::Pirate));
}

#[test]
fn max_split_size_counts_the_run_at_the_top() {
    assert_eq!(stack(vec![]).max_split_size(), 0);
    assert_eq!(stack(vec![Card::Pirate]).max_split_size(), 1);
    assert_eq!(stack(vec![normal(3, CardColor::Red), normal(2, CardColor::Blue)]).max_split_size(), 2);
    assert_eq!(
        stack(vec![
            Card::Pirate,
            normal(5, CardColor::Red),
            normal(4, CardColor::Blue),
            normal(3, CardColor::Red),
        ])
        .max_split_size(),
        3
    );
    assert_eq!(
        stack(vec![
            normal(6, CardColor::Red),
            normal(5, CardColor::Red),
            normal(4, CardColor::Blue),
        ])
        .max_split_size(),
        2
    );
    assert_eq!(
        stack(vec![normal(3, CardColor::Red), normal(2, CardColor::Blue), Card::Pirate])
            .max_split_size(),
        1
    );
    assert_eq!(
        stack(vec![normal(4, CardColor::Red), normal(2, CardColor::Blue)]).max_split_size(),
        1
    );
}

#[test]
fn peek_shows_the_open_card() {
    let s = stack(vec![Card::Pirate, normal(2, CardColor::Red)]);
    assert_eq!(CardLocation::Stack(&s).peek(), Some(normal(2, CardColor::Red)));
    assert_eq!(CardLocation::Stack(&stack(vec![])).peek(), None);
    assert_eq!(CardLocation::PlaceHolder(&slot(Card::Pirate)).peek(), Some(Card::Pirate));
    assert_eq!(CardLocation::PlaceHolder(&PlaceHolder(None)).peek(), None);
    assert_eq!(CardLocation::PlaceHolder(&bundle(Beast::Ship)).peek(), None);
}

#[test]
fn pop_takes_the_top_of_a_stack() {
    let s = stack(vec![Card::Pirate, normal(2, CardColor::Red)]);
    let mut st = state(vec![s.clone(), stack(vec![])], empty_slots(), [0, 0, 0]);
    assert_eq!(st.pop(&CardLocation::Stack(&s)), Some(normal(2, CardColor::Red)));
    assert_eq!(st, state(vec![stack(vec![Card::Pirate]), stack(vec![])], empty_slots(), [0, 0, 0]));
}

#[test]
fn pop_of_an_empty_stack_changes_nothing() {
    let mut st = state(vec![stack(vec![]), stack(vec![Card::Pirate])], empty_slots(), [0, 0, 0]);
    let before = st.clone();
    assert_eq!(st.pop(&CardLocation::Stack(&stack(vec![]))), None);
    assert_eq!(st, before);
}

#[test]
fn pop_empties_a_slot() {
    let holes = vec![slot(Card::Pirate), PlaceHolder(None), bundle(Beast::Whale)];
    let mut st = state(vec![stack(vec![])], holes, [0, 0, 0]);
    assert_eq!(st.pop(&CardLocation::PlaceHolder(&slot(Card::Pirate))), Some(Card::Pirate));
    assert_eq!(
        st,
        state(
            vec![stack(vec![])],
            vec![PlaceHolder(None), PlaceHolder(None), bundle(Beast::Whale)],
            [0, 0, 0]
        )
    );
}

#[test]
fn pop_leaves_a_bundle_alone() {
    let holes = vec![bundle(Beast::Whale), PlaceHolder(None), PlaceHolder(None)];
    let mut st = state(vec![stack(vec![])], holes, [0, 0, 0]);
    let before = st.clone();
    assert_eq!(st.pop(&CardLocation::PlaceHolder(&bundle(Beast::Whale))), None);
    assert_eq!(st, before);
}

#[test]
fn locations_list_stacks_then_slots() {
    let st = state(
        vec![stack(vec![Card::Pirate]), stack(vec![])],
        vec![slot(Card::Pirate), PlaceHolder(None)],
        [0, 0, 0],
    );
    let locations = st.locations();
    assert_eq!(locations.len(), 4);
    assert!(matches!(locations[0], CardLocation::Stack(s) if s.cards.is_empty()));
    assert!(matches!(locations[1], CardLocation::Stack(s) if s.cards == vec![Card::Pirate]));
    assert!(matches!(locations[2], CardLocation::PlaceHolder(h) if *h == PlaceHolder(None)));
    assert!(matches!(locations[3], CardLocation::PlaceHolder(h) if *h == slot(Card::Pirate)));
}

#[test]
fn exposed_pirates_counts_each_place() {
    let st = state(
        vec![
            stack(vec![Card::Pirate]),
            stack(vec![Card::Pirate]),
            stack(vec![Card::Pirate, normal(1, CardColor::Red)]),
            stack(vec![normal(1, CardColor::Blue), Card::Pirate]),
            stack(vec![]),
        ],
        vec![slot(Card::Pirate), PlaceHolder(None), bundle(Beast::Ship)],
        [0, 0, 0],
    );
    assert_eq!(st.exposed_pirates().len(), 4);
    assert_eq!(st.exposed_beasts().len(), 0);
}

#[test]
fn exposed_beasts_are_found_on_stacks_and_in_slots() {
    let st = state(
        vec![
            stack(vec![Card::Pirate, Card::Beast(Beast::Whale)]),
            stack(vec![Card::Beast(Beast::Ship), Card::Pirate]),
        ],
        vec![slot(Card::Beast(Beast::Tentacle)), bundle(Beast::Ship), PlaceHolder(None)],
        [0, 0, 0],
    );
    let beasts = st.exposed_beasts();
    assert_eq!(beasts.len(), 2);
    assert_eq!(beasts[0].peek(), Some(Card::Beast(Beast::Whale)));
    assert_eq!(beasts[1].peek(), Some(Card::Beast(Beast::Tentacle)));
}

#[test]
fn valid_card_outputs_offers_only_accepted_cards() {
    let st = state(
        vec![
            stack(vec![normal(2, CardColor::Red), normal(1, CardColor::Teal)]),
            stack(vec![normal(2, CardColor::Blue)]),
            stack(vec![normal(4, CardColor::Red)]),
            stack(vec![Card::Pirate]),
        ],
        vec![slot(normal(5, CardColor::Blue)), slot(normal(3, CardColor::Red)), PlaceHolder(None)],
        [3, 0, 1],
    );
    let outputs = st.valid_card_outputs();
    let cards: Vec<NormalCard> = outputs.iter().map(|pair| pair.1).collect();
    assert_eq!(
        cards,
        vec![
            NormalCard { number: CardNumber(1), color: CardColor::Teal },
            NormalCard { number: CardNumber(2), color: CardColor::Blue },
            NormalCard { number: CardNumber(4), color: CardColor::Red },
        ]
    );
    for (location, card) in outputs {
        assert_eq!(location.peek(), Some(Card::Normal(card)));
    }
}

#[test]
fn valid_card_splits_offers_every_run_up_to_the_longest() {
    let run = stack(vec![
        Card::Pirate,
        normal(5, CardColor::Red),
        normal(4, CardColor::Blue),
        normal(3, CardColor::Red),
    ]);
    let st = state(
        vec![run.clone(), stack(vec![])],
        vec![slot(Card::Pirate), bundle(Beast::Ship), PlaceHolder(None)],
        [0, 0, 0],
    );
    let splits = st.valid_card_splits();
    let mut sizes = vec![];
    let mut slot_cards = vec![];
    for split in &splits {
        match split {
            CardSplitOrigin::Stack { location, cards } => {
                assert_eq!(**location, run);
                assert_eq!(*cards, &run.cards[run.cards.len() - cards.len()..]);
                sizes.push(cards.len());
            }
            CardSplitOrigin::PlaceHolder { location, card } => {
                assert_eq!(**location, slot(**card));
                slot_cards.push(**card);
            }
        }
    }
    assert_eq!(sizes, vec![1, 2, 3]);
    assert_eq!(slot_cards, vec![Card::Pirate]);
}

#[test]
fn output_move_from_stack_scenario() {
    let st = state(
        vec![
            stack(vec![normal(2, CardColor::Red), normal(1, CardColor::Teal)]),
            stack(vec![]),
            stack(vec![]),
            stack(vec![]),
            stack(vec![]),
            stack(vec![]),
        ],
        empty_slots(),
        [0, 0, 0],
    );
    let outputs = st.card_output_states();
    let expected = state(
        vec![
            stack(vec![normal(2, CardColor::Red)]),
            stack(vec![]),
            stack(vec![]),
            stack(vec![]),
            stack(vec![]),
            stack(vec![]),
        ],
        empty_slots(),
        [0, 1, 0],
    );
    assert_eq!(outputs, vec![expected.clone()]);
    assert!(st.get_next_states().contains(&expected));
    assert!(expected.card_output_states().is_empty());
    assert!(expected.valid_card_outputs().is_empty());
    let mut ready = expected.clone();
    ready.output[&CardColor::Red] = CardNumber(1);
    assert_eq!(ready.card_output_states().len(), 1);
    assert_eq!(ready.card_output_states()[0].output.by_color, [CardNumber(2), CardNumber(1), CardNumber(0)]);
}

#[test]
fn output_move_from_slot_empties_the_slot() {
    let st = state(
        vec![stack(vec![])],
        vec![slot(normal(1, CardColor::Blue)), PlaceHolder(None), PlaceHolder(None)],
        [0, 0, 0],
    );
    assert_eq!(
        st.card_output_states(),
        vec![state(vec![stack(vec![])], empty_slots(), [0, 0, 1])]
    );
}

#[test]
fn bundle_is_never_output() {
    let st = state(
        vec![stack(vec![])],
        vec![bundle(Beast::Whale), bundle(Beast::Ship), bundle(Beast::Tentacle)],
        [0, 0, 0],
    );
    assert!(st.get_next_states().is_empty());
}

#[test]
fn promotion_scenario() {
    let st = state(
        vec![
            stack(vec![Card::Pirate]),
            stack(vec![Card::Pirate]),
            stack(vec![Card::Pirate]),
            stack(vec![Card::Pirate]),
            stack(vec![Card::Pirate]),
            stack(vec![Card::Beast(Beast::Tentacle)]),
        ],
        empty_slots(),
        [0, 0, 0],
    );
    let promoted = st.beast_promotion_states();
    let expected = state(
        vec![
            stack(vec![Card::Pirate]),
            stack(vec![Card::Pirate]),
            stack(vec![Card::Pirate]),
            stack(vec![]),
            stack(vec![]),
            stack(vec![]),
        ],
        vec![bundle(Beast::Tentacle), PlaceHolder(None), PlaceHolder(None)],
        [0, 0, 0],
    );
    assert_eq!(promoted.len(), 10);
    for next in &promoted {
        assert_eq!(*next, expected);
    }
    assert!(st.get_next_states().contains(&expected));
}

#[test]
fn promotion_of_a_beast_in_a_slot_reuses_its_slot() {
    let st = state(
        vec![stack(vec![Card::Pirate]), stack(vec![normal(1, CardColor::Red), Card::Pirate])],
        vec![slot(Card::Beast(Beast::Ship)), bundle(Beast::Whale), slot(normal(9, CardColor::Red))],
        [0, 0, 0],
    );
    assert_eq!(
        st.beast_promotion_states(),
        vec![state(
            vec![stack(vec![]), stack(vec![normal(1, CardColor::Red)])],
            vec![bundle(Beast::Ship), bundle(Beast::Whale), slot(normal(9, CardColor::Red))],
            [0, 0, 0],
        )]
    );
}

#[test]
fn promotion_from_a_stack_needs_an_empty_slot() {
    let stacks = vec![
        stack(vec![Card::Beast(Beast::Ship)]),
        stack(vec![Card::Pirate]),
        stack(vec![Card::Pirate]),
    ];
    let full = vec![bundle(Beast::Whale), slot(normal(9, CardColor::Red)), slot(normal(8, CardColor::Red))];
    assert!(state(stacks.clone(), full, [0, 0, 0]).beast_promotion_states().is_empty());
    let pirates_held = vec![slot(Card::Pirate), slot(Card::Pirate), bundle(Beast::Whale)];
    assert!(state(
        vec![stack(vec![Card::Beast(Beast::Ship)])],
        pirates_held,
        [0, 0, 0]
    )
    .beast_promotion_states()
    .is_empty());
    let one_free = vec![bundle(Beast::Whale), slot(normal(9, CardColor::Red)), PlaceHolder(None)];
    assert_eq!(
        state(stacks, one_free, [0, 0, 0]).beast_promotion_states(),
        vec![state(
            vec![stack(vec![]), stack(vec![]), stack(vec![])],
            vec![bundle(Beast::Whale), slot(normal(9, CardColor::Red)), bundle(Beast::Ship)],
            [0, 0, 0],
        )]
    );
}

#[test]
fn promotion_needs_two_pirates() {
    let st = state(
        vec![stack(vec![Card::Beast(Beast::Ship)]), stack(vec![Card::Pirate])],
        empty_slots(),
        [0, 0, 0],
    );
    assert!(st.beast_promotion_states().is_empty());
}

#[test]
fn promotion_removes_three_cards_and_adds_one_bundle() {
    let st = state(
        vec![
            stack(vec![normal(3, CardColor::Red), Card::Beast(Beast::Whale)]),
            stack(vec![normal(2, CardColor::Red), Card::Pirate]),
        ],
        vec![slot(Card::Pirate), PlaceHolder(None), PlaceHolder(None)],
        [0, 0, 0],
    );
    let cards = |s: &State| {
        s.board.iter().iter().map(|stack| stack.cards.len()).sum::<usize>()
            + s.placeholders.holes.iter().iter().filter(|h| matches!(h.0, Some(CardOrBundle::Card(_)))).count()
    };
    let promoted = st.beast_promotion_states();
    assert_eq!(promoted.len(), 1);
    assert_eq!(cards(&promoted[0]) + 3, cards(&st));
    assert_eq!(promoted[0].bundle_count(), st.bundle_count() + 1);
    assert_eq!(promoted[0].placeholders.holes.len(), 3);
    assert_eq!(promoted[0].board.len(), 2);
}

#[test]
fn hold_moves_pair_stacks_with_empty_slots() {
    let st = state(
        vec![stack(vec![Card::Pirate, normal(2, CardColor::Red)]), stack(vec![])],
        vec![PlaceHolder(None), slot(Card::Pirate), PlaceHolder(None)],
        [0, 0, 0],
    );
    let held = st.card_hold_states();
    let expected = state(
        vec![stack(vec![Card::Pirate]), stack(vec![])],
        vec![PlaceHolder(None), slot(Card::Pirate), slot(normal(2, CardColor::Red))],
        [0, 0, 0],
    );
    assert_eq!(held, vec![expected.clone(), expected]);
}

#[test]
fn hold_needs_an_empty_slot() {
    let st = state(
        vec![stack(vec![Card::Pirate])],
        vec![slot(Card::Pirate), slot(Card::Pirate), bundle(Beast::Ship)],
        [0, 0, 0],
    );
    assert!(st.card_hold_states().is_empty());
}

#[test]
fn relocation_moves_runs_onto_stacks_that_take_them() {
    let run = stack(vec![normal(5, CardColor::Red), normal(4, CardColor::Blue)]);
    let six = stack(vec![normal(6, CardColor::Teal)]);
    let st = state(vec![run.clone(), six.clone(), stack(vec![])], empty_slots(), [0, 0, 0]);
    let moved = st.card_split_states();
    let expect = |stacks: Vec<CardStack>| state(stacks, empty_slots(), [0, 0, 0]);
    let wanted = vec![
        expect(vec![stack(vec![normal(5, CardColor::Red)]), six.clone(), stack(vec![normal(4, CardColor::Blue)])]),
        expect(vec![
            stack(vec![]),
            stack(vec![normal(6, CardColor::Teal), normal(5, CardColor::Red), normal(4, CardColor::Blue)]),
            stack(vec![]),
        ]),
        expect(vec![stack(vec![]), six.clone(), run.clone()]),
        expect(vec![run.clone(), stack(vec![]), six.clone()]),
    ];
    assert_eq!(moved.len(), 4);
    for next in &wanted {
        assert!(moved.contains(next));
    }
    for next in &moved {
        assert!(wanted.contains(next));
    }
}

#[test]
fn relocation_never_lays_a_unit_back_on_its_stack() {
    let run = stack(vec![
        normal(6, CardColor::Teal),
        normal(5, CardColor::Red),
        normal(4, CardColor::Blue),
    ]);
    let st = state(vec![run.clone(), run.clone()], empty_slots(), [0, 0, 0]);
    assert!(st.card_split_states().is_empty());
}

#[test]
fn relocation_from_a_slot_empties_the_slot() {
    let st = state(
        vec![stack(vec![normal(5, CardColor::Red)]), stack(vec![Card::Pirate])],
        vec![slot(normal(4, CardColor::Blue)), bundle(Beast::Ship), PlaceHolder(None)],
        [0, 0, 0],
    );
    let moved = st.card_split_states();
    let expected = state(
        vec![stack(vec![normal(5, CardColor::Red), normal(4, CardColor::Blue)]), stack(vec![Card::Pirate])],
        vec![PlaceHolder(None), bundle(Beast::Ship), PlaceHolder(None)],
        [0, 0, 0],
    );
    assert!(moved.contains(&expected));
    assert_eq!(moved.len(), 1);
}

#[test]
fn get_next_states_joins_the_four_families() {
    let st = state(
        vec![
            stack(vec![normal(1, CardColor::Red)]),
            stack(vec![Card::Beast(Beast::Whale)]),
            stack(vec![Card::Pirate]),
            stack(vec![Card::Pirate]),
            stack(vec![]),
        ],
        empty_slots(),
        [0, 0, 0],
    );
    let all = st.get_next_states();
    let parts = st.card_output_states().len()
        + st.card_split_states().len()
        + st.card_hold_states().len()
        + st.beast_promotion_states().len();
    assert_eq!(all.len(), parts);
    let mut listed = st.card_output_states();
    listed.extend(st.card_split_states());
    listed.extend(st.card_hold_states());
    listed.extend(st.beast_promotion_states());
    assert_eq!(all, listed);
    assert_eq!(st.card_output_states().len(), 1);
    assert_eq!(st.card_split_states().len(), 4);
    assert_eq!(st.card_hold_states().len(), 12);
    assert_eq!(st.beast_promotion_states().len(), 1);
    for next in st.card_output_states() {
        assert!(all.contains(&next));
    }
    for next in st.beast_promotion_states() {
        assert!(all.contains(&next));
    }
}

#[test]
fn moves_keep_six_stacks_and_three_slots() {
    let st = pirate_solitaire::deck_generator::generate_game(
        pirate_solitaire::godot_shuffle::Seed::from_bits(7),
    );
    for next in st.get_next_states() {
        assert_eq!(next.board.len(), 6);
        assert_eq!(next.placeholders.holes.len(), 3);
        for after in next.get_next_states() {
            assert_eq!(after.board.len(), 6);
            assert_eq!(after.placeholders.holes.len(), 3);
        }
    }
}

#[test]
fn tally_never_goes_down() {
    let st = state(
        vec![
            stack(vec![normal(4, CardColor::Red)]),
            stack(vec![normal(1, CardColor::Teal)]),
            stack(vec![Card::Pirate]),
        ],
        empty_slots(),
        [3, 0, 5],
    );
    for next in st.get_next_states() {
        for suit in [CardColor::Red, CardColor::Teal, CardColor::Blue] {
            assert!(next.output[&suit] >= st.output[&suit]);
        }
    }
}

#[test]
fn is_empty_tells_whether_a_card_lies_open() {
    assert!(CardLocation::Stack(&stack(vec![])).is_empty());
    assert!(!CardLocation::Stack(&stack(vec![Card::Pirate])).is_empty());
    assert!(CardLocation::PlaceHolder(&PlaceHolder(None)).is_empty());
    assert!(CardLocation::PlaceHolder(&bundle(Beast::Whale)).is_empty());
    assert!(!CardLocation::PlaceHolder(&slot(Card::Pirate)).is_empty());
}

#[test]
fn bundle_stays_in_every_successor() {
    let st = state(
        vec![
            stack(vec![normal(2, CardColor::Red), normal(1, CardColor::Blue)]),
            stack(vec![Card::Pirate, Card::Beast(Beast::Ship)]),
            stack(vec![Card::Pirate]),
            stack(vec![Card::Pirate]),
            stack(vec![]),
        ],
        vec![bundle(Beast::Whale), slot(normal(1, CardColor::Red)), PlaceHolder(None)],
        [0, 0, 0],
    );
    let next = st.get_next_states();
    assert!(!next.is_empty());
    for after in &next {
        assert!(after.placeholders.holes.iter().contains(&bundle(Beast::Whale)));
        assert!(after.bundle_count() >= 1);
        for last in after.get_next_states() {
            assert!(last.placeholders.holes.iter().contains(&bundle(Beast::Whale)));
        }
    }
}
