use pirate_solitaire::state::{
    Card, CardColor, CardNumber, NormalCard, Output, PlaceHolder, PlaceHolders, State,
};
use pirate_solitaire::collection::BTreeMultiSet;

#[test]
fn next_is_one_rank_higher() {
    assert_eq!(CardNumber(1).next(), CardNumber(2));
    assert_eq!(CardNumber(0).next(), CardNumber(1));
    assert_eq!(CardNumber(254).next(), CardNumber(255));
}

#[test]
fn next_inplace_advances() {
    let mut number = CardNumber(8);
    number.next_inplace();
    assert_eq!(number, CardNumber(9));
}

#[test]
fn normal_of_a_normal_card() {
    let inner = NormalCard { number: CardNumber(4), color: CardColor::Teal };
    assert_eq!(Card::Normal(inner).normal(), Some(&inner));
}

#[test]
fn normal_of_other_cards() {
    assert_eq!(Card::Pirate.normal(), None);
    assert_eq!(Card::Beast(pirate_solitaire::state::Beast::Ship).normal(), None);
}

#[test]
fn default_output_is_all_zero() {
    let output = Output::default();
    assert_eq!(output.by_color, [CardNumber(0), CardNumber(0), CardNumber(0)]);
    assert_eq!(output[&CardColor::Red], CardNumber(0));
    assert_eq!(output.tally(&CardColor::Blue), CardNumber(0));
}

#[test]
fn output_is_indexed_by_suit() {
    let mut output = Output::default();
    output[&CardColor::Teal] = CardNumber(3);
    output.set_tally(&CardColor::Blue, CardNumber(7));
    assert_eq!(output.by_color, [CardNumber(0), CardNumber(3), CardNumber(7)]);
    assert_eq!(output[&CardColor::Teal], CardNumber(3));
    assert_eq!(output.tally(&CardColor::Blue), CardNumber(7));
    assert_eq!(output.tally(&CardColor::Red), CardNumber(0));
}

#[test]
fn default_slots_are_three_empty_ones() {
    let slots = PlaceHolders::default();
    assert_eq!(
        slots.holes.iter().clone(),
        vec![PlaceHolder(None), PlaceHolder(None), PlaceHolder(None)]
    );
}

#[test]
fn states_with_permuted_stacks_are_equal() {
    let a = pirate_solitaire::state::CardStack { cards: vec![Card::Pirate] };
    let b = pirate_solitaire::state::CardStack { cards: vec![] };
    let one = State {
        placeholders: PlaceHolders::default(),
        output: Output::default(),
        board: BTreeMultiSet::from_vec(vec![a.clone(), b.clone()]),
    };
    let other = State {
        placeholders: PlaceHolders::default(),
        output: Output::default(),
        board: BTreeMultiSet::from_vec(vec![b, a]),
    };
    assert_eq!(one, other);
    assert_eq!(one.clone(), other);
}

#[test]
fn beasts_have_names() {
    use_names();
}

fn use_names() {
    assert_eq!(pirate_solitaire::state::Beast::Whale.name(), "whale");
    assert_eq!(pirate_solitaire::state::Beast::Tentacle.name(), "tentacle");
    assert_eq!(pirate_solitaire::state::Beast::Ship.name(), "ship");
}

#[test]
fn default_multiset_is_empty() {
    let set: BTreeMultiSet<PlaceHolder> = BTreeMultiSet::default();
    assert_eq!(set.len(), 0);
    assert_eq!(set, BTreeMultiSet::new());
}

#[test]
fn same_as_tells_snapshots_apart() {
    let stack = |cards: Vec<Card>| pirate_solitaire::state::CardStack { cards };
    let make = |stacks: Vec<pirate_solitaire::state::CardStack>, red: u8| State {
        placeholders: PlaceHolders::default(),
        output: Output { by_color: [CardNumber(red), CardNumber(0), CardNumber(0)] },
        board: BTreeMultiSet::from_vec(stacks),
    };
    let one = make(vec![stack(vec![Card::Pirate]), stack(vec![])], 0);
    assert!(one.same_as(&make(vec![stack(vec![]), stack(vec![Card::Pirate])], 0)));
    assert!(!one.same_as(&make(vec![stack(vec![]), stack(vec![Card::Pirate])], 1)));
    assert!(!one.same_as(&make(vec![stack(vec![Card::Pirate])], 0)));
    assert!(!one.same_as(&make(vec![stack(vec![Card::Pirate]), stack(vec![Card::Pirate])], 0)));
    let mut held = make(vec![stack(vec![Card::Pirate]), stack(vec![])], 0);
    held.placeholders.holes.take(&PlaceHolder(None));
    assert!(!one.same_as(&held));
}
