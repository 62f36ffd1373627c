use pirate_solitaire::collection::{BTreeMultiSet, Placement, Sortable};
use pirate_solitaire::state::{Beast, Card, CardColor, CardNumber, CardOrBundle, CardStack, NormalCard, PlaceHolder};

fn normal(number: u8, color: CardColor) -> Card {
    Card::Normal(NormalCard { number: CardNumber(number), color })
}

fn stack(cards: Vec<Card>) -> CardStack {
    CardStack { cards }
}

#[test]
fn new_multiset_is_empty() {
    let set: BTreeMultiSet<PlaceHolder> = BTreeMultiSet::new();
    assert_eq!(set.len(), 0);
    assert!(set.iter().is_empty());
}

#[test]
fn insert_keeps_duplicates() {
    let mut set = BTreeMultiSet::new();
    set.insert(PlaceHolder(None));
    set.insert(PlaceHolder(Some(CardOrBundle::Card(Card::Pirate))));
    set.insert(PlaceHolder(None));
    assert_eq!(set.len(), 3);
    assert_eq!(
        set.iter().clone(),
        vec![
            PlaceHolder(None),
            PlaceHolder(None),
            PlaceHolder(Some(CardOrBundle::Card(Card::Pirate))),
        ]
    );
}

#[test]
fn take_removes_one_occurrence() {
    let mut set = BTreeMultiSet::from_vec(vec![
        PlaceHolder(None),
        PlaceHolder(None),
        PlaceHolder(Some(CardOrBundle::BeastBundle(Beast::Ship))),
    ]);
    assert_eq!(set.take(&PlaceHolder(None)), Some(PlaceHolder(None)));
    assert_eq!(set.len(), 2);
    assert_eq!(set.take(&PlaceHolder(None)), Some(PlaceHolder(None)));
    assert_eq!(set.len(), 1);
    assert_eq!(set.take(&PlaceHolder(None)), None);
    assert_eq!(set.len(), 1);
    assert_eq!(
        set.iter().clone(),
        vec![PlaceHolder(Some(CardOrBundle::BeastBundle(Beast::Ship)))]
    );
}

#[test]
fn remove_is_take() {
    let mut set = BTreeMultiSet::from_vec(vec![stack(vec![Card::Pirate]), stack(vec![])]);
    assert_eq!(set.remove(&stack(vec![Card::Pirate])), Some(stack(vec![Card::Pirate])));
    assert_eq!(set.remove(&stack(vec![Card::Pirate])), None);
    assert_eq!(set.iter().clone(), vec![stack(vec![])]);
}

#[test]
fn take_of_absent_value_changes_nothing() {
    let mut set = BTreeMultiSet::from_vec(vec![stack(vec![Card::Pirate])]);
    assert_eq!(set.take(&stack(vec![])), None);
    assert_eq!(set.len(), 1);
}

#[test]
fn order_of_arrival_does_not_matter() {
    let a = stack(vec![normal(3, CardColor::Red), normal(2, CardColor::Blue)]);
    let b = stack(vec![Card::Pirate]);
    let c = stack(vec![]);
    let one = BTreeMultiSet::from_vec(vec![a.clone(), b.clone(), c.clone(), b.clone()]);
    let other = BTreeMultiSet::from_vec(vec![b.clone(), c.clone(), b.clone(), a.clone()]);
    assert_eq!(one, other);
    assert_eq!(one.iter(), other.iter());
    let fewer = BTreeMultiSet::from_vec(vec![a, b, c]);
    assert_ne!(one, fewer);
}

#[test]
fn enumeration_is_sorted_by_value() {
    let set = BTreeMultiSet::from_vec(vec![
        stack(vec![normal(1, CardColor::Red)]),
        stack(vec![Card::Beast(Beast::Whale)]),
        stack(vec![Card::Pirate, Card::Pirate]),
        stack(vec![]),
        stack(vec![Card::Pirate]),
    ]);
    assert_eq!(
        set.iter().clone(),
        vec![
            stack(vec![]),
            stack(vec![Card::Pirate]),
            stack(vec![Card::Pirate, Card::Pirate]),
            stack(vec![Card::Beast(Beast::Whale)]),
            stack(vec![normal(1, CardColor::Red)]),
        ]
    );
}

#[test]
fn enumeration_follows_the_derived_order() {
    let mut stacks = vec![
        stack(vec![normal(9, CardColor::Blue)]),
        stack(vec![normal(9, CardColor::Red), Card::Pirate]),
        stack(vec![Card::Beast(Beast::Ship)]),
        stack(vec![Card::Beast(Beast::Tentacle)]),
        stack(vec![normal(1, CardColor::Teal)]),
        stack(vec![]),
    ];
    let set = BTreeMultiSet::from_vec(stacks.clone());
    stacks.sort();
    assert_eq!(set.iter().clone(), stacks);
}

#[test]
fn position_finds_the_first_occurrence() {
    let set = BTreeMultiSet::from_vec(vec![
        PlaceHolder(Some(CardOrBundle::Card(Card::Pirate))),
        PlaceHolder(None),
        PlaceHolder(Some(CardOrBundle::Card(Card::Pirate))),
    ]);
    assert_eq!(set.position(&PlaceHolder(None)), Some(0));
    assert_eq!(set.position(&PlaceHolder(Some(CardOrBundle::Card(Card::Pirate)))), Some(1));
    assert_eq!(set.position(&PlaceHolder(Some(CardOrBundle::BeastBundle(Beast::Whale)))), None);
}

#[test]
fn clone_holds_the_same() {
    let set = BTreeMultiSet::from_vec(vec![stack(vec![Card::Pirate]), stack(vec![])]);
    let copy = set.clone();
    assert_eq!(set, copy);
}

#[test]
fn compare_orders_slots() {
    let empty = PlaceHolder(None);
    let pirate = PlaceHolder(Some(CardOrBundle::Card(Card::Pirate)));
    let bundle = PlaceHolder(Some(CardOrBundle::BeastBundle(Beast::Whale)));
    assert_eq!(empty.compare(&pirate), Placement::Before);
    assert_eq!(pirate.compare(&bundle), Placement::Before);
    assert_eq!(bundle.compare(&empty), Placement::After);
    assert_eq!(pirate.compare(&pirate), Placement::Same);
}

#[test]
fn compare_orders_stacks_card_by_card() {
    let short = stack(vec![normal(5, CardColor::Red)]);
    let long = stack(vec![normal(5, CardColor::Red), Card::Pirate]);
    let other = stack(vec![normal(5, CardColor::Teal)]);
    assert_eq!(short.compare(&long), Placement::Before);
    assert_eq!(long.compare(&short), Placement::After);
    assert_eq!(long.compare(&other), Placement::Before);
    assert_eq!(other.compare(&other.duplicate()), Placement::Same);
}
