//! Value types of the game: cards, stacks, holding slots, the output tally
//! and the full board snapshot.

use crate::collection::{BTreeMultiSet, Placement, Sortable};
use vstd::multiset::Multiset;
use vstd::prelude::*;

verus! {

/// The rank of a normal card (1 to 9 in a regular deck), or the height of
/// an output pile (0 when no card of the suit has been output yet).
#[derive(Debug, Clone, Copy, PartialOrd, Ord, Hash, PartialEq, Eq, Structural)]
pub struct CardNumber(pub u8);

impl CardNumber {
    /// The rank that follows this one.
    pub fn next(&self) -> (r: Self)
        requires
            self.0 < u8::MAX,
        ensures
            r.0 == self.0 + 1,
    {
        Self(self.0 + 1)
    }

    /// Advances this rank to the one that follows it.
    pub fn next_inplace(&mut self)
        requires
            old(self).0 < u8::MAX,
        ensures
            final(self).0 == old(self).0 + 1,
    {
        self.0 += 1;
    }
}

/// The three beasts. Each is in the game once.
#[derive(Debug, Clone, Copy, PartialOrd, Ord, Hash, PartialEq, Eq, Structural)]
pub enum Beast {
    Whale,
    Tentacle,
    Ship,
}

impl Beast {
    /// The name of the beast.
    pub fn name(&self) -> (r: &'static str)
        ensures
            r@ == match *self {
                Beast::Whale => "whale"@,
                Beast::Tentacle => "tentacle"@,
                Beast::Ship => "ship"@,
            },
    {
        match self {
            Beast::Whale => "whale",
            Beast::Tentacle => "tentacle",
            Beast::Ship => "ship",
        }
    }
}

/// The three suits of the normal cards.
#[derive(Debug, Clone, Copy, PartialOrd, Ord, Hash, PartialEq, Eq, Structural)]
pub enum CardColor {
    Red,
    Teal,
    Blue,
}

/// A normal card: a rank and a suit.
#[derive(Debug, Clone, Copy, PartialOrd, Ord, Hash, PartialEq, Eq, Structural)]
pub struct NormalCard {
    pub number: CardNumber,
    pub color: CardColor,
}

/// A card: a pirate, of which the game has six; a beast; or a normal card.
#[derive(Debug, Clone, Copy, PartialOrd, Ord, Hash, PartialEq, Eq, Structural)]
pub enum Card {
    Pirate,
    Beast(Beast),
    Normal(NormalCard),
}

impl Card {
    /// The rank and suit of this card, if it is a normal card.
    pub fn normal(&self) -> (r: Option<&NormalCard>)
        ensures
            match *self {
                Card::Normal(n) => r == Some(&n),
                _ => r.is_none(),
            },
    {
        if let Card::Normal(normal) = self {
            Some(normal)
        } else {
            None
        }
    }
}

/// What a holding slot can hold: a single card, or the bundle that a beast
/// and two pirates have become. A bundle is never taken apart.
#[derive(Debug, Clone, Copy, PartialOrd, Ord, Hash, PartialEq, Eq, Structural)]
pub enum CardOrBundle {
    Card(Card),
    BeastBundle(Beast),
}

/// A stack of cards, bottom first: the top of the stack is the last card.
#[derive(Debug, PartialOrd, Ord, Hash, PartialEq, Eq)]
pub struct CardStack {
    pub cards: Vec<Card>,
}

impl View for CardStack {
    type V = Seq<Card>;

    open spec fn view(&self) -> Seq<Card> {
        self.cards@
    }
}

impl Clone for CardStack {
    fn clone(&self) -> (r: Self)
        ensures
            r@ == self@,
    {
        CardStack { cards: self.cards.clone() }
    }
}

/// The position of a suit among the three suits.
pub open spec fn color_index(color: CardColor) -> int {
    match color {
        CardColor::Red => 0,
        CardColor::Teal => 1,
        CardColor::Blue => 2,
    }
}

/// The position of a beast among the three beasts.
pub open spec fn beast_index(beast: Beast) -> int {
    match beast {
        Beast::Whale => 0,
        Beast::Tentacle => 1,
        Beast::Ship => 2,
    }
}

fn color_slot(color: &CardColor) -> (r: usize)
    ensures
        r == color_index(*color),
{
    match color {
        CardColor::Red => 0,
        CardColor::Teal => 1,
        CardColor::Blue => 2,
    }
}

/// Per suit, the rank of the highest normal card already output (0 when
/// none has been).
#[derive(Debug, Clone, Copy, Hash, PartialEq, Eq)]
pub struct Output {
    pub by_color: [CardNumber; 3],
}

impl View for Output {
    type V = Seq<nat>;

    /// The three pile heights, in the order of `color_index`.
    open spec fn view(&self) -> Seq<nat> {
        Seq::new(3, |i: int| self.by_color@[i].0 as nat)
    }
}

impl Default for Output {
    fn default() -> (r: Self)
        ensures
            r@ == seq![0nat, 0nat, 0nat],
    {
        let r = Output { by_color: [CardNumber(0), CardNumber(0), CardNumber(0)] };
        assert(r@ =~= seq![0nat, 0nat, 0nat]);
        r
    }
}

impl std::ops::Index<&CardColor> for Output {
    type Output = CardNumber;

    fn index(&self, index: &CardColor) -> (r: &CardNumber)
        ensures
            r.0 == self@[color_index(*index)],
    {
        &self.by_color[color_slot(index)]
    }
}

impl std::ops::IndexMut<&CardColor> for Output {
    fn index_mut(&mut self, index: &CardColor) -> (r: &mut CardNumber)
        ensures
            r.0 == old(self)@[color_index(*index)],
            final(self)@ == old(self)@.update(color_index(*index), final(r).0 as nat),
    {
        let slot = color_slot(index);
        proof {
            let before = *self;
            assert forall|after: Output|
                after.by_color@ == before.by_color@.update(
                    slot as int,
                    #[trigger] after.by_color@[slot as int],
                ) implies after@ == before@.update(
                slot as int,
                after.by_color@[slot as int].0 as nat,
            ) by {
                assert(after@ =~= before@.update(
                    slot as int,
                    after.by_color@[slot as int].0 as nat,
                ));
            }
        }
        &mut self.by_color[slot]
    }
}

impl Output {
    /// The height of the output pile of `color`.
    pub fn tally(&self, color: &CardColor) -> (r: CardNumber)
        ensures
            r.0 == self@[color_index(*color)],
    {
        self.by_color[color_slot(color)]
    }

    /// Sets the height of the output pile of `color`.
    pub fn set_tally(&mut self, color: &CardColor, number: CardNumber)
        ensures
            final(self)@ == old(self)@.update(color_index(*color), number.0 as nat),
    {
        let slot = color_slot(color);
        let ghost before = self@;
        self.by_color[slot] = number;
        assert(self@ =~= before.update(slot as int, number.0 as nat));
    }
}

/// A holding slot: empty, or holding one card or one bundle.
#[derive(Debug, Default, Clone, Copy, PartialOrd, Ord, Hash, PartialEq, Eq, Structural)]
pub struct PlaceHolder(pub Option<CardOrBundle>);

impl View for PlaceHolder {
    type V = PlaceHolder;

    open spec fn view(&self) -> PlaceHolder {
        *self
    }
}

/// The place of a card in the canonical order of cards: the pirate, then the
/// beasts, then the normal cards by rank and, within a rank, by suit.
pub open spec fn card_rank(card: Card) -> int {
    match card {
        Card::Pirate => 0,
        Card::Beast(b) => 1 + beast_index(b),
        Card::Normal(n) => 4 + 3 * (n.number.0 as int) + color_index(n.color),
    }
}

/// The place of a holding slot in the canonical order of slots: the empty
/// slot, then the slots holding a card, in the order of the cards, then the
/// slots holding a bundle.
pub open spec fn holder_rank(hole: PlaceHolder) -> int {
    match hole.0 {
        None => 0,
        Some(CardOrBundle::Card(c)) => 1 + card_rank(c),
        Some(CardOrBundle::BeastBundle(b)) => 773 + beast_index(b),
    }
}

/// Cards with the same place in the canonical order are the same card.
pub proof fn card_rank_is_injective(a: Card, b: Card)
    requires
        card_rank(a) == card_rank(b),
    ensures
        a == b,
{
}

/// Slots with the same place in the canonical order hold the same.
pub proof fn holder_rank_is_injective(a: PlaceHolder, b: PlaceHolder)
    requires
        holder_rank(a) == holder_rank(b),
    ensures
        a == b,
{
    match (a.0, b.0) {
        (Some(CardOrBundle::Card(x)), Some(CardOrBundle::Card(y))) => {
            card_rank_is_injective(x, y);
        },
        _ => {},
    }
}

fn beast_rank_of(beast: &Beast) -> (r: u16)
    ensures
        r == beast_index(*beast),
{
    match beast {
        Beast::Whale => 0,
        Beast::Tentacle => 1,
        Beast::Ship => 2,
    }
}

fn card_rank_of(card: &Card) -> (r: u16)
    ensures
        r == card_rank(*card),
{
    match card {
        Card::Pirate => 0,
        Card::Beast(b) => 1 + beast_rank_of(b),
        Card::Normal(n) => {
            let number: u16 = n.number.0 as u16;
            let color: u16 = color_slot(&n.color) as u16;
            4 + 3 * number + color
        },
    }
}

fn holder_rank_of(hole: &PlaceHolder) -> (r: u16)
    ensures
        r == holder_rank(*hole),
{
    match &hole.0 {
        None => 0,
        Some(CardOrBundle::Card(c)) => 1 + card_rank_of(c),
        Some(CardOrBundle::BeastBundle(b)) => 773 + beast_rank_of(b),
    }
}

impl Sortable for PlaceHolder {
    open spec fn precedes(a: PlaceHolder, b: PlaceHolder) -> bool {
        holder_rank(a) <= holder_rank(b)
    }

    proof fn precedes_is_total(a: PlaceHolder, b: PlaceHolder) {
    }

    proof fn precedes_is_antisymmetric(a: PlaceHolder, b: PlaceHolder) {
        holder_rank_is_injective(a, b);
    }

    proof fn precedes_is_transitive(a: PlaceHolder, b: PlaceHolder, c: PlaceHolder) {
    }

    fn compare(&self, other: &Self) -> (r: Placement) {
        let x = holder_rank_of(self);
        let y = holder_rank_of(other);
        if x < y {
            Placement::Before
        } else if x > y {
            Placement::After
        } else {
            proof {
                holder_rank_is_injective(*self, *other);
            }
            Placement::Same
        }
    }

    fn duplicate(&self) -> (r: Self) {
        *self
    }
}

/// The canonical order of stacks: card by card from the bottom, by
/// `card_rank`; a stack that is the beginning of another stands first.
pub open spec fn stack_precedes(a: Seq<Card>, b: Seq<Card>) -> bool
    decreases a.len(),
{
    if a.len() == 0 {
        true
    } else if b.len() == 0 {
        false
    } else if card_rank(a[0]) != card_rank(b[0]) {
        card_rank(a[0]) < card_rank(b[0])
    } else {
        stack_precedes(a.drop_first(), b.drop_first())
    }
}

/// Two stacks that agree on their first `k` cards stand to each other as
/// what is left of them above those cards.
pub proof fn stack_precedes_above_common_prefix(a: Seq<Card>, b: Seq<Card>, k: int)
    requires
        0 <= k <= a.len(),
        k <= b.len(),
        forall|i: int| 0 <= i < k ==> a[i] == b[i],
    ensures
        stack_precedes(a, b) == stack_precedes(a.skip(k), b.skip(k)),
    decreases k,
{
    if k == 0 {
        assert(a.skip(0) =~= a);
        assert(b.skip(0) =~= b);
    } else {
        assert(a[0] == b[0]);
        assert forall|i: int| 0 <= i < k - 1 implies a.drop_first()[i] == b.drop_first()[i] by {
            assert(a.drop_first()[i] == a[i + 1]);
            assert(b.drop_first()[i] == b[i + 1]);
        }
        stack_precedes_above_common_prefix(a.drop_first(), b.drop_first(), k - 1);
        assert(a.drop_first().skip(k - 1) =~= a.skip(k));
        assert(b.drop_first().skip(k - 1) =~= b.skip(k));
    }
}

impl Sortable for CardStack {
    open spec fn precedes(a: Seq<Card>, b: Seq<Card>) -> bool {
        stack_precedes(a, b)
    }

    proof fn precedes_is_total(a: Seq<Card>, b: Seq<Card>)
        decreases a.len(),
    {
        if a.len() > 0 && b.len() > 0 && card_rank(a[0]) == card_rank(b[0]) {
            Self::precedes_is_total(a.drop_first(), b.drop_first());
        }
    }

    proof fn precedes_is_antisymmetric(a: Seq<Card>, b: Seq<Card>)
        decreases a.len(),
    {
        if a.len() == 0 || b.len() == 0 {
            assert(a =~= b);
        } else {
            card_rank_is_injective(a[0], b[0]);
            Self::precedes_is_antisymmetric(a.drop_first(), b.drop_first());
            assert(a =~= seq![a[0]] + a.drop_first());
            assert(b =~= seq![b[0]] + b.drop_first());
        }
    }

    proof fn precedes_is_transitive(a: Seq<Card>, b: Seq<Card>, c: Seq<Card>)
        decreases a.len(),
    {
        if a.len() > 0 && b.len() > 0 && c.len() > 0 {
            if card_rank(a[0]) == card_rank(b[0]) && card_rank(b[0]) == card_rank(c[0]) {
                Self::precedes_is_transitive(a.drop_first(), b.drop_first(), c.drop_first());
            }
        }
    }

    fn compare(&self, other: &Self) -> (r: Placement) {
        let n = self.cards.len();
        let m = other.cards.len();
        let mut i: usize = 0;
        while i < n && i < m
            invariant
                n == self.cards.len(),
                m == other.cards.len(),
                i <= n,
                i <= m,
                forall|k: int| 0 <= k < i ==> self@[k] == other@[k],
            decreases n - i,
        {
            let x = card_rank_of(&self.cards[i]);
            let y = card_rank_of(&other.cards[i]);
            if x != y {
                proof {
                    stack_precedes_above_common_prefix(self@, other@, i as int);
                    stack_precedes_above_common_prefix(other@, self@, i as int);
                    assert(self@.skip(i as int)[0] == self@[i as int]);
                    assert(other@.skip(i as int)[0] == other@[i as int]);
                }
                if x < y {
                    return Placement::Before;
                } else {
                    return Placement::After;
                }
            }
            proof {
                card_rank_is_injective(self@[i as int], other@[i as int]);
            }
            i += 1;
        }
        proof {
            stack_precedes_above_common_prefix(self@, other@, i as int);
            stack_precedes_above_common_prefix(other@, self@, i as int);
        }
        if n == m {
            assert(self@ =~= other@);
            Placement::Same
        } else if n < m {
            Placement::Before
        } else {
            Placement::After
        }
    }

    fn duplicate(&self) -> (r: Self) {
        self.clone()
    }
}

/// The three holding slots, as a multiset: which slot holds what does not
/// matter.
#[derive(Debug, PartialOrd, Ord, Hash, PartialEq, Eq)]
pub struct PlaceHolders {
    pub holes: BTreeMultiSet<PlaceHolder>,
}

impl Clone for PlaceHolders {
    fn clone(&self) -> (r: Self)
        ensures
            r.holes@ == self.holes@,
    {
        PlaceHolders { holes: self.holes.clone() }
    }
}

impl Default for PlaceHolders {
    fn default() -> (r: Self)
        ensures
            r.holes@ == empty_holes(),
    {
        let mut holes = BTreeMultiSet::new();
        holes.insert(PlaceHolder(None));
        holes.insert(PlaceHolder(None));
        holes.insert(PlaceHolder(None));
        PlaceHolders { holes }
    }
}

/// Three empty holding slots.
pub open spec fn empty_holes() -> Multiset<PlaceHolder> {
    Multiset::empty().insert(PlaceHolder(None)).insert(PlaceHolder(None)).insert(PlaceHolder(None))
}

/// A snapshot of the game: the holding slots, the output tally and the
/// stacks on the board.
#[derive(Debug, Hash, PartialEq, Eq)]
pub struct State {
    pub placeholders: PlaceHolders,
    pub output: Output,
    pub board: BTreeMultiSet<CardStack>,
}

/// What a snapshot holds, whatever the arrangement of its stacks and slots.
#[verifier::ext_equal]
pub ghost struct StateView {
    pub holes: Multiset<PlaceHolder>,
    pub output: Seq<nat>,
    pub board: Multiset<Seq<Card>>,
}

impl View for State {
    type V = StateView;

    open spec fn view(&self) -> StateView {
        StateView { holes: self.placeholders.holes@, output: self.output@, board: self.board@ }
    }
}

impl State {
    /// Whether two snapshots hold the same: the same stacks and the same
    /// slots, each as often, and the same output piles.
    pub fn same_as(&self, other: &State) -> (r: bool)
        ensures
            r == (self@ == other@),
    {
        let same_output = self.output.by_color[0].0 == other.output.by_color[0].0
            && self.output.by_color[1].0 == other.output.by_color[1].0 && self.output.by_color[2].0
            == other.output.by_color[2].0;
        proof {
            if same_output {
                assert(self.output@ =~= other.output@);
            } else {
                assert(self.output@[0] == self.output.by_color@[0].0);
                assert(self.output@[1] == self.output.by_color@[1].0);
                assert(self.output@[2] == self.output.by_color@[2].0);
                assert(other.output@[0] == other.output.by_color@[0].0);
                assert(other.output@[1] == other.output.by_color@[1].0);
                assert(other.output@[2] == other.output.by_color@[2].0);
            }
        }
        same_output && self.board.same_as(&other.board) && self.placeholders.holes.same_as(
            &other.placeholders.holes,
        )
    }
}

impl Clone for State {
    fn clone(&self) -> (r: Self)
        ensures
            r@ == self@,
    {
        State {
            placeholders: self.placeholders.clone(),
            output: self.output,
            board: self.board.clone(),
        }
    }
}

} // verus!
