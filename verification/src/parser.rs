//! Reading numbers, cards, stacks and boards from text.

use crate::denormalized::{DenormalizedState, PlaceHolders};
use crate::state::{Beast, Card, CardColor, CardNumber, CardStack, NormalCard, Output};
use vstd::prelude::*;
use vstd::slice::slice_subrange;
use vstd::string::StringSliceAdditionalSpecFns;

verus! {

/// Why a text is not what it should be.
#[derive(Debug, Clone, Copy, PartialEq, Eq, Structural)]
pub enum ParseError {
    /// The text is not a number, or the number is too large.
    InvalidNumber,
    /// The text is not the letter of a suit.
    InvalidCardColor,
    /// The text is not the rank of a card.
    InvalidCardNumber,
    /// The text is neither the letter of a pirate or a beast nor a rank and a
    /// suit.
    InvalidCard,
    /// The line holds fewer cards than a stack has.
    StackSize,
    /// There are fewer lines than the board has stacks.
    NotEnoughStacks,
}

/// The number of stacks of a board, and of cards in each when it is dealt.
pub const STACKS: usize = 6;

/// Whether a byte is a decimal digit.
pub open spec fn is_digit(byte: u8) -> bool {
    48 <= byte <= 57
}

/// The number that decimal digits stand for.
pub open spec fn decimal_value(digits: Seq<u8>) -> nat
    decreases digits.len(),
{
    if digits.len() == 0 {
        0
    } else {
        decimal_value(digits.drop_last()) * 10 + (digits.last() - 48) as nat
    }
}

/// The digits of a number: the text without a plus sign in front.
pub open spec fn digits_of(text: Seq<u8>) -> Seq<u8> {
    if text.len() > 0 && text[0] == 43 {
        text.skip(1)
    } else {
        text
    }
}

/// The text is a number: at least one decimal digit, after at most one plus
/// sign.
pub open spec fn is_number(text: Seq<u8>) -> bool {
    &&& digits_of(text).len() > 0
    &&& forall|i: int| 0 <= i < digits_of(text).len() ==> is_digit(#[trigger] digits_of(text)[i])
}

/// What a text reads as, as a number up to `limit`.
pub open spec fn number_read(text: Seq<u8>, limit: u64) -> Option<u64> {
    if is_number(text) && decimal_value(digits_of(text)) <= limit {
        Some(decimal_value(digits_of(text)) as u64)
    } else {
        None
    }
}

/// More digits do not make a number smaller.
pub proof fn lemma_decimal_value_grows(digits: Seq<u8>, upto: int)
    requires
        0 <= upto <= digits.len(),
        forall|i: int| 0 <= i < digits.len() ==> is_digit(#[trigger] digits[i]),
    ensures
        decimal_value(digits.take(upto)) <= decimal_value(digits),
    decreases digits.len() - upto,
{
    if upto < digits.len() {
        lemma_decimal_value_grows(digits, upto + 1);
        assert(digits.take(upto + 1).drop_last() =~= digits.take(upto));
        assert(digits.take(upto + 1).last() == digits[upto]);
    } else {
        assert(digits.take(upto) =~= digits);
    }
}

/// Reads a number up to `limit`: decimal digits, after at most one plus
/// sign.
pub fn parse_number(text: &[u8], limit: u64) -> (r: Option<u64>)
    ensures
        r == number_read(text@, limit),
{
    let start: usize = if text.len() > 0 && text[0] == 43 {
        1
    } else {
        0
    };
    let ghost digits = digits_of(text@);
    proof {
        assert(digits =~= text@.skip(start as int));
    }
    if start == text.len() {
        return None;
    }
    let mut value: u64 = 0;
    let mut i: usize = start;
    proof {
        assert(digits.take(0) =~= Seq::<u8>::empty());
    }
    while i < text.len()
        invariant
            start <= i <= text.len(),
            start < text.len(),
            digits == text@.skip(start as int),
            digits == digits_of(text@),
            forall|k: int| 0 <= k < i - start ==> is_digit(#[trigger] digits[k]),
            value == decimal_value(digits.take(i - start)),
            value <= limit,
        decreases text.len() - i,
    {
        let byte = text[i];
        proof {
            assert(digits[i - start] == byte);
            assert(digits.take(i - start + 1).drop_last() =~= digits.take(i - start));
            assert(digits.take(i - start + 1).last() == byte);
        }
        if byte < 48 || byte > 57 {
            return None;
        }
        let digit: u64 = (byte - 48) as u64;
        if limit < digit || value > (limit - digit) / 10 {
            proof {
                if is_number(text@) {
                    lemma_decimal_value_grows(digits, i - start + 1);
                }
            }
            return None;
        }
        value = value * 10 + digit;
        i += 1;
    }
    proof {
        assert(digits.take(i - start) =~= digits);
    }
    Some(value)
}

/// A capital letter as its small letter; any other byte as it is.
pub open spec fn lower(byte: u8) -> u8 {
    if 65 <= byte <= 90 {
        (byte + 32) as u8
    } else {
        byte
    }
}

fn lowered(byte: u8) -> (r: u8)
    ensures
        r == lower(byte),
{
    if 65 <= byte && byte <= 90 {
        byte + 32
    } else {
        byte
    }
}

/// What a text reads as, as a suit: `t`, `r` or `b`, small or capital.
pub open spec fn color_read(text: Seq<u8>) -> Result<CardColor, ParseError> {
    if text.len() == 1 && lower(text[0]) == 116 {
        Ok(CardColor::Teal)
    } else if text.len() == 1 && lower(text[0]) == 114 {
        Ok(CardColor::Red)
    } else if text.len() == 1 && lower(text[0]) == 98 {
        Ok(CardColor::Blue)
    } else {
        Err(ParseError::InvalidCardColor)
    }
}

/// What a text reads as, as a rank: a number up to 255.
pub open spec fn rank_read(text: Seq<u8>) -> Result<CardNumber, ParseError> {
    match number_read(text, 255) {
        Some(number) => Ok(CardNumber(number as u8)),
        None => Err(ParseError::InvalidCardNumber),
    }
}

/// What a text reads as, as a card: `p` for a pirate; `w`, `s` and `t` for
/// the whale, the ship and the tentacle; or a digit and the letter of a
/// suit for a normal card. Letters may be small or capital.
pub open spec fn card_read(text: Seq<u8>) -> Result<Card, ParseError> {
    if text.len() == 1 && lower(text[0]) == 112 {
        Ok(Card::Pirate)
    } else if text.len() == 1 && lower(text[0]) == 119 {
        Ok(Card::Beast(Beast::Whale))
    } else if text.len() == 1 && lower(text[0]) == 115 {
        Ok(Card::Beast(Beast::Ship))
    } else if text.len() == 1 && lower(text[0]) == 116 {
        Ok(Card::Beast(Beast::Tentacle))
    } else if text.len() != 2 {
        Err(ParseError::InvalidCard)
    } else {
        match rank_read(text.subrange(0, 1)) {
            Err(e) => Err(e),
            Ok(number) => match color_read(text.subrange(1, 2)) {
                Err(e) => Err(e),
                Ok(color) => Ok(Card::Normal(NormalCard { number, color })),
            },
        }
    }
}

/// Where the word that begins at `start` ends: at the next blank, or at
/// the end of the text.
pub open spec fn word_end(text: Seq<u8>, start: int) -> int
    decreases text.len() - start,
{
    if start >= text.len() || text[start] == 32 {
        start
    } else {
        word_end(text, start + 1)
    }
}

/// What the text from `start` on reads as, as `count` cards: words with one
/// blank between them, each a card. Words after these are not read.
pub open spec fn cards_read(text: Seq<u8>, start: int, count: nat) -> Result<Seq<Card>, ParseError>
    decreases count,
{
    if count == 0 {
        Ok(Seq::empty())
    } else if start > text.len() {
        Err(ParseError::StackSize)
    } else {
        let end = word_end(text, start);
        match card_read(text.subrange(start, end)) {
            Err(e) => Err(e),
            Ok(card) => match cards_read(text, end + 1, (count - 1) as nat) {
                Err(e) => Err(e),
                Ok(rest) => Ok(seq![card] + rest),
            },
        }
    }
}

/// What a line reads as, as a stack: six cards, bottom first.
pub open spec fn stack_read(text: Seq<u8>) -> Result<Seq<Card>, ParseError> {
    cards_read(text, 0, 6)
}

/// What the lines from `start` on read as, as `count` stacks. Lines after
/// these are not read.
pub open spec fn stacks_read(lines: Seq<Seq<u8>>, start: int, count: nat) -> Result<
    Seq<Seq<Card>>,
    ParseError,
>
    decreases count,
{
    if count == 0 {
        Ok(Seq::empty())
    } else if start >= lines.len() {
        Err(ParseError::NotEnoughStacks)
    } else {
        match stack_read(lines[start]) {
            Err(e) => Err(e),
            Ok(stack) => match stacks_read(lines, start + 1, (count - 1) as nat) {
                Err(e) => Err(e),
                Ok(rest) => Ok(seq![stack] + rest),
            },
        }
    }
}

/// The bytes of each line.
pub open spec fn line_bytes(lines: Seq<String>) -> Seq<Seq<u8>> {
    Seq::new(lines.len(), |i: int| vstd::utf8::encode_utf8(lines[i]@))
}

/// A word ends at or after its start, within the text, at a blank or at the
/// end of the text, and holds no blank.
pub proof fn words_hold_no_blank(text: Seq<u8>, start: int)
    requires
        0 <= start <= text.len(),
    ensures
        start <= word_end(text, start) <= text.len(),
        word_end(text, start) < text.len() ==> text[word_end(text, start)] == 32,
        forall|i: int| start <= i < word_end(text, start) ==> text[i] != 32,
    decreases text.len() - start,
{
    if start < text.len() && text[start] != 32 {
        words_hold_no_blank(text, start + 1);
    }
}

/// Reads a suit.
pub fn parse_color(text: &[u8]) -> (r: Result<CardColor, ParseError>)
    ensures
        r == color_read(text@),
{
    if text.len() != 1 {
        return Err(ParseError::InvalidCardColor);
    }
    let letter = lowered(text[0]);
    if letter == 116 {
        Ok(CardColor::Teal)
    } else if letter == 114 {
        Ok(CardColor::Red)
    } else if letter == 98 {
        Ok(CardColor::Blue)
    } else {
        Err(ParseError::InvalidCardColor)
    }
}

/// Reads a rank.
pub fn parse_rank(text: &[u8]) -> (r: Result<CardNumber, ParseError>)
    ensures
        r == rank_read(text@),
{
    match parse_number(text, 255) {
        Some(number) => Ok(CardNumber(number as u8)),
        None => Err(ParseError::InvalidCardNumber),
    }
}

/// Reads a card.
pub fn parse_card(text: &[u8]) -> (r: Result<Card, ParseError>)
    ensures
        r == card_read(text@),
{
    if text.len() == 1 {
        let letter = lowered(text[0]);
        if letter == 112 {
            return Ok(Card::Pirate);
        } else if letter == 119 {
            return Ok(Card::Beast(Beast::Whale));
        } else if letter == 115 {
            return Ok(Card::Beast(Beast::Ship));
        } else if letter == 116 {
            return Ok(Card::Beast(Beast::Tentacle));
        }
    }
    if text.len() != 2 {
        return Err(ParseError::InvalidCard);
    }
    let number = match parse_rank(slice_subrange(text, 0, 1)) {
        Ok(number) => number,
        Err(e) => {
            return Err(e);
        },
    };
    let color = match parse_color(slice_subrange(text, 1, 2)) {
        Ok(color) => color,
        Err(e) => {
            return Err(e);
        },
    };
    Ok(Card::Normal(NormalCard { number, color }))
}

fn find_word_end(text: &[u8], start: usize) -> (end: usize)
    requires
        start <= text.len(),
    ensures
        end == word_end(text@, start as int),
        start <= end <= text.len(),
{
    let mut end = start;
    while end < text.len() && text[end] != 32
        invariant
            start <= end <= text.len(),
            word_end(text@, start as int) == word_end(text@, end as int),
        decreases text.len() - end,
    {
        end += 1;
    }
    end
}

/// Reads a stack: the first six words of a line, each a card, bottom
/// first.
pub fn parse_stack(text: &[u8]) -> (r: Result<CardStack, ParseError>)
    ensures
        match r {
            Ok(stack) => stack_read(text@) == Ok::<Seq<Card>, ParseError>(stack@),
            Err(e) => stack_read(text@) == Err::<Seq<Card>, ParseError>(e),
        },
{
    let mut cards: Vec<Card> = Vec::new();
    let mut start: usize = 0;
    let mut ended = false;
    while cards.len() < STACKS
        invariant
            cards.len() <= 6,
            start <= text.len(),
            match cards_read(text@, if ended {
                text.len() + 1
            } else {
                start as int
            }, (6 - cards.len()) as nat) {
                Ok(rest) => stack_read(text@) == Ok::<Seq<Card>, ParseError>(cards@ + rest),
                Err(e) => stack_read(text@) == Err::<Seq<Card>, ParseError>(e),
            },
        decreases 6 - cards.len(),
    {
        if ended {
            return Err(ParseError::StackSize);
        }
        let end = find_word_end(text, start);
        let card = match parse_card(slice_subrange(text, start, end)) {
            Ok(card) => card,
            Err(e) => {
                return Err(e);
            },
        };
        let ghost before = cards@;
        cards.push(card);
        proof {
            let rest = cards_read(text@, end + 1, (6 - cards.len()) as nat);
            if rest is Ok {
                assert(before + (seq![card] + rest->Ok_0) =~= cards@ + rest->Ok_0);
            }
        }
        if end < text.len() {
            start = end + 1;
        } else {
            ended = true;
        }
    }
    proof {
        assert(cards@ + Seq::<Card>::empty() =~= cards@);
    }
    Ok(CardStack { cards })
}

/// Reads a board: the first six lines, each a stack, with no card output
/// and three empty slots.
pub fn read_from(lines: &Vec<String>) -> (r: Result<DenormalizedState, ParseError>)
    ensures
        match r {
            Ok(state) => {
                &&& stacks_read(line_bytes(lines@), 0, 6) == Ok::<Seq<Seq<Card>>, ParseError>(
                    crate::collection::views(state.board@),
                )
                &&& state.output@ == seq![0nat, 0nat, 0nat]
                &&& state.placeholders.holes@ == seq![
                    crate::state::PlaceHolder(None),
                    crate::state::PlaceHolder(None),
                    crate::state::PlaceHolder(None),
                ]
            },
            Err(e) => stacks_read(line_bytes(lines@), 0, 6) == Err::<Seq<Seq<Card>>, ParseError>(e),
        },
{
    let mut board: Vec<CardStack> = Vec::new();
    let ghost texts = line_bytes(lines@);
    while board.len() < STACKS
        invariant
            board.len() <= 6,
            texts == line_bytes(lines@),
            match stacks_read(texts, board.len() as int, (6 - board.len()) as nat) {
                Ok(rest) => stacks_read(texts, 0, 6) == Ok::<Seq<Seq<Card>>, ParseError>(
                    crate::collection::views(board@) + rest,
                ),
                Err(e) => stacks_read(texts, 0, 6) == Err::<Seq<Seq<Card>>, ParseError>(e),
            },
        decreases 6 - board.len(),
    {
        let at = board.len();
        if at >= lines.len() {
            return Err(ParseError::NotEnoughStacks);
        }
        let stack = match parse_stack(lines[at].as_str().as_bytes()) {
            Ok(stack) => stack,
            Err(e) => {
                return Err(e);
            },
        };
        let ghost before = crate::collection::views(board@);
        let ghost shown = stack@;
        board.push(stack);
        proof {
            let rest = stacks_read(texts, board.len() as int, (6 - board.len()) as nat);
            assert(crate::collection::views(board@) =~= before.push(shown));
            if rest is Ok {
                assert(before + (seq![shown] + rest->Ok_0) =~= crate::collection::views(board@)
                    + rest->Ok_0);
            }
        }
    }
    proof {
        assert(crate::collection::views(board@) + Seq::<Seq<Card>>::empty()
            =~= crate::collection::views(board@));
    }
    Ok(DenormalizedState { placeholders: PlaceHolders::default(), output: Output::default(), board })
}

impl std::str::FromStr for CardColor {
    type Err = ParseError;

    fn from_str(s: &str) -> (r: Result<CardColor, ParseError>)
        ensures
            r == color_read(s.spec_bytes()),
    {
        parse_color(s.as_bytes())
    }
}

impl std::str::FromStr for CardNumber {
    type Err = ParseError;

    fn from_str(s: &str) -> (r: Result<CardNumber, ParseError>)
        ensures
            r == rank_read(s.spec_bytes()),
    {
        parse_rank(s.as_bytes())
    }
}

impl std::str::FromStr for Card {
    type Err = ParseError;

    fn from_str(s: &str) -> (r: Result<Card, ParseError>)
        ensures
            r == card_read(s.spec_bytes()),
    {
        parse_card(s.as_bytes())
    }
}

impl std::str::FromStr for CardStack {
    type Err = ParseError;

    fn from_str(s: &str) -> (r: Result<CardStack, ParseError>)
        ensures
            match r {
                Ok(stack) => stack_read(s.spec_bytes()) == Ok::<Seq<Card>, ParseError>(stack@),
                Err(e) => stack_read(s.spec_bytes()) == Err::<Seq<Card>, ParseError>(e),
            },
    {
        parse_stack(s.as_bytes())
    }
}

} // verus!
