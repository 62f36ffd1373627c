//! The picture of a board: the slots and the output piles in one line, the
//! stacks below them, each card as two coloured characters.

use crate::ansi::{lines_text, Color, Matrix};
use crate::denormalized::DenormalizedState;
use crate::state::{
    color_index, Beast, Card, CardColor, CardNumber, CardOrBundle, CardStack, NormalCard,
};
use vstd::prelude::*;

verus! {

/// The width of the picture: six columns of two characters, with a blank
/// before each and one after the last.
pub const WIDTH: usize = 19;

/// The first digit of a number written in decimal.
pub open spec fn first_digit(num: u8) -> char {
    let digit = if num >= 100 {
        num / 100
    } else if num >= 10 {
        num / 10
    } else {
        num
    };
    digit_char(digit)
}

/// The character of a digit.
pub open spec fn digit_char(digit: u8) -> char {
    if digit == 0 {
        '0'
    } else if digit == 1 {
        '1'
    } else if digit == 2 {
        '2'
    } else if digit == 3 {
        '3'
    } else if digit == 4 {
        '4'
    } else if digit == 5 {
        '5'
    } else if digit == 6 {
        '6'
    } else if digit == 7 {
        '7'
    } else if digit == 8 {
        '8'
    } else {
        '9'
    }
}

/// The first digit of a number written in decimal.
pub fn u8_to_digit(num: u8) -> (r: char)
    ensures
        r == first_digit(num),
{
    let digit = if num >= 100 {
        num / 100
    } else if num >= 10 {
        num / 10
    } else {
        num
    };
    match digit {
        0 => '0',
        1 => '1',
        2 => '2',
        3 => '3',
        4 => '4',
        5 => '5',
        6 => '6',
        7 => '7',
        8 => '8',
        _ => '9',
    }
}

/// The colour and the two characters of a card: a blank and a letter for a
/// pirate or a beast, in white; the first digit of the rank and the letter
/// of the suit for a normal card, in the colour of the suit.
pub open spec fn card_picture(card: Card) -> (Color, char, char) {
    match card {
        Card::Pirate => (Color::White, ' ', 'p'),
        Card::Beast(Beast::Whale) => (Color::White, ' ', 'w'),
        Card::Beast(Beast::Tentacle) => (Color::White, ' ', 't'),
        Card::Beast(Beast::Ship) => (Color::White, ' ', 's'),
        Card::Normal(n) => match n.color {
            CardColor::Red => (Color::Red, first_digit(n.number.0), 'r'),
            CardColor::Teal => (Color::Cyan, first_digit(n.number.0), 't'),
            CardColor::Blue => (Color::Blue, first_digit(n.number.0), 'b'),
        },
    }
}

/// The colour and the two characters of what a slot holds: those of its
/// card, or two hashes in white for a bundle.
pub open spec fn content_picture(content: CardOrBundle) -> (Color, char, char) {
    match content {
        CardOrBundle::Card(card) => card_picture(card),
        CardOrBundle::BeastBundle(_) => (Color::White, '#', '#'),
    }
}

/// One of the two coloured characters of a picture.
pub open spec fn part_of(picture: (Color, char, char), part: int) -> (Color, char) {
    if part == 0 {
        (picture.0, picture.1)
    } else {
        (picture.0, picture.2)
    }
}

/// The suit of the output pile that is shown in the given place: blue, red,
/// teal.
pub open spec fn pile_suit(place: int) -> CardColor {
    if place == 0 {
        CardColor::Blue
    } else if place == 1 {
        CardColor::Red
    } else {
        CardColor::Teal
    }
}

/// The height of the highest of some stacks.
pub open spec fn max_height(stacks: Seq<CardStack>) -> nat
    decreases stacks.len(),
{
    if stacks.len() == 0 {
        0
    } else {
        let rest = max_height(stacks.drop_last());
        if stacks.last()@.len() > rest {
            stacks.last()@.len()
        } else {
            rest
        }
    }
}

impl DenormalizedState {
    /// The number of lines of the picture: two for each card of the highest
    /// stack, and four above them.
    pub open spec fn picture_height(&self) -> nat {
        max_height(self.board@) * 2 + 4
    }

    /// The coloured character at line `y` and column `x` of the picture.
    /// Each column of the board takes two characters, after a blank. Line 1
    /// shows what the slots hold and, in the three columns after the third,
    /// the top cards of the output piles that are not empty. From line 4
    /// on, every second line shows one card of each stack, bottom first.
    /// Every other character is a white blank.
    pub open spec fn shown_cell(&self, y: int, x: int) -> (Color, char) {
        let column = (x - 1) / 3;
        let part = (x - 1) % 3;
        if x < 1 || part == 2 {
            (Color::White, ' ')
        } else if y == 1 {
            if 3 <= column < 6 && self.output@[color_index(pile_suit(column - 3))] > 0 {
                part_of(
                    card_picture(
                        Card::Normal(
                            NormalCard {
                                number: CardNumber(
                                    self.output@[color_index(pile_suit(column - 3))] as u8,
                                ),
                                color: pile_suit(column - 3),
                            },
                        ),
                    ),
                    part,
                )
            } else if column < self.placeholders.holes.len() && self.placeholders.holes[column].0
                is Some {
                part_of(content_picture(self.placeholders.holes[column].0.unwrap()), part)
            } else {
                (Color::White, ' ')
            }
        } else if y >= 4 && (y - 4) % 2 == 0 && column < self.board.len() && (y - 4) / 2
            < self.board[column]@.len() {
            part_of(card_picture(self.board[column]@[(y - 4) / 2]), part)
        } else {
            (Color::White, ' ')
        }
    }

    /// The picture of the board: its lines, each of `WIDTH` coloured
    /// characters.
    pub open spec fn picture(&self) -> Seq<Seq<(Color, char)>> {
        Seq::new(
            self.picture_height(),
            |y: int| Seq::new(WIDTH as nat, |x: int| self.shown_cell(y, x)),
        )
    }

    fn highest_stack(&self) -> (r: usize)
        ensures
            r == max_height(self.board@),
    {
        let mut highest: usize = 0;
        let mut i: usize = 0;
        while i < self.board.len()
            invariant
                i <= self.board.len(),
                highest == max_height(self.board@.take(i as int)),
            decreases self.board.len() - i,
        {
            proof {
                assert(self.board@.take(i + 1).drop_last() =~= self.board@.take(i as int));
                assert(self.board@.take(i + 1).last() == self.board@[i as int]);
            }
            if self.board[i].cards.len() > highest {
                highest = self.board[i].cards.len();
            }
            i += 1;
        }
        proof {
            assert(self.board@.take(i as int) =~= self.board@);
        }
        highest
    }

    fn cell(&self, y: usize, x: usize) -> (r: (Color, char))
        ensures
            r == self.shown_cell(y as int, x as int),
    {
        let blank = (Color::White, ' ');
        if x < 1 || (x - 1) % 3 == 2 {
            return blank;
        }
        let column = (x - 1) / 3;
        let second = (x - 1) % 3 == 1;
        if y == 1 {
            if 3 <= column && column < 6 {
                let color = match column {
                    3 => CardColor::Blue,
                    4 => CardColor::Red,
                    _ => CardColor::Teal,
                };
                let highest_number = self.output.tally(&color);
                if highest_number.0 > 0 {
                    let (tint, chars) = Card::Normal(NormalCard { color, number: highest_number })
                        .as_chars();
                    return if second {
                        (tint, chars[1])
                    } else {
                        (tint, chars[0])
                    };
                }
            }
            if column < self.placeholders.holes.len() {
                if let Some(content) = self.placeholders.holes[column].0 {
                    let (tint, chars) = match content {
                        CardOrBundle::Card(card) => card.as_chars(),
                        CardOrBundle::BeastBundle(_beast) => (Color::White, ['#', '#']),
                    };
                    return if second {
                        (tint, chars[1])
                    } else {
                        (tint, chars[0])
                    };
                }
            }
            blank
        } else if y >= 4 && (y - 4) % 2 == 0 && column < self.board.len() && (y - 4) / 2
            < self.board[column].cards.len() {
            let (tint, chars) = self.board[column].cards[(y - 4) / 2].as_chars();
            if second {
                (tint, chars[1])
            } else {
                (tint, chars[0])
            }
        } else {
            blank
        }
    }

    /// The picture of the board, as a grid of coloured characters.
    pub fn to_matrix(&self) -> (r: Matrix)
        requires
            self.picture_height() <= usize::MAX,
        ensures
            r@ == self.picture(),
    {
        let height = self.highest_stack() * 2 + 4;
        let mut arr: Vec<Vec<(Color, char)>> = Vec::new();
        while arr.len() < height
            invariant
                arr.len() <= height,
                forall|y: int| 0 <= y < arr.len() ==> (#[trigger] arr[y]).len() == WIDTH,
                forall|y: int, x: int|
                    0 <= y < arr.len() && 0 <= x < WIDTH ==> arr[y][x] == self.shown_cell(y, x),
            decreases height - arr.len(),
        {
            let y = arr.len();
            let mut line: Vec<(Color, char)> = Vec::new();
            while line.len() < WIDTH
                invariant
                    line.len() <= WIDTH,
                    forall|x: int| 0 <= x < line.len() ==> line[x] == self.shown_cell(y as int, x),
                decreases WIDTH - line.len(),
            {
                let x = line.len();
                line.push(self.cell(y, x));
            }
            arr.push(line);
        }
        let r = Matrix { arr };
        proof {
            assert(r@.len() == self.picture().len());
            assert forall|y: int| 0 <= y < r@.len() implies r@[y] == self.picture()[y] by {
                assert(r@[y] =~= self.picture()[y]);
            }
            assert(r@ =~= self.picture());
        }
        r
    }

    /// The picture of the board, as text with colour sequences.
    pub fn to_text(&self) -> (r: String)
        requires
            self.picture_height() <= usize::MAX,
        ensures
            r@ == lines_text(None, self.picture()),
    {
        let picture = self.to_matrix();
        picture.to_text()
    }
}

impl Card {
    /// The colour and the two characters of the card.
    pub fn as_chars(&self) -> (r: (Color, [char; 2]))
        ensures
            r.0 == card_picture(*self).0,
            r.1@ == seq![card_picture(*self).1, card_picture(*self).2],
    {
        let r = match self {
            Card::Pirate => (Color::White, [' ', 'p']),
            Card::Beast(beast) => (
                Color::White,
                [
                    ' ',
                    match beast {
                        Beast::Whale => 'w',
                        Beast::Tentacle => 't',
                        Beast::Ship => 's',
                    },
                ],
            ),
            Card::Normal(normal_card) => (
                match normal_card.color {
                    CardColor::Red => Color::Red,
                    CardColor::Teal => Color::Cyan,
                    CardColor::Blue => Color::Blue,
                },
                [
                    u8_to_digit(normal_card.number.0),
                    match normal_card.color {
                        CardColor::Red => 'r',
                        CardColor::Teal => 't',
                        CardColor::Blue => 'b',
                    },
                ],
            ),
        };
        proof {
            assert(r.1@ =~= seq![card_picture(*self).1, card_picture(*self).2]);
        }
        r
    }
}

} // verus!
