//! Coloured text for a terminal: a grid of coloured characters and the text
//! with colour sequences that shows it.

use vstd::prelude::*;
use vstd::string::StringExecFns;

verus! {

/// A colour sequence: one that sets a colour, or the one that resets.
pub enum AnsiSequence {
    Color(Color),
    Reset,
}

/// The colours of the cards.
#[derive(Debug, Clone, Copy, PartialEq, Eq, Structural)]
pub enum Color {
    Red,
    Blue,
    Cyan,
    White,
}

/// A grid of coloured characters, line by line.
pub struct Matrix {
    pub arr: Vec<Vec<(Color, char)>>,
}

impl View for Matrix {
    type V = Seq<Seq<(Color, char)>>;

    /// The lines of the grid.
    open spec fn view(&self) -> Seq<Seq<(Color, char)>> {
        Seq::new(self.arr@.len(), |y: int| self.arr@[y]@)
    }
}

/// `String::push` of the standard library: appends one character to the
/// text.
pub assume_specification[ String::push ](text: &mut String, ch: char)
    ensures
        final(text)@ == old(text)@.push(ch),
;

/// The sequence that sets a colour.
pub open spec fn color_text(color: Color) -> Seq<char> {
    match color {
        Color::Red => "\x1b[0;31m"@,
        Color::Blue => "\x1b[0;34m"@,
        Color::Cyan => "\x1b[0;36m"@,
        Color::White => "\x1b[0;37m"@,
    }
}

/// The sequence that resets.
pub open spec fn reset_text() -> Seq<char> {
    "\x1b[0m"@
}

/// The colour in which the text stands after a line: that of the last
/// character of the line, or the one before the line if the line is empty.
pub open spec fn color_after_line(before: Option<Color>, line: Seq<(Color, char)>) -> Option<Color> {
    if line.len() == 0 {
        before
    } else {
        Some(line.last().0)
    }
}

/// The colour in which the text stands after some lines.
pub open spec fn color_after(before: Option<Color>, lines: Seq<Seq<(Color, char)>>) -> Option<Color>
    decreases lines.len(),
{
    if lines.len() == 0 {
        before
    } else {
        color_after_line(color_after(before, lines.drop_last()), lines.last())
    }
}

/// The text of one character: where its colour is not the one in which the
/// text stands, the reset and the colour come first.
pub open spec fn cell_text(before: Option<Color>, cell: (Color, char)) -> Seq<char> {
    if before != Some(cell.0) {
        (reset_text() + color_text(cell.0)).push(cell.1)
    } else {
        seq![cell.1]
    }
}

/// The text of the characters of a line.
pub open spec fn line_text(before: Option<Color>, line: Seq<(Color, char)>) -> Seq<char>
    decreases line.len(),
{
    if line.len() == 0 {
        Seq::empty()
    } else {
        line_text(before, line.drop_last()) + cell_text(
            color_after_line(before, line.drop_last()),
            line.last(),
        )
    }
}

/// The text of some lines: each line, and a line feed after it.
pub open spec fn lines_text(before: Option<Color>, lines: Seq<Seq<(Color, char)>>) -> Seq<char>
    decreases lines.len(),
{
    if lines.len() == 0 {
        Seq::empty()
    } else {
        lines_text(before, lines.drop_last()) + line_text(
            color_after(before, lines.drop_last()),
            lines.last(),
        ).push('\n')
    }
}

impl Color {
    /// The number of the colour in its sequence.
    pub fn code(&self) -> (r: u8)
        ensures
            r == match *self {
                Color::Red => 31u8,
                Color::Blue => 34u8,
                Color::Cyan => 36u8,
                Color::White => 37u8,
            },
    {
        match self {
            Color::Red => 31,
            Color::Blue => 34,
            Color::Cyan => 36,
            Color::White => 37,
        }
    }

    /// The sequence that sets the colour.
    pub fn sequence(&self) -> (r: &'static str)
        ensures
            r@ == color_text(*self),
    {
        match self {
            Color::Red => "\x1b[0;31m",
            Color::Blue => "\x1b[0;34m",
            Color::Cyan => "\x1b[0;36m",
            Color::White => "\x1b[0;37m",
        }
    }
}

impl AnsiSequence {
    /// The text of the sequence.
    pub fn sequence(&self) -> (r: &'static str)
        ensures
            r@ == match *self {
                AnsiSequence::Color(color) => color_text(color),
                AnsiSequence::Reset => reset_text(),
            },
    {
        match self {
            AnsiSequence::Color(color) => color.sequence(),
            AnsiSequence::Reset => "\x1b[0m",
        }
    }
}

impl Matrix {
    /// A grid of `h` lines of `w` blanks, all white.
    pub fn with_size(h: usize, w: usize) -> (r: Self)
        ensures
            r@ == Seq::new(h as nat, |y: int| Seq::new(w as nat, |x: int| (Color::White, ' '))),
    {
        let mut arr: Vec<Vec<(Color, char)>> = Vec::new();
        while arr.len() < h
            invariant
                arr.len() <= h,
                forall|y: int| 0 <= y < arr.len() ==> (#[trigger] arr[y]).len() == w,
                forall|y: int, x: int|
                    0 <= y < arr.len() && 0 <= x < w ==> arr[y][x] == (Color::White, ' '),
            decreases h - arr.len(),
        {
            let mut line: Vec<(Color, char)> = Vec::new();
            while line.len() < w
                invariant
                    line.len() <= w,
                    forall|x: int| 0 <= x < line.len() ==> line[x] == (Color::White, ' '),
                decreases w - line.len(),
            {
                line.push((Color::White, ' '));
            }
            arr.push(line);
        }
        let r = Matrix { arr };
        proof {
            let blank = Seq::new(
                h as nat,
                |y: int| Seq::new(w as nat, |x: int| (Color::White, ' ')),
            );
            assert(r@.len() == blank.len());
            assert forall|y: int| 0 <= y < h implies r@[y] == blank[y] by {
                assert(r@[y] =~= blank[y]);
            }
            assert(r@ =~= blank);
        }
        r
    }

    /// The text that shows the grid: the lines, each with a line feed after
    /// it; before each character whose colour is not that of the character
    /// before it, the reset and the sequence of its colour.
    pub fn to_text(&self) -> (r: String)
        ensures
            r@ == lines_text(None, self@),
    {
        let mut text = String::new();
        let mut prev_color: Option<Color> = None;
        let mut y: usize = 0;
        while y < self.arr.len()
            invariant
                y <= self.arr.len(),
                text@ == lines_text(None, self@.take(y as int)),
                prev_color == color_after(None, self@.take(y as int)),
            decreases self.arr.len() - y,
        {
            let line = &self.arr[y];
            let ghost start = text@;
            let ghost before = prev_color;
            let mut x: usize = 0;
            while x < line.len()
                invariant
                    x <= line.len(),
                    text@ == start + line_text(before, line@.take(x as int)),
                    prev_color == color_after_line(before, line@.take(x as int)),
                decreases line.len() - x,
            {
                let cell = line[x];
                let ghost so_far = text@;
                proof {
                    assert(line@.take(x + 1).drop_last() =~= line@.take(x as int));
                    assert(line@.take(x + 1).last() == cell);
                }
                let changed = match prev_color {
                    None => true,
                    Some(prev) => prev != cell.0,
                };
                if changed {
                    text.append(AnsiSequence::Reset.sequence());
                    text.append(cell.0.sequence());
                }
                text.push(cell.1);
                prev_color = Some(cell.0);
                proof {
                    assert(text@ =~= so_far + cell_text(
                        color_after_line(before, line@.take(x as int)),
                        cell,
                    ));
                    assert(text@ =~= start + line_text(before, line@.take(x + 1)));
                }
                x += 1;
            }
            text.push('\n');
            proof {
                assert(line@.take(x as int) =~= line@);
                assert(self@.take(y + 1).drop_last() =~= self@.take(y as int));
                assert(self@.take(y + 1).last() == line@);
                assert(text@ =~= lines_text(None, self@.take(y + 1)));
            }
            y += 1;
        }
        proof {
            assert(self@.take(y as int) =~= self@);
        }
        text
    }
}

} // verus!
