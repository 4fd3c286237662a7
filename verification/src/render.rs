//! The text of a frame: a window of the grid drawn row by row, and the line
//! that tells the generation.

use crate::grid::SquareGrid;
use vstd::prelude::*;
use vstd::string::StringExecFns;

verus! {

/// The glyph that stands for the cell `(x, y)`.
pub open spec fn glyph(alive: Set<(i128, i128)>, x: int, y: int, piece: char, empty: char) -> char {
    if alive.contains((x as i128, y as i128)) {
        piece
    } else {
        empty
    }
}

/// The row `y` of a window `width` cells wide: one glyph for each cell from
/// `(0, y)` to `(width - 1, y)`, then a line feed.
pub open spec fn render_row(
    alive: Set<(i128, i128)>,
    width: int,
    y: int,
    piece: char,
    empty: char,
) -> Seq<char> {
    Seq::new(
        if width > 0 {
            width as nat
        } else {
            0
        },
        |x: int| glyph(alive, x, y, piece, empty),
    ).push('\n')
}

/// The window with its corner at `(0, 0)`, `width` cells wide and `height`
/// cells high: the rows from `0` to `height - 1`, one after the other.
pub open spec fn render(
    alive: Set<(i128, i128)>,
    width: int,
    height: int,
    piece: char,
    empty: char,
) -> Seq<char>
    decreases height,
{
    if height <= 0 {
        Seq::empty()
    } else {
        render(alive, width, height - 1, piece, empty) + render_row(
            alive,
            width,
            height - 1,
            piece,
            empty,
        )
    }
}

/// The character of the decimal digit `d`.
pub open spec fn digit(d: nat) -> char {
    if d == 0 {
        '0'
    } else if d == 1 {
        '1'
    } else if d == 2 {
        '2'
    } else if d == 3 {
        '3'
    } else if d == 4 {
        '4'
    } else if d == 5 {
        '5'
    } else if d == 6 {
        '6'
    } else if d == 7 {
        '7'
    } else if d == 8 {
        '8'
    } else {
        '9'
    }
}

/// The decimal digits of `n`, the most significant first, without leading
/// zeros.
pub open spec fn decimal(n: nat) -> Seq<char>
    decreases n,
{
    if n < 10 {
        seq![digit(n)]
    } else {
        decimal(n / 10).push(digit(n % 10))
    }
}

/// The text that tells the generation: the words, the number and a line
/// feed.
pub open spec fn generation_text(generation: nat) -> Seq<char> {
    "generation: "@ + decimal(generation) + seq!['\n']
}

/// `String::push`: the character is added behind the text.
#[verifier::external_body]
fn push_char(text: &mut String, c: char)
    ensures
        final(text)@ == old(text)@.push(c),
{
    text.push(c);
}

impl SquareGrid {
    /// Draws the window `size.0` cells wide and `size.1` cells high whose
    /// corner is the cell `(0, 0)`: `piece` for an alive cell, `empty` for a
    /// dead one, each row closed by a line feed. A width or height below
    /// one gives rows without glyphs, or no rows.
    pub fn to_string(&self, size: (i128, i128), piece: char, empty: char) -> (output: String)
        ensures
            output@ == render(self@, size.0 as int, size.1 as int, piece, empty),
    {
        let (width, height) = size;
        let mut output = String::new();
        let mut y: i128 = 0;
        while y < height
            invariant
                0 <= y,
                y <= height || y == 0,
                output@ == render(self@, width as int, y as int, piece, empty),
            decreases height - y,
        {
            let ghost above = output@;
            let mut x: i128 = 0;
            while x < width
                invariant
                    0 <= x,
                    x <= width || x == 0,
                    0 <= y < height,
                    output@ == above + Seq::new(
                        x as nat,
                        |x: int| glyph(self@, x, y as int, piece, empty),
                    ),
                decreases width - x,
            {
                let alive = self.is_alive((x, y));
                push_char(
                    &mut output,
                    if alive {
                        piece
                    } else {
                        empty
                    },
                );
                x += 1;
            }
            push_char(&mut output, '\n');
            assert(output@ =~= above + render_row(self@, width as int, y as int, piece, empty));
            y += 1;
        }
        output
    }
}

/// The window that fits a terminal of `columns` by `rows` characters: the
/// last column stays free, and so do the last two rows, one of them for
/// the line that tells the generation.
pub fn viewport(columns: u16, rows: u16) -> (size: (i128, i128))
    ensures
        size.0 == columns - 1,
        size.1 == rows - 2,
{
    (columns as i128 - 1, rows as i128 - 2)
}

/// The line that tells the generation, closed by a line feed.
pub fn generation_line(generation: u64) -> (line: String)
    ensures
        line@ == generation_text(generation as nat),
{
    // The digits from the least significant up, the most significant left
    // in `rest`.
    let mut digits: Vec<char> = Vec::new();
    let mut rest = generation;
    while rest >= 10
        invariant
            decimal(generation as nat) == decimal(rest as nat) + digits@.reverse(),
        decreases rest,
    {
        let ghost before = digits@;
        digits.push(digit_char((rest % 10) as u8));
        proof {
            let low = digit((rest % 10) as nat);
            assert(digits@.reverse() =~= seq![low] + before.reverse());
            assert(decimal(rest as nat) == decimal((rest / 10) as nat).push(low));
            assert(decimal((rest / 10) as nat).push(low) + before.reverse() =~= decimal(
                (rest / 10) as nat,
            ) + (seq![low] + before.reverse()));
        }
        rest = rest / 10;
    }
    let mut line = String::from_str("generation: ");
    push_char(&mut line, digit_char(rest as u8));
    let mut i = digits.len();
    while i > 0
        invariant
            i <= digits.len(),
            rest < 10,
            line@ == "generation: "@ + seq![digit(rest as nat)] + digits@.reverse().take(
                digits.len() - i,
            ),
        decreases i,
    {
        i -= 1;
        push_char(&mut line, digits[i]);
        assert(digits@.reverse().take(digits.len() - i) =~= digits@.reverse().take(
            digits.len() - i - 1,
        ).push(digits@[i as int]));
    }
    assert(digits@.reverse().take(digits.len() as int) =~= digits@.reverse());
    push_char(&mut line, '\n');
    assert(line@ =~= generation_text(generation as nat));
    line
}

/// The character of the digit `d`.
fn digit_char(d: u8) -> (c: char)
    requires
        d < 10,
    ensures
        c == digit(d as nat),
{
    match d {
        0 => '0',
        1 => '1',
        2 => '2',
        3 => '3',
        4 => '4',
        5 => '5',
        6 => '6',
        7 => '7',
        8 => '8',
        _ => '9',
    }
}

/// A drawn window has `height` rows of `width` glyphs each, whatever is
/// alive and wherever: the text is `height * (width + 1)` characters long,
/// and in each row a glyph, `piece` or `empty`, stands at each of the first
/// `width` places and a line feed at the last.
pub proof fn lemma_render_shape(
    alive: Set<(i128, i128)>,
    width: int,
    height: int,
    piece: char,
    empty: char,
)
    requires
        0 <= width,
        0 <= height,
    ensures
        render(alive, width, height, piece, empty).len() == height * (width + 1),
        forall|x: int, y: int|
            0 <= x < width && 0 <= y < height ==> #[trigger] render(
                alive,
                width,
                height,
                piece,
                empty,
            )[cell_place(width, x, y)] == glyph(alive, x, y, piece, empty),
        forall|y: int|
            0 <= y < height ==> #[trigger] render(alive, width, height, piece, empty)[cell_place(
                width,
                width,
                y,
            )] == '\n',
    decreases height,
{
    if height > 0 {
        let above = render(alive, width, height - 1, piece, empty);
        let row = render_row(alive, width, height - 1, piece, empty);
        let all = render(alive, width, height, piece, empty);
        lemma_render_shape(alive, width, height - 1, piece, empty);
        assert(all == above + row);
        assert(height * (width + 1) == (height - 1) * (width + 1) + (width + 1))
            by (nonlinear_arith);
        assert forall|x: int, y: int| 0 <= x <= width && 0 <= y < height implies 0 <= cell_place(
            width,
            x,
            y,
        ) < all.len() && all[cell_place(width, x, y)] == (if x == width {
            '\n'
        } else {
            glyph(alive, x, y, piece, empty)
        }) by {
            assert(y * (width + 1) + (width + 1) == (y + 1) * (width + 1)) by (nonlinear_arith);
            if y < height - 1 {
                assert((y + 1) * (width + 1) <= (height - 1) * (width + 1)) by (nonlinear_arith)
                    requires
                        y + 1 <= height - 1,
                        0 <= width,
                ;
                assert(all[cell_place(width, x, y)] == above[cell_place(width, x, y)]);
            } else {
                assert(all[cell_place(width, x, y)] == row[x]);
            }
        }
    }
}

/// The place of the cell `(x, y)` in the text of a window `width` cells
/// wide; `x == width` is the place of the line feed that closes row `y`.
pub open spec fn cell_place(width: int, x: int, y: int) -> int {
    y * (width + 1) + x
}

} // verus!
