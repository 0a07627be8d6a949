use vstd::prelude::*;
use crate::glyph::{Symbols, glyph_of};
use vstd::arithmetic::div_mod::lemma_fundamental_div_mod_converse;

verus! {

/// Character `i` of the rendering of a `width`-wide grid: each row is its
/// glyphs followed by a line break.
pub open spec fn render_char(
    luma: Seq<u8>,
    width: nat,
    palette: Seq<char>,
    invert: bool,
    i: int,
) -> char {
    let w = width as int;
    let col = i % (w + 1);
    let row = i / (w + 1);
    if col == w {
        '\n'
    } else {
        glyph_of(palette, luma[row * w + col] as nat, invert)
    }
}

/// The text of a `width` by `height` luminance grid stored row by row.
pub open spec fn render_spec(
    luma: Seq<u8>,
    width: nat,
    height: nat,
    palette: Seq<char>,
    invert: bool,
) -> Seq<char> {
    Seq::new((width + 1) * height, |i: int| render_char(luma, width, palette, invert, i))
}

/// The rendering has `height` lines; line `row` holds the `width` glyphs of
/// that row of the grid, in order, and then a line break.
pub proof fn lemma_render_lines(
    luma: Seq<u8>,
    width: nat,
    height: nat,
    palette: Seq<char>,
    invert: bool,
    row: nat,
    col: nat,
)
    requires
        row < height,
        col <= width,
    ensures
        render_spec(luma, width, height, palette, invert).len() == (width + 1) * height,
        row * (width + 1) + col < (width + 1) * height,
        render_spec(luma, width, height, palette, invert)[(row * (width + 1) + col) as int]
            == if col == width {
            '\n'
        } else {
            glyph_of(palette, luma[(row * width + col) as int] as nat, invert)
        },
{
    assert(row * (width + 1) + col < (width + 1) * height) by (nonlinear_arith)
        requires
            row < height,
            col <= width,
    ;
    lemma_fundamental_div_mod_converse(
        (row * (width + 1) + col) as int,
        (width + 1) as int,
        row as int,
        col as int,
    );
}

/// Renders a `width` by `height` luminance grid, stored row by row, as text.
/// Samples past the last row are not read.
pub fn render(luma: &Vec<u8>, width: usize, height: usize, symbols: &Symbols, invert: bool) -> (out:
    Vec<char>)
    requires
        symbols.wf(),
        luma@.len() >= width * height,
        (width + 1) * height <= usize::MAX,
    ensures
        out@ == render_spec(luma@, width as nat, height as nat, symbols@, invert),
{
    let mut out: Vec<char> = Vec::new();
    let mut y: usize = 0;
    while y < height
        invariant
            symbols.wf(),
            luma@.len() >= width * height,
            (width + 1) * height <= usize::MAX,
            y <= height,
            out@.len() == y * (width + 1),
            forall|i: int|
                0 <= i < out@.len() ==> out@[i] == render_char(
                    luma@,
                    width as nat,
                    symbols@,
                    invert,
                    i,
                ),
        decreases height - y,
    {
        assert((y + 1) * (width + 1) <= (width + 1) * height) by (nonlinear_arith)
            requires
                y < height,
        ;
        assert(y * width + width <= width * height) by (nonlinear_arith)
            requires
                y < height,
        ;
        let total: usize = luma.len();
        assert(y * width <= total) by (nonlinear_arith)
            requires
                y * width + width <= width * height,
                total >= width * height,
        ;
        let row_start: usize = y * width;
        let mut x: usize = 0;
        while x < width
            invariant
                symbols.wf(),
                luma@.len() >= width * height,
                y < height,
                x <= width,
                y * width + width <= width * height,
                row_start == y * width,
                total >= width * height,
                (y + 1) * (width + 1) <= usize::MAX,
                out@.len() == y * (width + 1) + x,
                forall|i: int|
                    0 <= i < out@.len() ==> out@[i] == render_char(
                        luma@,
                        width as nat,
                        symbols@,
                        invert,
                        i,
                    ),
            decreases width - x,
        {
            let g = symbols.get_ascii_value(luma[row_start + x], invert);
            proof {
                lemma_fundamental_div_mod_converse(
                    (y * (width + 1) + x) as int,
                    (width + 1) as int,
                    y as int,
                    x as int,
                );
            }
            out.push(g);
            x = x + 1;
        }
        proof {
            lemma_fundamental_div_mod_converse(
                (y * (width + 1) + width) as int,
                (width + 1) as int,
                y as int,
                width as int,
            );
        }
        out.push('\n');
        assert(out@.len() == (y + 1) * (width + 1)) by (nonlinear_arith)
            requires
                out@.len() == y * (width + 1) + width + 1,
        ;
        y = y + 1;
    }
    assert(out@.len() == (width + 1) * height) by (nonlinear_arith)
        requires
            out@.len() == y * (width + 1),
            y == height,
    ;
    assert(out@ =~= render_spec(luma@, width as nat, height as nat, symbols@, invert));
    out
}

} // verus!
