//! The swatch strip: a palette drawn as a row of squares, one for each
//! colour, from left to right.

use vstd::prelude::*;
use vstd::arithmetic::div_mod::lemma_fundamental_div_mod_converse;
use crate::color::Color;

verus! {

/// The side of one square of the strip, in pixels.
pub const SQUARE_SIZE: u32 = 50;

/// The colour of pixel `p` of the strip of `colors`, counted row by row: that
/// of the square that the pixel's column lies in.
pub open spec fn swatch_pixel(colors: Seq<Color>, p: int) -> Color {
    colors[(p % (SQUARE_SIZE * colors.len())) / (SQUARE_SIZE as int)]
}

/// The pixels of the strip of `colors`, row by row: the strip is
/// `SQUARE_SIZE` pixels high and `SQUARE_SIZE` pixels wide for each colour.
pub open spec fn swatch_of(colors: Seq<Color>) -> Seq<Color> {
    Seq::new(
        (SQUARE_SIZE * colors.len() * SQUARE_SIZE) as nat,
        |p: int| swatch_pixel(colors, p),
    )
}

/// Whether `pixels` are the first pixels of the strip of `colors`.
pub open spec fn is_swatch_prefix(pixels: Seq<Color>, colors: Seq<Color>) -> bool {
    forall|p: int| 0 <= p < pixels.len() ==> #[trigger] pixels[p] == swatch_pixel(colors, p)
}

/// The pixel in column `x` of row `y` of the strip has the colour of square
/// `x / SQUARE_SIZE`.
pub proof fn lemma_swatch_pixel(colors: Seq<Color>, x: int, y: int)
    requires
        0 <= x < SQUARE_SIZE * colors.len(),
        0 <= y < SQUARE_SIZE,
    ensures
        0 <= y * (SQUARE_SIZE * colors.len()) + x < swatch_of(colors).len(),
        swatch_of(colors)[y * (SQUARE_SIZE * colors.len()) + x] == colors[x / (SQUARE_SIZE as int)],
{
    let width = SQUARE_SIZE * colors.len();
    lemma_fundamental_div_mod_converse(y * width + x, width, y, x);
    assert(0 <= y * width + x < width * SQUARE_SIZE) by (nonlinear_arith)
        requires
            0 <= x < width,
            0 <= y < SQUARE_SIZE,
    ;
}

/// Draws `colors` as a strip of squares. Returns the pixels row by row, the
/// width and the height of the strip.
pub fn swatch_strip(colors: &Vec<Color>) -> (strip: (Vec<Color>, u32, u32))
    requires
        colors.len() * SQUARE_SIZE <= u32::MAX,
        colors.len() * SQUARE_SIZE * SQUARE_SIZE <= usize::MAX,
    ensures
        strip.0@ == swatch_of(colors@),
        strip.1 == SQUARE_SIZE * colors.len(),
        strip.2 == SQUARE_SIZE,
{
    let count = colors.len();
    let width: u32 = SQUARE_SIZE * (count as u32);
    let height: u32 = SQUARE_SIZE;
    let mut pixels: Vec<Color> = Vec::new();
    let mut y: u32 = 0;
    while y < height
        invariant
            count == colors.len(),
            width == SQUARE_SIZE * count,
            height == SQUARE_SIZE,
            y <= height,
            pixels.len() == y * width,
            is_swatch_prefix(pixels@, colors@),
        decreases height - y,
    {
        let mut i: usize = 0;
        while i < count
            invariant
                count == colors.len(),
                width == SQUARE_SIZE * count,
                y < SQUARE_SIZE,
                i <= count,
                pixels.len() == y * width + i * SQUARE_SIZE,
                is_swatch_prefix(pixels@, colors@),
            decreases count - i,
        {
            let mut x: u32 = 0;
            while x < SQUARE_SIZE
                invariant
                    count == colors.len(),
                    width == SQUARE_SIZE * count,
                    y < SQUARE_SIZE,
                    i < count,
                    x <= SQUARE_SIZE,
                    pixels.len() == y * width + i * SQUARE_SIZE + x,
                    is_swatch_prefix(pixels@, colors@),
                decreases SQUARE_SIZE - x,
            {
                proof {
                    lemma_fundamental_div_mod_converse(
                        pixels.len() as int,
                        width as int,
                        y as int,
                        i * SQUARE_SIZE + x,
                    );
                }
                pixels.push(colors[i]);
                x += 1;
            }
            i += 1;
        }
        y += 1;
        assert(y * width == (y - 1) * width + count * SQUARE_SIZE) by (nonlinear_arith)
            requires
                width == SQUARE_SIZE * count,
        ;
    }
    proof {
        assert(pixels.len() == SQUARE_SIZE * width);
        assert(pixels@ =~= swatch_of(colors@));
    }
    (pixels, width, height)
}

} // verus!
