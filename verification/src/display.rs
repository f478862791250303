//! Hexadecimal names of colours, as `#RRGGBB`.

use vstd::prelude::*;
use crate::color::Color;

verus! {

/// The sixteen hexadecimal digits, in upper case.
pub open spec fn hex_digits() -> Seq<char> {
    seq!['0', '1', '2', '3', '4', '5', '6', '7', '8', '9', 'A', 'B', 'C', 'D', 'E', 'F']
}

/// The two hexadecimal digits of a byte, the high one first.
pub open spec fn hex_pair(value: u8) -> Seq<char> {
    seq![hex_digits()[value as int / 16], hex_digits()[value as int % 16]]
}

/// The hexadecimal triplet of three bytes: `#`, then each byte in two
/// hexadecimal digits.
pub open spec fn hex_triplet(r: u8, g: u8, b: u8) -> Seq<char> {
    seq!['#'] + hex_pair(r) + hex_pair(g) + hex_pair(b)
}

/// The name of a colour: the hexadecimal triplet of its red, green and blue.
/// Alpha is left out.
pub open spec fn hex_name(color: Color) -> Seq<char> {
    hex_triplet(color.r, color.g, color.b)
}

/// The name that the `hex_color` crate gives a colour: `HexColor::rgb`, then
/// the value's `Display`. Trusted, not proved: `Display` writes `#` and the
/// red, green and blue bytes as two upper-case hexadecimal digits each, and
/// writes no alpha unless the alternate flag is set, which `to_string` does
/// not set.
#[verifier::external_body]
fn hex_color_name(r: u8, g: u8, b: u8) -> (name: String)
    ensures
        name@ == hex_triplet(r, g, b),
{
    hex_color::HexColor::rgb(r, g, b).to_string()
}

/// The hexadecimal name of every colour of `colors`, in order.
pub fn name_from_rgb(colors: &Vec<Color>) -> (names: Vec<String>)
    ensures
        names.len() == colors.len(),
        forall|i: int| 0 <= i < colors.len() ==> (#[trigger] names[i])@ == hex_name(colors[i]),
{
    let n = colors.len();
    let mut palette: Vec<String> = Vec::new();
    let mut i: usize = 0;
    while i < n
        invariant
            n == colors.len(),
            i <= n,
            palette.len() == i,
            forall|j: int| 0 <= j < i ==> (#[trigger] palette[j])@ == hex_name(colors[j]),
        decreases n - i,
    {
        let color = colors[i];
        palette.push(hex_color_name(color.r, color.g, color.b));
        i += 1;
    }
    palette
}

} // verus!
