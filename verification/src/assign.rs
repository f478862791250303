//! Nearest-colour reassignment: every pixel replaced by the palette colour
//! closest to it in squared distance over the four channels.

use vstd::prelude::*;
use crate::color::Color;

verus! {

/// The square of the difference of two channel values.
pub open spec fn channel_distance(x: int, y: int) -> int {
    (x - y) * (x - y)
}

/// The squared distance of two colours: the sum over red, green, blue and
/// alpha of the squared difference of the channel.
pub open spec fn distance(a: Color, b: Color) -> int {
    channel_distance(a.r as int, b.r as int) + channel_distance(a.g as int, b.g as int)
        + channel_distance(a.b as int, b.b as int) + channel_distance(a.a as int, b.a as int)
}

/// Whether `palette[index]` is the colour nearest to `color`, and the first
/// such: no palette colour is nearer, and every earlier one is farther.
pub open spec fn is_nearest_at(color: Color, palette: Seq<Color>, index: int) -> bool {
    &&& 0 <= index < palette.len()
    &&& forall|k: int|
        0 <= k < palette.len() ==> distance(color, palette[index]) <= distance(
            color,
            #[trigger] palette[k],
        )
    &&& forall|k: int|
        0 <= k < index ==> distance(color, palette[index]) < distance(
            color,
            #[trigger] palette[k],
        )
}

/// The index of the first palette colour nearest to `color`.
pub open spec fn nearest_index(color: Color, palette: Seq<Color>) -> int {
    choose|index: int| is_nearest_at(color, palette, index)
}

/// The first palette colour nearest to `color`.
pub open spec fn nearest(color: Color, palette: Seq<Color>) -> Color {
    palette[nearest_index(color, palette)]
}

/// The pixels of `colors`, each replaced by the palette colour nearest to it.
pub open spec fn reassigned(colors: Seq<Color>, palette: Seq<Color>) -> Seq<Color> {
    colors.map_values(|c: Color| nearest(c, palette))
}

/// The squared difference of two bytes is at most 255 squared, and zero only
/// for equal bytes.
pub proof fn lemma_channel_distance(x: int, y: int)
    requires
        0 <= x <= 255,
        0 <= y <= 255,
    ensures
        0 <= channel_distance(x, y) <= 65025,
        channel_distance(x, y) == 0 <==> x == y,
{
    let d = x - y;
    assert(0 <= d * d <= 65025 && (d * d == 0 <==> d == 0)) by (nonlinear_arith)
        requires
            -255 <= d <= 255,
    ;
}

/// The squared distance of two colours fits 32 bits with room to spare, and
/// is zero exactly for equal colours.
pub proof fn lemma_distance(a: Color, b: Color)
    ensures
        0 <= distance(a, b) <= 260100,
        distance(a, b) == 0 <==> a == b,
{
    lemma_channel_distance(a.r as int, b.r as int);
    lemma_channel_distance(a.g as int, b.g as int);
    lemma_channel_distance(a.b as int, b.b as int);
    lemma_channel_distance(a.a as int, b.a as int);
}

/// At most one index is that of the first nearest colour.
pub proof fn lemma_nearest_unique(color: Color, palette: Seq<Color>, i: int, j: int)
    requires
        is_nearest_at(color, palette, i),
        is_nearest_at(color, palette, j),
    ensures
        i == j,
{
    if i < j {
        assert(distance(color, palette[j]) < distance(color, palette[i]));
    } else if j < i {
        assert(distance(color, palette[i]) < distance(color, palette[j]));
    }
}

/// A palette that holds a colour has a first colour nearest to `color`, at
/// `nearest_index`; an index with that property is `nearest_index`.
pub proof fn lemma_nearest_index(color: Color, palette: Seq<Color>)
    requires
        palette.len() > 0,
    ensures
        is_nearest_at(color, palette, nearest_index(color, palette)),
        forall|index: int| #[trigger]
            is_nearest_at(color, palette, index) ==> index == nearest_index(color, palette),
    decreases palette.len(),
{
    let last = palette.len() - 1;
    let witness = if palette.len() == 1 {
        0
    } else {
        let earlier = palette.drop_last();
        lemma_nearest_index(color, earlier);
        let best = nearest_index(color, earlier);
        assert(forall|k: int| 0 <= k < earlier.len() ==> earlier[k] == palette[k]);
        if distance(color, palette[last]) < distance(color, palette[best]) {
            last
        } else {
            best
        }
    };
    assert(is_nearest_at(color, palette, witness)) by {
        if palette.len() > 1 {
            let earlier = palette.drop_last();
            let best = nearest_index(color, earlier);
            assert forall|k: int| 0 <= k < palette.len() implies distance(color, palette[witness])
                <= distance(color, #[trigger] palette[k]) by {
                if k < last {
                    assert(earlier[k] == palette[k]);
                }
            }
            assert forall|k: int| 0 <= k < witness implies distance(color, palette[witness])
                < distance(color, #[trigger] palette[k]) by {
                assert(earlier[k] == palette[k]);
            }
        }
    }
    assert forall|index: int| #[trigger] is_nearest_at(color, palette, index) implies index
        == nearest_index(color, palette) by {
        lemma_nearest_unique(color, palette, index, nearest_index(color, palette));
    }
}

/// Of two palette colours at the same distance from `color` the later is
/// never chosen; where no colour is nearer than the two, the choice falls on
/// the earlier or before it.
pub proof fn lemma_nearest_prefers_earlier(color: Color, palette: Seq<Color>, i: int, j: int)
    requires
        0 <= i < j < palette.len(),
        distance(color, palette[i]) == distance(color, palette[j]),
    ensures
        nearest_index(color, palette) != j,
        (forall|k: int|
            0 <= k < palette.len() ==> distance(color, palette[i]) <= distance(
                color,
                #[trigger] palette[k],
            )) ==> nearest_index(color, palette) <= i,
{
    lemma_nearest_index(color, palette);
    let chosen = nearest_index(color, palette);
    if chosen == j {
        assert(distance(color, palette[j]) < distance(color, palette[i]));
    }
    if chosen > i {
        assert(distance(color, palette[chosen]) < distance(color, palette[i]));
    }
}

/// A colour that the palette holds is its own nearest colour, at distance
/// zero.
pub proof fn lemma_nearest_of_member(color: Color, palette: Seq<Color>)
    requires
        palette.contains(color),
    ensures
        nearest(color, palette) == color,
        distance(color, nearest(color, palette)) == 0,
{
    let k = choose|k: int| 0 <= k < palette.len() && palette[k] == color;
    lemma_nearest_index(color, palette);
    let chosen = nearest_index(color, palette);
    lemma_distance(color, palette[k]);
    lemma_distance(color, palette[chosen]);
    assert(distance(color, palette[chosen]) <= distance(color, palette[k]));
}

/// Reassignment keeps the number and the order of the pixels, and gives each
/// a colour of the palette than which none of the palette is nearer.
pub proof fn lemma_reassigned_is_nearest(colors: Seq<Color>, palette: Seq<Color>, i: int, k: int)
    requires
        0 <= i < colors.len(),
        0 <= k < palette.len(),
    ensures
        reassigned(colors, palette).len() == colors.len(),
        palette.contains(reassigned(colors, palette)[i]),
        distance(colors[i], reassigned(colors, palette)[i]) <= distance(colors[i], palette[k]),
{
    lemma_nearest_index(colors[i], palette);
}

/// Reassigning pixels to a palette that holds every one of their colours
/// gives the pixels back unchanged, each at distance zero from its choice.
pub proof fn lemma_reassign_members(colors: Seq<Color>, palette: Seq<Color>)
    requires
        forall|i: int| 0 <= i < colors.len() ==> palette.contains(#[trigger] colors[i]),
    ensures
        reassigned(colors, palette) == colors,
        forall|i: int|
            0 <= i < colors.len() ==> distance(
                colors[i],
                #[trigger] reassigned(colors, palette)[i],
            ) == 0,
{
    assert forall|i: int| 0 <= i < colors.len() implies #[trigger] reassigned(colors, palette)[i]
        == colors[i] && distance(colors[i], reassigned(colors, palette)[i]) == 0 by {
        lemma_nearest_of_member(colors[i], palette);
    }
    assert(reassigned(colors, palette) =~= colors);
}

/// The squared distance of two colours over all four channels.
pub fn squared_distance(a: &Color, b: &Color) -> (d: u32)
    ensures
        d == distance(*a, *b),
{
    proof {
        lemma_channel_distance(a.r as int, b.r as int);
        lemma_channel_distance(a.g as int, b.g as int);
        lemma_channel_distance(a.b as int, b.b as int);
        lemma_channel_distance(a.a as int, b.a as int);
    }
    squared_difference(a.r, b.r) + squared_difference(a.g, b.g) + squared_difference(a.b, b.b)
        + squared_difference(a.a, b.a)
}

/// The square of the difference of two bytes.
fn squared_difference(x: u8, y: u8) -> (d: u32)
    ensures
        d == channel_distance(x as int, y as int),
{
    let gap: u32 = if x < y {
        (y - x) as u32
    } else {
        (x - y) as u32
    };
    proof {
        lemma_channel_distance(x as int, y as int);
        assert(gap * gap == (x - y) * (x - y)) by (nonlinear_arith)
            requires
                gap == x - y || gap == y - x,
        ;
    }
    gap * gap
}

/// The palette colour nearest to `color`, the first of them where several
/// are equally near; `None` for an empty palette.
pub fn nearest_color(color: &Color, palette: &Vec<Color>) -> (result: Option<Color>)
    ensures
        match result {
            Some(chosen) => palette.len() > 0 && chosen == nearest(*color, palette@),
            None => palette.len() == 0,
        },
{
    let n = palette.len();
    if n == 0 {
        return None;
    }
    let mut best: usize = 0;
    let mut best_distance = squared_distance(color, &palette[0]);
    let mut i: usize = 1;
    while i < n
        invariant
            n == palette.len(),
            1 <= i <= n,
            best_distance == distance(*color, palette@[best as int]),
            is_nearest_at(*color, palette@.take(i as int), best as int),
        decreases n - i,
    {
        let d = squared_distance(color, &palette[i]);
        proof {
            let seen = palette@.take(i as int);
            let next = palette@.take(i + 1);
            assert(forall|k: int| 0 <= k < i ==> seen[k] == next[k]);
            assert(next[i as int] == palette@[i as int]);
        }
        if d < best_distance {
            best = i;
            best_distance = d;
        }
        i += 1;
    }
    proof {
        assert(palette@.take(n as int) =~= palette@);
        lemma_nearest_index(*color, palette@);
    }
    Some(palette[best])
}

/// Replaces every colour of `colors` by the palette colour nearest to it in
/// squared distance, the first of them where several are equally near. An
/// empty palette is rejected with `None`, whatever `colors` holds.
pub fn _assign_colors(colors: Vec<Color>, palette: Vec<Color>) -> (result: Option<Vec<Color>>)
    ensures
        match result {
            Some(pixels) => palette.len() > 0 && pixels@ == reassigned(colors@, palette@),
            None => palette.len() == 0,
        },
{
    if palette.len() == 0 {
        return None;
    }
    let n = colors.len();
    let mut result: Vec<Color> = Vec::new();
    let mut i: usize = 0;
    while i < n
        invariant
            n == colors.len(),
            i <= n,
            palette.len() > 0,
            result@ == reassigned(colors@.take(i as int), palette@),
        decreases n - i,
    {
        let chosen = match nearest_color(&colors[i], &palette) {
            Some(chosen) => chosen,
            None => {
                return None;
            },
        };
        proof {
            assert(reassigned(colors@.take(i + 1), palette@) =~= reassigned(
                colors@.take(i as int),
                palette@,
            ).push(chosen));
        }
        result.push(chosen);
        i += 1;
    }
    proof {
        assert(colors@.take(n as int) =~= colors@);
    }
    Some(result)
}

} // verus!
