//! The palette builder: the median cut applied level by level, and the mean
//! colour of each bucket that is left.

use vstd::prelude::*;
use vstd::arithmetic::power2::{lemma_pow2_unfold, pow2};
use crate::color::{Color, ColorChannel};
use crate::median_cut::{
    above_median, below_median, lemma_median_cut_ignores_order,
    lemma_median_cut_of_uniform_bucket, lemma_median_cut_partitions, median_cut,
};
use crate::sort::is_stable_sort_by;
use crate::permutation::is_permutation;
use crate::stats::{
    channel_mean, channel_mean_of, channel_values, lemma_mean_is_byte,
    lemma_statistics_ignore_order, widest_channel,
};

verus! {

/// The colour whose every channel is the mean of that channel over `colors`.
pub open spec fn mean_color(colors: Seq<Color>) -> Color {
    Color {
        r: channel_mean_of(colors, ColorChannel::R) as u8,
        g: channel_mean_of(colors, ColorChannel::G) as u8,
        b: channel_mean_of(colors, ColorChannel::B) as u8,
        a: channel_mean_of(colors, ColorChannel::A) as u8,
    }
}

/// The palette of `colors` after `iterations` levels of median cuts: with no
/// level left, the mean colour of the bucket; else the palette of the upper
/// half followed by that of the lower half. There is none where a bucket on
/// the way is empty.
pub open spec fn palette_of(colors: Seq<Color>, iterations: nat) -> Option<Seq<Color>>
    decreases iterations,
{
    if colors.len() == 0 {
        None
    } else if iterations == 0 {
        Some(seq![mean_color(colors)])
    } else {
        match (
            palette_of(above_median(colors), (iterations - 1) as nat),
            palette_of(below_median(colors), (iterations - 1) as nat),
        ) {
            (Some(upper), Some(lower)) => Some(upper + lower),
            _ => None,
        }
    }
}

/// Whether `colors` can be cut `iterations` levels deep without an empty
/// bucket: the bucket holds a colour, and while levels are left both halves
/// of its median cut can be cut one level less deep.
pub open spec fn splits_cleanly(colors: Seq<Color>, iterations: nat) -> bool
    decreases iterations,
{
    &&& colors.len() > 0
    &&& iterations > 0 ==> {
        &&& splits_cleanly(above_median(colors), (iterations - 1) as nat)
        &&& splits_cleanly(below_median(colors), (iterations - 1) as nat)
    }
}

/// A palette exists exactly where no bucket on the way is empty, and then it
/// holds two to the power of `iterations` colours.
pub proof fn lemma_palette_len(colors: Seq<Color>, iterations: nat)
    ensures
        palette_of(colors, iterations) is Some <==> splits_cleanly(colors, iterations),
        palette_of(colors, iterations) matches Some(palette) ==> palette.len() == pow2(iterations),
    decreases iterations,
{
    if iterations == 0 {
        vstd::arithmetic::power2::lemma2_to64();
    } else {
        lemma_palette_len(above_median(colors), (iterations - 1) as nat);
        lemma_palette_len(below_median(colors), (iterations - 1) as nat);
        lemma_pow2_unfold(iterations);
    }
}

/// A bucket can be cut cleanly only so deep as it has colours for: it holds
/// at least two to the power of `iterations` of them.
pub proof fn lemma_clean_split_needs_colors(colors: Seq<Color>, iterations: nat)
    requires
        splits_cleanly(colors, iterations),
    ensures
        colors.len() >= pow2(iterations),
    decreases iterations,
{
    if iterations == 0 {
        vstd::arithmetic::power2::lemma2_to64();
    } else {
        lemma_clean_split_needs_colors(above_median(colors), (iterations - 1) as nat);
        lemma_clean_split_needs_colors(below_median(colors), (iterations - 1) as nat);
        lemma_median_cut_partitions(colors);
        lemma_pow2_unfold(iterations);
    }
}

/// A bucket that holds one colour throughout cannot be cut: with a level of
/// cuts to make it has no palette.
pub proof fn lemma_uniform_bucket_has_no_palette(colors: Seq<Color>, iterations: nat)
    requires
        iterations > 0,
        forall|i: int, j: int|
            0 <= i < colors.len() && 0 <= j < colors.len() ==> colors[i] == colors[j],
    ensures
        palette_of(colors, iterations) is None,
{
    if colors.len() > 0 {
        lemma_median_cut_of_uniform_bucket(colors);
        assert(palette_of(above_median(colors), (iterations - 1) as nat) is None);
    }
}

/// With no level of cuts, the palette of a bucket that holds a colour is one
/// colour, and every channel of it is the mean of that channel over the
/// bucket.
pub proof fn lemma_palette_of_no_cut(colors: Seq<Color>)
    requires
        colors.len() > 0,
    ensures
        palette_of(colors, 0) == Some(seq![mean_color(colors)]),
        forall|channel: ColorChannel| #[trigger]
            channel.value_of(mean_color(colors)) == channel_mean_of(colors, channel),
{
    assert forall|channel: ColorChannel| #[trigger]
        channel.value_of(mean_color(colors)) == channel_mean_of(colors, channel) by {
        lemma_mean_is_byte(channel_values(colors, channel));
    }
}

/// The mean colour of a bucket does not depend on its order.
pub proof fn lemma_mean_color_ignores_order(a: Seq<Color>, b: Seq<Color>)
    requires
        is_permutation(a, b),
    ensures
        mean_color(a) == mean_color(b),
{
    lemma_statistics_ignore_order(a, b, ColorChannel::R);
    lemma_statistics_ignore_order(a, b, ColorChannel::G);
    lemma_statistics_ignore_order(a, b, ColorChannel::B);
    lemma_statistics_ignore_order(a, b, ColorChannel::A);
}

/// The palette of a bucket does not depend on its order.
pub proof fn lemma_palette_ignores_order(a: Seq<Color>, b: Seq<Color>, iterations: nat)
    requires
        is_permutation(a, b),
    ensures
        palette_of(a, iterations) == palette_of(b, iterations),
    decreases iterations,
{
    lemma_statistics_ignore_order(a, b, ColorChannel::R);
    if a.len() == 0 {
    } else if iterations == 0 {
        lemma_mean_color_ignores_order(a, b);
    } else {
        lemma_median_cut_ignores_order(a, b);
        lemma_palette_ignores_order(above_median(a), above_median(b), (iterations - 1) as nat);
        lemma_palette_ignores_order(below_median(a), below_median(b), (iterations - 1) as nat);
    }
}

/// Builds the palette of `bucket` by the median cut algorithm: `iter_count`
/// levels of cuts, then the mean colour of each bucket, those of the upper
/// half first. Returns two to the power of `iter_count` colours, or `None`
/// where a bucket on the way is empty. With a level to cut, a bucket that
/// holds a colour is left sorted by its widest channel.
pub fn make_palette(bucket: &mut Vec<Color>, iter_count: u8) -> (result: Option<Vec<Color>>)
    ensures
        match result {
            Some(palette) => palette_of(old(bucket)@, iter_count as nat) == Some(palette@),
            None => palette_of(old(bucket)@, iter_count as nat) is None,
        },
        result is Some <==> splits_cleanly(old(bucket)@, iter_count as nat),
        result matches Some(palette) ==> palette.len() == pow2(iter_count as nat),
        if iter_count > 0 && old(bucket).len() > 0 {
            is_stable_sort_by(old(bucket)@, final(bucket)@, widest_channel(old(bucket)@))
        } else {
            final(bucket)@ == old(bucket)@
        },
    decreases iter_count,
{
    proof {
        lemma_palette_len(bucket@, iter_count as nat);
    }
    if iter_count < 1 {
        let colors: &Vec<Color> = bucket;
        let mean = |channel: ColorChannel| -> (m: Option<u8>)
            ensures
                match m {
                    Some(v) => colors.len() > 0 && v == channel_mean_of(colors@, channel),
                    None => colors.len() == 0,
                },
            {
                channel_mean(colors, &channel)
            };
        let color = match Color::from_fn(mean) {
            Some(color) => color,
            None => {
                return None;
            },
        };
        proof {
            assert(color == mean_color(colors@));
        }
        return Some(vec![color]);
    }
    let (mut upper_bucket, mut lower_bucket) = match median_cut(bucket) {
        Some(buckets) => buckets,
        None => {
            return None;
        },
    };
    proof {
        lemma_palette_ignores_order(
            upper_bucket@,
            above_median(old(bucket)@),
            (iter_count - 1) as nat,
        );
        lemma_palette_ignores_order(
            lower_bucket@,
            below_median(old(bucket)@),
            (iter_count - 1) as nat,
        );
    }
    let mut result = match make_palette(&mut upper_bucket, iter_count - 1) {
        Some(palette) => palette,
        None => {
            return None;
        },
    };
    let mut rest = match make_palette(&mut lower_bucket, iter_count - 1) {
        Some(palette) => palette,
        None => {
            return None;
        },
    };
    result.append(&mut rest);
    Some(result)
}

/// What [`palette_from_pixels`] reports where no palette can be built.
pub open spec fn palette_failure() -> Seq<char> {
    "There was a problem building the palette."@
}

/// Builds the palette of `pixels`, which are left as they are: the cuts are
/// made on a copy. Where a bucket on the way is empty the error is the
/// message of [`palette_failure`].
pub fn palette_from_pixels(pixels: &Vec<Color>, iterations: u8) -> (result: Result<
    Vec<Color>,
    String,
>)
    ensures
        match result {
            Ok(palette) => palette_of(pixels@, iterations as nat) == Some(palette@),
            Err(message) => palette_of(pixels@, iterations as nat) is None && message@
                == palette_failure(),
        },
{
    let mut bucket = pixels.clone();
    assert(bucket@ =~= pixels@);
    match make_palette(&mut bucket, iterations) {
        Some(palette) => Ok(palette),
        None => Err("There was a problem building the palette.".to_string()),
    }
}

} // verus!
