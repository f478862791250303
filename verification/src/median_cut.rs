//! The median cut: one bucket of colours split in two along its widest
//! channel, at that channel's median.

use vstd::prelude::*;
use vstd::seq_lib::to_multiset_build;
use crate::color::{Color, ColorChannel};
use crate::sort::is_stable_sort_by;
use crate::permutation::{is_permutation, lemma_empty_to_multiset, lemma_filter_permutation};
use crate::stats::{
    channel_median, channel_median_of, channel_values, highest_range_channel,
    lemma_median_of_constant, lemma_statistics_ignore_order, widest_channel,
};

verus! {

/// The colours whose `channel` lies above `threshold`, in their order in
/// `colors`.
pub open spec fn above(colors: Seq<Color>, channel: ColorChannel, threshold: int) -> Seq<Color> {
    colors.filter(|c: Color| channel.value_of(c) > threshold)
}

/// The colours whose `channel` lies at or below `threshold`, in their order
/// in `colors`.
pub open spec fn not_above(colors: Seq<Color>, channel: ColorChannel, threshold: int) -> Seq<
    Color,
> {
    colors.filter(|c: Color| channel.value_of(c) <= threshold)
}

/// The upper half of a median cut: the colours above the median of the
/// widest channel.
pub open spec fn above_median(colors: Seq<Color>) -> Seq<Color> {
    let channel = widest_channel(colors);
    above(colors, channel, channel_median_of(colors, channel))
}

/// The lower half of a median cut: the colours at or below the median of the
/// widest channel.
pub open spec fn below_median(colors: Seq<Color>) -> Seq<Color> {
    let channel = widest_channel(colors);
    not_above(colors, channel, channel_median_of(colors, channel))
}

/// The halves of a median cut do not depend on the order of the bucket:
/// rearranging the bucket rearranges each half.
pub proof fn lemma_median_cut_ignores_order(a: Seq<Color>, b: Seq<Color>)
    requires
        is_permutation(a, b),
    ensures
        is_permutation(above_median(a), above_median(b)),
        is_permutation(below_median(a), below_median(b)),
{
    let channel = widest_channel(a);
    lemma_statistics_ignore_order(a, b, channel);
    let median = channel_median_of(a, channel);
    lemma_filter_permutation(a, b, |c: Color| channel.value_of(c) > median);
    lemma_filter_permutation(a, b, |c: Color| channel.value_of(c) <= median);
}

/// Every colour of a bucket falls in exactly one half of its median cut: the
/// two halves together hold the colours of the bucket, each as often as the
/// bucket does.
pub proof fn lemma_median_cut_partitions(colors: Seq<Color>)
    ensures
        above_median(colors).to_multiset().add(below_median(colors).to_multiset())
            == colors.to_multiset(),
        above_median(colors).len() + below_median(colors).len() == colors.len(),
{
    let channel = widest_channel(colors);
    let median = channel_median_of(colors, channel);
    lemma_split_partitions(colors, channel, median);
}

/// The colours above a threshold and those at or below it make up the whole.
proof fn lemma_split_partitions(colors: Seq<Color>, channel: ColorChannel, threshold: int)
    ensures
        above(colors, channel, threshold).to_multiset().add(
            not_above(colors, channel, threshold).to_multiset(),
        ) == colors.to_multiset(),
        above(colors, channel, threshold).len() + not_above(colors, channel, threshold).len()
            == colors.len(),
    decreases colors.len(),
{
    reveal(Seq::filter);
    let upper = above(colors, channel, threshold);
    let lower = not_above(colors, channel, threshold);
    broadcast use vstd::multiset::group_multiset_axioms;

    if colors.len() == 0 {
        lemma_empty_to_multiset(colors);
        lemma_empty_to_multiset(upper);
        lemma_empty_to_multiset(lower);
        assert(upper.to_multiset().add(lower.to_multiset()) =~= colors.to_multiset());
    } else {
        let rest = colors.drop_last();
        let last = colors.last();
        lemma_split_partitions(rest, channel, threshold);
        assert(colors =~= rest.push(last));
        to_multiset_build(rest, last);
        to_multiset_build(above(rest, channel, threshold), last);
        to_multiset_build(not_above(rest, channel, threshold), last);
        assert(upper.to_multiset().add(lower.to_multiset()) =~= colors.to_multiset());
    }
}

/// A bucket that holds one colour throughout has nothing above its median:
/// the upper half of its cut is empty.
pub proof fn lemma_median_cut_of_uniform_bucket(colors: Seq<Color>)
    requires
        colors.len() > 0,
        forall|i: int, j: int|
            0 <= i < colors.len() && 0 <= j < colors.len() ==> colors[i] == colors[j],
    ensures
        above_median(colors).len() == 0,
        below_median(colors).len() == colors.len(),
{
    let channel = widest_channel(colors);
    let value = channel.value_of(colors[0]);
    let values = channel_values(colors, channel);
    assert forall|i: int| 0 <= i < values.len() implies values[i] == value by {
        assert(colors[i] == colors[0]);
    }
    lemma_median_of_constant(values, value);
    let keep = |c: Color| channel.value_of(c) > value;
    let upper = colors.filter(keep);
    if upper.len() > 0 {
        colors.lemma_filter_pred(keep, 0);
        assert(upper.contains(upper[0]));
        colors.lemma_filter_contains_rev(keep, upper[0]);
        let place = choose|i: int| 0 <= i < colors.len() && colors[i] == upper[0];
        assert(colors[place] == colors[0]);
    }
    lemma_median_cut_partitions(colors);
}

/// Performs the median cut on one bucket: finds the channel of greatest
/// spread, sorts the bucket by it, and deals the colours out by that
/// channel's median. Returns the colours above the median and those at or
/// below it, each in the sorted order; `None` for an empty bucket, which is
/// left as it was.
pub fn median_cut(colors: &mut Vec<Color>) -> (result: Option<(Vec<Color>, Vec<Color>)>)
    ensures
        match result {
            Some((upper, lower)) => {
                &&& old(colors).len() > 0
                &&& is_stable_sort_by(
                    old(colors)@,
                    final(colors)@,
                    widest_channel(old(colors)@),
                )
                &&& upper@ == above_median(final(colors)@)
                &&& lower@ == below_median(final(colors)@)
                &&& is_permutation(upper@, above_median(old(colors)@))
                &&& is_permutation(lower@, below_median(old(colors)@))
            },
            None => old(colors).len() == 0 && final(colors)@ == old(colors)@,
        },
{
    let mut above_median_bucket = Vec::<Color>::new();
    let mut below_median_bucket = Vec::<Color>::new();
    let channel = match highest_range_channel(colors) {
        Some(channel) => channel,
        None => {
            return None;
        },
    };
    let median = match channel_median(colors, &channel) {
        Some(median) => median,
        None => {
            return None;
        },
    };
    proof {
        lemma_statistics_ignore_order(old(colors)@, colors@, channel);
        lemma_median_cut_ignores_order(colors@, old(colors)@);
    }
    let n = colors.len();
    let mut i: usize = 0;
    while i < n
        invariant
            n == colors.len(),
            i <= n,
            above_median_bucket@ == above(colors@.take(i as int), channel, median as int),
            below_median_bucket@ == not_above(colors@.take(i as int), channel, median as int),
        decreases n - i,
    {
        let color = colors[i];
        proof {
            let seen = colors@.take(i as int);
            assert(seen.push(color) =~= colors@.take(i + 1));
            seen.lemma_filter_push(color, |c: Color| channel.value_of(c) > median as int);
            seen.lemma_filter_push(color, |c: Color| channel.value_of(c) <= median as int);
        }
        if channel.value(&color) > median {
            above_median_bucket.push(color);
        } else {
            below_median_bucket.push(color);
        }
        i += 1;
    }
    proof {
        assert(colors@.take(n as int) =~= colors@);
    }
    Some((above_median_bucket, below_median_bucket))
}

} // verus!
