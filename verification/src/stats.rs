//! Per-channel statistics of a collection of colours: mean, median and range,
//! and the channel of greatest range.
//!
//! Every statistic of a channel is a statistic of the plain sequence of that
//! channel's values: [`mean_of`], [`median_of`] and [`range_of`] say what it
//! is for any sequence of integers.

use vstd::prelude::*;
use crate::color::{Color, ColorChannel};
use crate::sort::{ascending_by, is_stable_sort_by, sort_by_channel};
use crate::permutation::{
    ascending, is_permutation, lemma_ascending_permutation_is_sort, lemma_extrema_permutation,
    lemma_map_values_permutation, lemma_permutation_len, lemma_sort_permutation,
    lemma_sum_permutation,
};

verus! {

/// The values of one channel, colour by colour.
pub open spec fn channel_values(colors: Seq<Color>, channel: ColorChannel) -> Seq<int> {
    colors.map_values(|c: Color| channel.value_of(c))
}

/// The sum of a sequence of integers.
pub open spec fn sum_of(values: Seq<int>) -> int
    decreases values.len(),
{
    if values.len() == 0 {
        0
    } else {
        sum_of(values.drop_last()) + values.last()
    }
}

/// The mean of a non-empty sequence, rounded down.
pub open spec fn mean_of(values: Seq<int>) -> int {
    sum_of(values) / (values.len() as int)
}

/// The median of a non-empty sequence: the middle value of the sequence in
/// ascending order, or for an even length the mean, rounded down, of the two
/// middle values.
pub open spec fn median_of(values: Seq<int>) -> int {
    let sorted = values.sort();
    let mid = (values.len() / 2) as int;
    if values.len() % 2 == 1 {
        sorted[mid]
    } else {
        (sorted[mid - 1] + sorted[mid]) / 2
    }
}

/// The spread of a non-empty sequence: its greatest value less its least.
pub open spec fn range_of(values: Seq<int>) -> int {
    values.max() - values.min()
}

/// The mean of one channel over `colors`.
pub open spec fn channel_mean_of(colors: Seq<Color>, channel: ColorChannel) -> int {
    mean_of(channel_values(colors, channel))
}

/// The median of one channel over `colors`.
pub open spec fn channel_median_of(colors: Seq<Color>, channel: ColorChannel) -> int {
    median_of(channel_values(colors, channel))
}

/// The spread of one channel over `colors`.
pub open spec fn channel_range_of(colors: Seq<Color>, channel: ColorChannel) -> int {
    range_of(channel_values(colors, channel))
}

/// The channel of greatest spread; among channels of equal spread the one
/// that comes first in [`ColorChannel::ALL`].
pub open spec fn widest_channel(colors: Seq<Color>) -> ColorChannel {
    let r = channel_range_of(colors, ColorChannel::R);
    let g = channel_range_of(colors, ColorChannel::G);
    let b = channel_range_of(colors, ColorChannel::B);
    let a = channel_range_of(colors, ColorChannel::A);
    if r >= g && r >= b && r >= a {
        ColorChannel::R
    } else if g >= b && g >= a {
        ColorChannel::G
    } else if b >= a {
        ColorChannel::B
    } else {
        ColorChannel::A
    }
}

/// Whether `channel` is at least as wide over `colors` as every channel, and
/// wider than every channel that comes before it.
pub open spec fn is_first_widest(colors: Seq<Color>, channel: ColorChannel) -> bool {
    forall|other: ColorChannel|
        {
            &&& #[trigger] channel_range_of(colors, other) <= channel_range_of(colors, channel)
            &&& other.position() < channel.position() ==> channel_range_of(colors, other)
                < channel_range_of(colors, channel)
        }
}

/// Whether every value is a byte.
pub open spec fn all_bytes(values: Seq<int>) -> bool {
    forall|i: int| 0 <= i < values.len() ==> 0 <= #[trigger] values[i] <= 255
}

/// A bucket is an unordered collection: rearranging it changes neither the
/// mean, nor the median, nor the spread of any channel, nor the choice of the
/// widest channel.
pub proof fn lemma_statistics_ignore_order(a: Seq<Color>, b: Seq<Color>, channel: ColorChannel)
    requires
        is_permutation(a, b),
    ensures
        a.len() == b.len(),
        channel_mean_of(a, channel) == channel_mean_of(b, channel),
        channel_median_of(a, channel) == channel_median_of(b, channel),
        channel_range_of(a, channel) == channel_range_of(b, channel),
        widest_channel(a) == widest_channel(b),
{
    lemma_permutation_len(a, b);
    lemma_channel_values_permutation(a, b, channel);
    lemma_sum_permutation(channel_values(a, channel), channel_values(b, channel));
    lemma_sort_permutation(channel_values(a, channel), channel_values(b, channel));
    lemma_extrema_permutation(channel_values(a, channel), channel_values(b, channel));
    assert forall|other: ColorChannel| #[trigger]
        channel_range_of(a, other) == channel_range_of(b, other) by {
        lemma_channel_values_permutation(a, b, other);
        lemma_extrema_permutation(channel_values(a, other), channel_values(b, other));
    }
}

/// The channel values of two rearrangements of one bucket are rearrangements
/// of one sequence.
pub proof fn lemma_channel_values_permutation(a: Seq<Color>, b: Seq<Color>, channel: ColorChannel)
    requires
        is_permutation(a, b),
    ensures
        is_permutation(channel_values(a, channel), channel_values(b, channel)),
{
    lemma_map_values_permutation(a, b, |c: Color| channel.value_of(c));
}

/// Among channels of equal spread the first wins: the widest channel is the
/// one channel that is at least as wide as every other and wider than every
/// channel before it.
pub proof fn lemma_widest_channel(colors: Seq<Color>, channel: ColorChannel)
    ensures
        is_first_widest(colors, channel) <==> channel == widest_channel(colors),
{
    assert(ColorChannel::R.position() == 0 && ColorChannel::G.position() == 1
        && ColorChannel::B.position() == 2 && ColorChannel::A.position() == 3);
    if channel == widest_channel(colors) {
        assert forall|other: ColorChannel|
            {
                &&& #[trigger] channel_range_of(colors, other) <= channel_range_of(colors, channel)
                &&& other.position() < channel.position() ==> channel_range_of(colors, other)
                    < channel_range_of(colors, channel)
            } by {
            match other {
                ColorChannel::R => {},
                ColorChannel::G => {},
                ColorChannel::B => {},
                ColorChannel::A => {},
            }
        }
    }
}

/// Where red and green are equally wide and wider than blue and alpha, the
/// widest channel is red.
pub proof fn lemma_red_wins_tie_with_green(colors: Seq<Color>)
    requires
        channel_range_of(colors, ColorChannel::R) == channel_range_of(colors, ColorChannel::G),
        channel_range_of(colors, ColorChannel::R) > channel_range_of(colors, ColorChannel::B),
        channel_range_of(colors, ColorChannel::R) > channel_range_of(colors, ColorChannel::A),
    ensures
        widest_channel(colors) == ColorChannel::R,
{
}

/// The median read off a sorted rearrangement: its middle value, or for an
/// even length the mean, rounded down, of its two middle values.
pub proof fn lemma_median_of_sorted(values: Seq<int>, sorted: Seq<int>)
    requires
        is_permutation(sorted, values),
        ascending(sorted),
    ensures
        sorted.len() == values.len(),
        median_of(values) == {
            let mid = (values.len() / 2) as int;
            if values.len() % 2 == 1 {
                sorted[mid]
            } else {
                (sorted[mid - 1] + sorted[mid]) / 2
            }
        },
{
    lemma_permutation_len(sorted, values);
    lemma_ascending_permutation_is_sort(sorted, values);
}

/// The median of a sequence that holds one value throughout is that value.
pub proof fn lemma_median_of_constant(values: Seq<int>, value: int)
    requires
        values.len() > 0,
        forall|i: int| 0 <= i < values.len() ==> values[i] == value,
    ensures
        median_of(values) == value,
{
    lemma_median_of_sorted(values, values);
}

/// The values of a bucket sorted by a channel are the sorted values of the
/// bucket.
pub proof fn lemma_sorted_bucket_values(
    before: Seq<Color>,
    after: Seq<Color>,
    channel: ColorChannel,
)
    requires
        is_permutation(before, after),
        ascending_by(after, channel),
    ensures
        channel_values(after, channel) == channel_values(before, channel).sort(),
{
    let values = channel_values(after, channel);
    lemma_channel_values_permutation(after, before, channel);
    assert(ascending(values)) by {
        assert forall|i: int, j: int| 0 <= i < j < values.len() implies values[i] <= values[j] by {
            assert(values[i] == channel.value_of(after[i]));
            assert(values[j] == channel.value_of(after[j]));
        }
    }
    lemma_ascending_permutation_is_sort(values, channel_values(before, channel));
}

/// The mean of two values is half their sum, rounded down.
pub proof fn lemma_mean_of_pair(x: int, y: int)
    ensures
        mean_of(seq![x, y]) == (x + y) / 2,
{
    let pair = seq![x, y];
    let single = seq![x];
    assert(single.drop_last() =~= Seq::<int>::empty());
    assert(sum_of(single.drop_last()) == 0);
    assert(sum_of(single) == x);
    assert(pair.drop_last() =~= single);
    assert(sum_of(pair) == x + y);
}

/// The sum of the first `i + 1` values is the sum of the first `i` plus the next.
pub proof fn lemma_sum_take_next(values: Seq<int>, i: int)
    requires
        0 <= i < values.len(),
    ensures
        sum_of(values.take(i + 1)) == sum_of(values.take(i)) + values[i],
{
    assert(values.take(i + 1).drop_last() =~= values.take(i));
}

/// A sum of bytes lies between zero and 255 times their number.
pub proof fn lemma_sum_bounds(values: Seq<int>)
    requires
        all_bytes(values),
    ensures
        0 <= sum_of(values) <= 255 * values.len(),
    decreases values.len(),
{
    if values.len() > 0 {
        lemma_sum_bounds(values.drop_last());
    }
}

/// The mean of bytes is a byte.
pub proof fn lemma_mean_is_byte(values: Seq<int>)
    requires
        values.len() > 0,
        all_bytes(values),
    ensures
        0 <= mean_of(values) <= 255,
{
    lemma_sum_bounds(values);
    let s = sum_of(values);
    let n = values.len() as int;
    assert(0 <= s / n <= 255) by (nonlinear_arith)
        requires
            0 <= s <= 255 * n,
            n > 0,
    ;
}

/// The mean of one channel over `colors`, rounded down; `None` for an empty
/// collection.
pub fn channel_mean(colors: &Vec<Color>, channel: &ColorChannel) -> (result: Option<u8>)
    ensures
        match result {
            Some(m) => colors.len() > 0 && m == channel_mean_of(colors@, *channel),
            None => colors.len() == 0,
        },
{
    let n = colors.len();
    if n == 0 {
        return None;
    }
    let ghost values = channel_values(colors@, *channel);
    let mut sum: u128 = 0;
    let mut i: usize = 0;
    while i < n
        invariant
            n == colors.len(),
            i <= n,
            values == channel_values(colors@, *channel),
            sum == sum_of(values.take(i as int)),
            sum <= 255 * i,
        decreases n - i,
    {
        let v = channel.value(&colors[i]);
        proof {
            lemma_sum_take_next(values, i as int);
        }
        sum = sum + v as u128;
        i += 1;
    }
    proof {
        assert(values.take(n as int) =~= values);
        lemma_mean_is_byte(values);
    }
    let mean = sum / (n as u128);
    Some(mean as u8)
}

/// The median of one channel over `colors`: the middle value in ascending
/// order, or for an even count the mean, rounded down, of the two middle
/// values; `None` for an empty collection. Sorts `colors` by that channel.
pub fn channel_median(colors: &mut Vec<Color>, channel: &ColorChannel) -> (result: Option<u8>)
    ensures
        is_stable_sort_by(old(colors)@, final(colors)@, *channel),
        match result {
            Some(m) => old(colors).len() > 0 && m == channel_median_of(old(colors)@, *channel),
            None => old(colors).len() == 0,
        },
{
    sort_by_channel(colors, channel);
    let n = colors.len();
    proof {
        lemma_permutation_len(old(colors)@, colors@);
    }
    if n == 0 {
        return None;
    }
    let mid = n / 2;
    proof {
        lemma_sorted_bucket_values(old(colors)@, colors@, *channel);
    }
    if n % 2 == 0 {
        let pair = vec![colors[mid - 1], colors[mid]];
        proof {
            assert(channel_values(pair@, *channel) =~= seq![
                channel.value_of(colors@[mid - 1]),
                channel.value_of(colors@[mid as int]),
            ]);
            lemma_mean_of_pair(
                channel.value_of(colors@[mid - 1]),
                channel.value_of(colors@[mid as int]),
            );
        }
        channel_mean(&pair, channel)
    } else {
        Some(channel.value(&colors[mid]))
    }
}

/// The spread of one channel over `colors`, its greatest value less its
/// least; `None` for an empty collection.
pub fn channel_range(colors: &Vec<Color>, channel: &ColorChannel) -> (result: Option<u8>)
    ensures
        match result {
            Some(r) => colors.len() > 0 && r == channel_range_of(colors@, *channel),
            None => colors.len() == 0,
        },
{
    let n = colors.len();
    if n == 0 {
        return None;
    }
    let ghost values = channel_values(colors@, *channel);
    let mut lo = channel.value(&colors[0]);
    let mut hi = lo;
    let mut i: usize = 1;
    assert(values[0] == lo);
    while i < n
        invariant
            n == colors.len(),
            1 <= i <= n,
            values == channel_values(colors@, *channel),
            forall|j: int| 0 <= j < i ==> lo <= #[trigger] values[j] && values[j] <= hi,
            exists|j: int| 0 <= j < i && #[trigger] values[j] == lo,
            exists|j: int| 0 <= j < i && #[trigger] values[j] == hi,
        decreases n - i,
    {
        let v = channel.value(&colors[i]);
        assert(values[i as int] == v);
        if v > hi {
            hi = v;
        }
        if v < lo {
            lo = v;
        }
        i += 1;
    }
    proof {
        values.max_ensures();
        values.min_ensures();
        assert(values.contains(values.max()));
        assert(values.contains(values.min()));
    }
    Some(hi - lo)
}

/// The spread of every channel over `colors`, held in a colour channel by
/// channel; `None` for an empty collection.
pub fn color_ranges(colors: &Vec<Color>) -> (result: Option<Color>)
    ensures
        match result {
            Some(ranges) => colors.len() > 0 && forall|channel: ColorChannel|
                channel.value_of(ranges) == #[trigger] channel_range_of(colors@, channel),
            None => colors.len() == 0,
        },
{
    let spread = |channel: ColorChannel| -> (r: Option<u8>)
        ensures
            match r {
                Some(v) => colors.len() > 0 && v == channel_range_of(colors@, channel),
                None => colors.len() == 0,
            },
        {
            channel_range(colors, &channel)
        };
    Color::from_fn(spread)
}

/// The channel of greatest spread over `colors`; of channels with the same
/// spread the first of red, green, blue, alpha. `None` for an empty
/// collection.
pub fn highest_range_channel(colors: &Vec<Color>) -> (result: Option<ColorChannel>)
    ensures
        match result {
            Some(channel) => colors.len() > 0 && channel == widest_channel(colors@),
            None => colors.len() == 0,
        },
{
    let ranges = match color_ranges(colors) {
        Some(ranges) => ranges,
        None => {
            return None;
        },
    };
    let mut best = ColorChannel::R;
    let mut i: usize = 1;
    while i < 4
        invariant
            1 <= i <= 4,
            best.position() < i,
            forall|channel: ColorChannel|
                #![trigger channel.position()]
                channel.position() < i ==> channel.value_of(ranges) <= best.value_of(ranges),
            forall|channel: ColorChannel|
                #![trigger channel.position()]
                channel.position() < best.position() ==> channel.value_of(ranges)
                    < best.value_of(ranges),
        decreases 4 - i,
    {
        let channel = ColorChannel::ALL[i];
        assert(channel.position() == i);
        if channel.value(&ranges) > best.value(&ranges) {
            best = channel;
        }
        i += 1;
    }
    proof {
        assert forall|other: ColorChannel|
            {
                &&& #[trigger] channel_range_of(colors@, other) <= channel_range_of(colors@, best)
                &&& other.position() < best.position() ==> channel_range_of(colors@, other)
                    < channel_range_of(colors@, best)
            } by {
            assert(other.position() < 4);
            assert(other.value_of(ranges) == channel_range_of(colors@, other));
            assert(best.value_of(ranges) == channel_range_of(colors@, best));
        }
        lemma_widest_channel(colors@, best);
    }
    Some(best)
}

} // verus!
