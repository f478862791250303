//! Sorting a bucket by one channel.
//!
//! A channel has 256 values, so a bucket is sorted by dealing its colours
//! out into one group for each value and gathering the groups in ascending
//! order. Colours of one value stay in the order they came in: the sort is
//! stable.

use vstd::prelude::*;
use vstd::seq_lib::to_multiset_build;
use crate::color::{Color, ColorChannel};
use crate::permutation::{is_permutation, lemma_empty_to_multiset, lemma_permutation_len};

verus! {

/// Whether `colors` never descends in `channel`.
pub open spec fn ascending_by(colors: Seq<Color>, channel: ColorChannel) -> bool {
    forall|i: int, j: int|
        0 <= i < j < colors.len() ==> channel.value_of(colors[i]) <= channel.value_of(colors[j])
}

/// The colours whose `channel` holds `value`, in their order in `colors`.
pub open spec fn with_value(colors: Seq<Color>, channel: ColorChannel, value: int) -> Seq<Color> {
    colors.filter(|c: Color| channel.value_of(c) == value)
}

/// Whether `after` is `before` sorted by `channel` in ascending order, with
/// colours of equal value in that channel left in their order.
pub open spec fn is_stable_sort_by(
    before: Seq<Color>,
    after: Seq<Color>,
    channel: ColorChannel,
) -> bool {
    &&& is_permutation(before, after)
    &&& ascending_by(after, channel)
    &&& forall|value: int| #[trigger]
        with_value(after, channel, value) == with_value(before, channel, value)
}

/// The colours of `colors` whose `channel` lies below `bound`, gathered group
/// by group in ascending order of the value.
pub open spec fn gathered(colors: Seq<Color>, channel: ColorChannel, bound: int) -> Seq<Color>
    decreases bound,
{
    if bound <= 0 {
        Seq::empty()
    } else {
        gathered(colors, channel, bound - 1) + with_value(colors, channel, bound - 1)
    }
}

/// A stable sort has one outcome: two sequences that are both `before`
/// sorted by `channel`, colours of equal value left in their order, are
/// equal.
pub proof fn lemma_stable_sort_unique(
    before: Seq<Color>,
    x: Seq<Color>,
    y: Seq<Color>,
    channel: ColorChannel,
)
    requires
        is_stable_sort_by(before, x, channel),
        is_stable_sort_by(before, y, channel),
    ensures
        x == y,
{
    lemma_permutation_len(before, x);
    lemma_permutation_len(before, y);
    assert forall|value: int| #[trigger]
        with_value(x, channel, value) == with_value(y, channel, value) by {
        assert(with_value(x, channel, value) == with_value(before, channel, value));
        assert(with_value(y, channel, value) == with_value(before, channel, value));
    }
    lemma_ascending_with_same_groups(x, y, channel);
}

/// Gathering all 256 groups of a bucket sorts it, stably.
pub proof fn lemma_gathered_is_sorted(colors: Seq<Color>, channel: ColorChannel)
    ensures
        is_stable_sort_by(colors, gathered(colors, channel, 256), channel),
{
    let sorted = gathered(colors, channel, 256);
    lemma_gathered_groups(colors, channel, 256);
    assert forall|value: int| #[trigger]
        with_value(sorted, channel, value) == with_value(colors, channel, value) by {
        if !(0 <= value < 256) {
            lemma_no_such_value(colors, channel, value);
        }
    }
    assert(sorted.to_multiset() =~= colors.to_multiset()) by {
        assert forall|c: Color| sorted.to_multiset().count(c) == colors.to_multiset().count(c) by {
            lemma_count_within_group(sorted, channel, c);
            lemma_count_within_group(colors, channel, c);
        }
    }
}

/// What has been gathered below `bound` is ascending, holds only values
/// below `bound`, and holds every group below `bound` as the bucket has it.
proof fn lemma_gathered_groups(colors: Seq<Color>, channel: ColorChannel, bound: int)
    requires
        0 <= bound,
    ensures
        ascending_by(gathered(colors, channel, bound), channel),
        forall|i: int|
            0 <= i < gathered(colors, channel, bound).len() ==> channel.value_of(
                #[trigger] gathered(colors, channel, bound)[i],
            ) < bound,
        forall|value: int| #[trigger]
            with_value(gathered(colors, channel, bound), channel, value) == if 0 <= value
                < bound {
                with_value(colors, channel, value)
            } else {
                Seq::empty()
            },
    decreases bound,
{
    let whole = gathered(colors, channel, bound);
    if bound == 0 {
        assert forall|value: int| #[trigger]
            with_value(whole, channel, value) == Seq::<Color>::empty() by {
            lemma_no_such_value(whole, channel, value);
        }
    } else {
        let earlier = gathered(colors, channel, bound - 1);
        let group = with_value(colors, channel, bound - 1);
        lemma_gathered_groups(colors, channel, bound - 1);
        lemma_group_values(colors, channel, bound - 1);
        assert forall|i: int| 0 <= i < whole.len() implies channel.value_of(#[trigger] whole[i])
            < bound by {
            if i < earlier.len() {
                assert(whole[i] == earlier[i]);
            } else {
                assert(whole[i] == group[i - earlier.len()]);
            }
        }
        assert forall|i: int, j: int| 0 <= i < j < whole.len() implies channel.value_of(whole[i])
            <= channel.value_of(whole[j]) by {
            if j < earlier.len() {
                assert(whole[i] == earlier[i] && whole[j] == earlier[j]);
            } else if i < earlier.len() {
                assert(whole[i] == earlier[i] && whole[j] == group[j - earlier.len()]);
            } else {
                assert(whole[i] == group[i - earlier.len()]);
                assert(whole[j] == group[j - earlier.len()]);
            }
        }
        assert forall|value: int| #[trigger]
            with_value(whole, channel, value) == if 0 <= value < bound {
                with_value(colors, channel, value)
            } else {
                Seq::empty()
            } by {
            let keep = |c: Color| channel.value_of(c) == value;
            Seq::filter_distributes_over_add(earlier, group, keep);
            assert(with_value(whole, channel, value) == with_value(earlier, channel, value)
                + with_value(group, channel, value));
            if value == bound - 1 {
                lemma_keep_all(group, keep);
                assert(with_value(earlier, channel, value) + group =~= group);
            } else {
                lemma_no_such_value(group, channel, value);
                assert(with_value(earlier, channel, value) + Seq::<Color>::empty()
                    =~= with_value(earlier, channel, value));
            }
        }
    }
}

/// Every colour of the group of one value holds that value.
proof fn lemma_group_values(colors: Seq<Color>, channel: ColorChannel, value: int)
    ensures
        forall|i: int|
            0 <= i < with_value(colors, channel, value).len() ==> channel.value_of(
                #[trigger] with_value(colors, channel, value)[i],
            ) == value,
{
    let keep = |c: Color| channel.value_of(c) == value;
    let group = with_value(colors, channel, value);
    assert forall|i: int| 0 <= i < group.len() implies channel.value_of(#[trigger] group[i])
        == value by {
        colors.lemma_filter_pred(keep, i);
    }
}

/// A sequence in which no colour holds `value` has an empty group of it.
proof fn lemma_no_such_value(colors: Seq<Color>, channel: ColorChannel, value: int)
    requires
        forall|i: int| 0 <= i < colors.len() ==> channel.value_of(#[trigger] colors[i]) != value,
    ensures
        with_value(colors, channel, value) == Seq::<Color>::empty(),
    decreases colors.len(),
{
    reveal(Seq::filter);
    if colors.len() > 0 {
        let rest = colors.drop_last();
        assert forall|i: int| 0 <= i < rest.len() implies channel.value_of(#[trigger] rest[i])
            != value by {
            assert(rest[i] == colors[i]);
        }
        lemma_no_such_value(rest, channel, value);
    }
    assert(with_value(colors, channel, value) =~= Seq::<Color>::empty());
}

/// A test that every item passes keeps the whole sequence.
proof fn lemma_keep_all(s: Seq<Color>, keep: spec_fn(Color) -> bool)
    requires
        forall|i: int| 0 <= i < s.len() ==> keep(#[trigger] s[i]),
    ensures
        s.filter(keep) == s,
    decreases s.len(),
{
    reveal(Seq::filter);
    if s.len() > 0 {
        let rest = s.drop_last();
        assert forall|i: int| 0 <= i < rest.len() implies keep(#[trigger] rest[i]) by {
            assert(rest[i] == s[i]);
        }
        lemma_keep_all(rest, keep);
        assert(s.filter(keep) =~= s);
    } else {
        assert(s.filter(keep) =~= s);
    }
}

/// A colour occurs in a sequence as often as in the group of its value.
proof fn lemma_count_within_group(colors: Seq<Color>, channel: ColorChannel, c: Color)
    ensures
        colors.to_multiset().count(c) == with_value(
            colors,
            channel,
            channel.value_of(c),
        ).to_multiset().count(c),
    decreases colors.len(),
{
    broadcast use vstd::multiset::group_multiset_axioms;

    reveal(Seq::filter);
    let value = channel.value_of(c);
    if colors.len() == 0 {
        lemma_empty_to_multiset(colors);
        lemma_empty_to_multiset(with_value(colors, channel, value));
    } else {
        let rest = colors.drop_last();
        let last = colors.last();
        lemma_count_within_group(rest, channel, c);
        assert(colors =~= rest.push(last));
        to_multiset_build(rest, last);
        to_multiset_build(with_value(rest, channel, value), last);
    }
}

/// Two ascending sequences that hold, for every value of the channel, the
/// same colours of that value in the same order are one sequence.
proof fn lemma_ascending_with_same_groups(x: Seq<Color>, y: Seq<Color>, channel: ColorChannel)
    requires
        x.len() == y.len(),
        ascending_by(x, channel),
        ascending_by(y, channel),
        forall|value: int| #[trigger]
            with_value(x, channel, value) == with_value(y, channel, value),
    ensures
        x == y,
    decreases x.len(),
{
    if x.len() == 0 {
        assert(x =~= y);
    } else {
        reveal(Seq::filter);
        let top = channel.value_of(x.last());
        let other_top = channel.value_of(y.last());
        assert(top <= other_top) by {
            let group = with_value(x, channel, top);
            assert(group[group.len() - 1] == x.last());
            assert(group == with_value(y, channel, top));
            lemma_group_member(y, channel, top, x.last());
        }
        assert(other_top <= top) by {
            let group = with_value(y, channel, other_top);
            assert(group[group.len() - 1] == y.last());
            assert(group == with_value(x, channel, other_top));
            lemma_group_member(x, channel, other_top, y.last());
        }
        assert(with_value(x, channel, top).last() == x.last());
        assert(with_value(y, channel, top).last() == y.last());
        assert forall|value: int| #[trigger]
            with_value(x.drop_last(), channel, value) == with_value(
                y.drop_last(),
                channel,
                value,
            ) by {
            assert(with_value(x, channel, value) == with_value(y, channel, value));
            if value == top {
                assert(with_value(x.drop_last(), channel, value) =~= with_value(
                    x,
                    channel,
                    value,
                ).drop_last());
                assert(with_value(y.drop_last(), channel, value) =~= with_value(
                    y,
                    channel,
                    value,
                ).drop_last());
            }
        }
        lemma_ascending_with_same_groups(x.drop_last(), y.drop_last(), channel);
        assert(x =~= x.drop_last().push(x.last()));
        assert(y =~= y.drop_last().push(y.last()));
    }
}

/// A colour among those of one value lies in the sequence at a place that
/// holds that value, so in an ascending sequence the value is at most that
/// of the last colour.
proof fn lemma_group_member(colors: Seq<Color>, channel: ColorChannel, value: int, member: Color)
    requires
        ascending_by(colors, channel),
        with_value(colors, channel, value).contains(member),
    ensures
        colors.len() > 0,
        channel.value_of(member) == value,
        value <= channel.value_of(colors.last()),
{
    let keep = |c: Color| channel.value_of(c) == value;
    let group = colors.filter(keep);
    let at = choose|i: int| 0 <= i < group.len() && group[i] == member;
    colors.lemma_filter_pred(keep, at);
    colors.lemma_filter_contains_rev(keep, member);
    let place = choose|i: int| 0 <= i < colors.len() && colors[i] == member;
    assert(channel.value_of(colors[place]) <= channel.value_of(colors[colors.len() - 1]));
}

/// Sorts `colors` by one channel in ascending order. The sort is stable:
/// colours with the same value in that channel keep their order.
pub fn sort_by_channel(colors: &mut Vec<Color>, channel: &ColorChannel)
    ensures
        is_stable_sort_by(old(colors)@, final(colors)@, *channel),
{
    let ghost before = colors@;
    let mut groups: Vec<Vec<Color>> = Vec::new();
    let mut value: usize = 0;
    while value < 256
        invariant
            value <= 256,
            groups.len() == value,
            forall|u: int| 0 <= u < value ==> (#[trigger] groups[u])@.len() == 0,
        decreases 256 - value,
    {
        groups.push(Vec::new());
        value += 1;
    }
    let n = colors.len();
    let mut i: usize = 0;
    proof {
        assert forall|u: int| 0 <= u < 256 implies (#[trigger] groups[u])@ == with_value(
            before.take(0),
            *channel,
            u,
        ) by {
            lemma_no_such_value(before.take(0), *channel, u);
        }
    }
    while i < n
        invariant
            n == colors.len(),
            i <= n,
            before == colors@,
            groups.len() == 256,
            forall|u: int|
                0 <= u < 256 ==> (#[trigger] groups[u])@ == with_value(
                    before.take(i as int),
                    *channel,
                    u,
                ),
        decreases n - i,
    {
        let color = colors[i];
        let key = channel.value(&color) as usize;
        let ghost dealt = groups@;
        groups[key].push(color);
        proof {
            let seen = before.take(i as int);
            assert(seen.push(color) =~= before.take(i + 1));
            assert forall|u: int| 0 <= u < 256 implies (#[trigger] groups[u])@ == with_value(
                before.take(i + 1),
                *channel,
                u,
            ) by {
                seen.lemma_filter_push(color, |c: Color| channel.value_of(c) == u);
                assert(dealt[u]@ == with_value(seen, *channel, u));
            }
        }
        i += 1;
    }
    proof {
        assert(before.take(n as int) =~= before);
    }
    let mut sorted: Vec<Color> = Vec::new();
    let mut value: usize = 0;
    while value < 256
        invariant
            value <= 256,
            groups.len() == 256,
            forall|u: int|
                0 <= u < 256 ==> (#[trigger] groups[u])@ == with_value(before, *channel, u),
            sorted@ == gathered(before, *channel, value as int),
        decreases 256 - value,
    {
        let group = &groups[value];
        let size = group.len();
        let mut j: usize = 0;
        while j < size
            invariant
                size == group.len(),
                j <= size,
                sorted@ == gathered(before, *channel, value as int) + group@.take(j as int),
            decreases size - j,
        {
            proof {
                assert(group@.take(j + 1) =~= group@.take(j as int).push(group@[j as int]));
            }
            sorted.push(group[j]);
            j += 1;
        }
        proof {
            assert(group@.take(size as int) =~= group@);
        }
        value += 1;
    }
    proof {
        lemma_gathered_is_sorted(before, *channel);
    }
    *colors = sorted;
}

} // verus!
