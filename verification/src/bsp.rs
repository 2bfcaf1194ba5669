//! Recursive box-splitting (median-cut) quantization: an ordered list of
//! leaf histograms, grown by repeatedly splitting the heaviest leaf that
//! still holds more than one color along its widest channel at the
//! pixel-count-weighted mean.

use vstd::prelude::*;

use crate::color::ColorU8;
use crate::histogram::{
    chan, entries_chan_max, entries_chan_min, entries_chan_sum, entries_total, ge_part, lt_part,
    pred_ge, Channel, ColorCount, ColorHistogram,
};
use crate::histogram::{
    lemma_chan_max_properties, lemma_chan_min_properties, lemma_chan_sum_bounds,
    lemma_chan_sum_strict, lemma_entries_total_ge_len, lemma_parts_witness,
};

verus! {

/// Sum over a list of leaves of the pixel count each records for one
/// color.
pub open spec fn leaves_count(leaves: Seq<ColorHistogram>, c: ColorU8) -> nat
    decreases leaves.len(),
{
    if leaves.len() == 0 {
        0
    } else {
        leaves_count(leaves.drop_last(), c) + leaves.last().count(c)
    }
}

/// Width of one channel's value range over a leaf's colors.
pub open spec fn chan_range(s: Seq<ColorCount>, ch: Channel) -> int {
    entries_chan_max(s, ch) - entries_chan_min(s, ch)
}

/// The channel with the widest value range, ties resolved in the fixed
/// priority red before green before blue.
pub open spec fn widest_channel(s: Seq<ColorCount>) -> Channel {
    if chan_range(s, Channel::Red) >= chan_range(s, Channel::Green) && chan_range(s, Channel::Red)
        >= chan_range(s, Channel::Blue) {
        Channel::Red
    } else if chan_range(s, Channel::Green) >= chan_range(s, Channel::Blue) {
        Channel::Green
    } else {
        Channel::Blue
    }
}

/// Numerator of the median-cut split threshold: the weighted sum of the
/// widest channel. The threshold itself is the weighted mean
/// `split_num / split_den`, kept as an exact rational.
pub open spec fn split_num(s: Seq<ColorCount>) -> u128 {
    entries_chan_sum(s, widest_channel(s)) as u128
}

/// Denominator of the median-cut split threshold: the total pixel count.
pub open spec fn split_den(s: Seq<ColorCount>) -> u64 {
    entries_total(s) as u64
}

/// The at-or-above-mean half of a leaf's median-cut split.
pub open spec fn split_ge(s: Seq<ColorCount>) -> Seq<ColorCount> {
    ge_part(s, widest_channel(s), split_num(s), split_den(s))
}

/// The below-mean half of a leaf's median-cut split.
pub open spec fn split_lt(s: Seq<ColorCount>) -> Seq<ColorCount> {
    lt_part(s, widest_channel(s), split_num(s), split_den(s))
}

/// The entry lists of a list of leaves.
pub open spec fn leaves_entries(leaves: Seq<ColorHistogram>) -> Seq<Seq<ColorCount>> {
    leaves.map_values(|h: ColorHistogram| h.entries@)
}

/// The leaf the next split works on: among the leaves with more than one
/// unique color, the one with the greatest pixel count, the earliest
/// winning ties; the list's length when no leaf qualifies.
pub open spec fn select_leaf(state: Seq<Seq<ColorCount>>) -> int
    decreases state.len(),
{
    if state.len() == 0 {
        0
    } else {
        let k = select_leaf(state.drop_last());
        if state.last().len() >= 2 && (k == state.len() - 1 || entries_total(state.last())
            > entries_total(state[k])) {
            state.len() - 1
        } else if k == state.len() - 1 {
            state.len() as int
        } else {
            k
        }
    }
}

/// The whole median-cut growth: starting from the given leaf list, keep
/// replacing the selected leaf by its at-or-above-mean half and appending
/// the below-mean half, until the budget is reached or no leaf has two
/// colors left to separate.
pub open spec fn grow(state: Seq<Seq<ColorCount>>, budget: int) -> Seq<Seq<ColorCount>>
    decreases budget - state.len(),
        via grow_decreases
{
    if state.len() >= budget {
        state
    } else {
        let b = select_leaf(state);
        if b == state.len() {
            state
        } else {
            grow(state.update(b, split_ge(state[b])).push(split_lt(state[b])), budget)
        }
    }
}

/// The selection is either a valid position of a splittable leaf or the
/// list's length.
pub proof fn lemma_select_leaf_range(state: Seq<Seq<ColorCount>>)
    ensures
        0 <= select_leaf(state) <= state.len(),
        select_leaf(state) < state.len() ==> state[select_leaf(state)].len() >= 2,
    decreases state.len(),
{
    if state.len() > 0 {
        lemma_select_leaf_range(state.drop_last());
        assert(forall|t: int| 0 <= t < state.len() - 1 ==> state.drop_last()[t] == #[trigger] state[t]);
    }
}

/// Each splitting step grows the leaf list by one, toward the budget.
#[via_fn]
proof fn grow_decreases(state: Seq<Seq<ColorCount>>, budget: int) {
    if state.len() < budget {
        let b = select_leaf(state);
        lemma_select_leaf_range(state);
        if b != state.len() {
            assert(state.update(b, split_ge(state[b])).push(split_lt(state[b])).len()
                == state.len() + 1);
        }
    }
}

/// Replacing one leaf changes the color's sum by the difference between
/// the old and the new leaf's count.
pub proof fn lemma_leaves_count_update(
    s: Seq<ColorHistogram>,
    i: int,
    h: ColorHistogram,
    c: ColorU8,
)
    requires
        0 <= i < s.len(),
    ensures
        leaves_count(s.update(i, h), c) + s[i].count(c) == leaves_count(s, c) + h.count(c),
    decreases s.len(),
{
    if i == s.len() - 1 {
        assert(s.update(i, h).drop_last() =~= s.drop_last());
    } else {
        assert(s.update(i, h).drop_last() =~= s.drop_last().update(i, h));
        lemma_leaves_count_update(s.drop_last(), i, h, c);
    }
}

/// Median-cut split of one leaf: partitions its colors by the widest
/// channel, comparing each color's channel value against the
/// pixel-count-weighted mean. Colors at or above the mean form the first
/// result. A leaf with at least two unique colors always splits into two
/// non-empty halves, because the mean then lies strictly above the
/// channel's minimum. An empty leaf yields two empty sentinel histograms.
pub fn partition_leaf(leaf: &ColorHistogram) -> (parts: (ColorHistogram, ColorHistogram))
    requires
        leaf.wf(),
    ensures
        parts.0.wf(),
        parts.1.wf(),
        !leaf.is_empty() ==> parts.0.entries@ == split_ge(leaf.entries@),
        !leaf.is_empty() ==> parts.1.entries@ == split_lt(leaf.entries@),
        parts.0.entries@.len() + parts.1.entries@.len() == leaf.entries@.len(),
        parts.0.total() + parts.1.total() == leaf.total(),
        forall|c: ColorU8| #![auto] parts.0.count(c) + parts.1.count(c) == leaf.count(c),
        forall|c: ColorU8| #![auto] parts.0.count(c) == 0 || parts.1.count(c) == 0,
        leaf.entries@.len() >= 2 ==> parts.0.entries@.len() >= 1 && parts.1.entries@.len() >= 1,
{
    let ghost s = leaf.entries@;
    if leaf.unique_color_count() == 0 {
        return (ColorHistogram::empty(), ColorHistogram::empty());
    }
    let min_r = leaf.channel_min(Channel::Red);
    let max_r = leaf.channel_max(Channel::Red);
    let min_g = leaf.channel_min(Channel::Green);
    let max_g = leaf.channel_max(Channel::Green);
    let min_b = leaf.channel_min(Channel::Blue);
    let max_b = leaf.channel_max(Channel::Blue);
    proof {
        lemma_chan_min_properties(s, Channel::Red);
        lemma_chan_max_properties(s, Channel::Red);
        lemma_chan_min_properties(s, Channel::Green);
        lemma_chan_max_properties(s, Channel::Green);
        lemma_chan_min_properties(s, Channel::Blue);
        lemma_chan_max_properties(s, Channel::Blue);
        assert(min_r <= chan(s[0].color, Channel::Red) <= max_r);
        assert(min_g <= chan(s[0].color, Channel::Green) <= max_g);
        assert(min_b <= chan(s[0].color, Channel::Blue) <= max_b);
    }
    let r_range = max_r - min_r;
    let g_range = max_g - min_g;
    let b_range = max_b - min_b;
    let ch = if r_range >= g_range && r_range >= b_range {
        Channel::Red
    } else if g_range >= b_range {
        Channel::Green
    } else {
        Channel::Blue
    };
    proof {
        assert(ch == widest_channel(s));
        lemma_entries_total_ge_len(s);
    }
    let total = leaf.total_pixel_count();
    let sum = leaf.channel_sum(ch);
    let parts = leaf.partition(ch, sum, total as u64);
    proof {
        if s.len() >= 2 {
            // two distinct colors must differ in some channel, so the
            // widest channel's range is positive
            assert(s[0].color != s[1].color);
            assert(chan_range(s, ch) >= 1) by {
                if s[0].color.r != s[1].color.r {
                    assert(entries_chan_max(s, Channel::Red) > entries_chan_min(s, Channel::Red));
                } else if s[0].color.g != s[1].color.g {
                    assert(entries_chan_max(s, Channel::Green) > entries_chan_min(
                        s,
                        Channel::Green,
                    ));
                } else {
                    assert(s[0].color.b != s[1].color.b);
                    assert(entries_chan_max(s, Channel::Blue) > entries_chan_min(s, Channel::Blue));
                }
            }
            // the maximum entry reaches the mean: the first half is non-empty
            lemma_chan_sum_bounds(s, ch);
            let jx = choose|j: int| 0 <= j < s.len() && chan(s[j].color, ch) == entries_chan_max(
                s,
                ch,
            );
            assert(pred_ge(s[jx].color, ch, split_num(s), split_den(s)));
            lemma_parts_witness(s, ch, split_num(s), split_den(s), jx);
            // the minimum entry stays strictly below the mean: the second
            // half is non-empty
            lemma_chan_sum_strict(s, ch);
            let jn = choose|j: int| 0 <= j < s.len() && chan(s[j].color, ch) == entries_chan_min(
                s,
                ch,
            );
            assert(!pred_ge(s[jn].color, ch, split_num(s), split_den(s)));
            lemma_parts_witness(s, ch, split_num(s), split_den(s), jn);
        }
    }
    parts
}

/// The median-cut tree: an ordered list of leaf histograms. The leaves
/// partition the input's pixel population; each leaf later contributes
/// one palette entry, its weighted average color.
pub struct BspTree {
    pub leaves: Vec<ColorHistogram>,
}

impl BspTree {
    /// Grows the leaf list from a single histogram until the requested
    /// budget is reached or every leaf holds a single color. Each round
    /// splits the leaf with the greatest pixel count among those with
    /// more than one unique color, the first such leaf winning ties,
    /// replaces it by the at-or-above-mean half and appends the
    /// below-mean half. Because the threshold is an exact rational, a
    /// split of a multi-color leaf always produces two non-empty halves,
    /// so a failed split can never cut growth short. The resulting leaf
    /// list is exactly the `grow` recursion applied to the input.
    #[verifier::loop_isolation(false)]
    pub fn new(distribution: ColorHistogram, max_colors: usize) -> (tree: BspTree)
        requires
            distribution.wf(),
            max_colors >= 1,
        ensures
            forall|i: int|
                0 <= i < tree.leaves@.len() ==> (#[trigger] tree.leaves@[i]).wf()
                    && tree.leaves@[i].entries@.len() >= 1,
            tree.leaves@.len() <= max_colors,
            distribution.is_empty() ==> tree.leaves@.len() == 0,
            !distribution.is_empty() ==> tree.leaves@.len() >= 1,
            forall|c: ColorU8| #![auto] leaves_count(tree.leaves@, c) == distribution.count(c),
            forall|i: int, j: int, c: ColorU8|
                #![trigger tree.leaves@[i].count(c), tree.leaves@[j].count(c)]
                0 <= i < j < tree.leaves@.len() ==> tree.leaves@[i].count(c) == 0
                    || tree.leaves@[j].count(c) == 0,
            tree.leaves@.len() == max_colors || forall|i: int|
                0 <= i < tree.leaves@.len() ==> (#[trigger] tree.leaves@[i]).entries@.len() == 1,
            !distribution.is_empty() ==> leaves_entries(tree.leaves@) == grow(
                seq![distribution.entries@],
                max_colors as int,
            ),
    {
        let ghost dist = distribution;
        let mut leaves: Vec<ColorHistogram> = Vec::new();
        if distribution.unique_color_count() == 0 {
            return BspTree { leaves };
        }
        leaves.push(distribution);
        proof {
            assert(leaves@.drop_last() =~= Seq::<ColorHistogram>::empty());
            assert forall|c: ColorU8| #![auto] leaves_count(leaves@, c) == dist.count(c) by {
                assert(leaves_count(Seq::<ColorHistogram>::empty(), c) == 0);
            }
            assert(leaves_entries(leaves@) =~= seq![dist.entries@]);
        }
        let mut done = false;
        while !done && leaves.len() < max_colors
            invariant
                1 <= leaves@.len() <= max_colors,
                forall|i: int|
                    0 <= i < leaves@.len() ==> (#[trigger] leaves@[i]).wf()
                        && leaves@[i].entries@.len() >= 1,
                forall|c: ColorU8| #![auto] leaves_count(leaves@, c) == dist.count(c),
                forall|i: int, j: int, c: ColorU8|
                    #![trigger leaves@[i].count(c), leaves@[j].count(c)]
                    0 <= i < j < leaves@.len() ==> leaves@[i].count(c) == 0 || leaves@[j].count(c)
                        == 0,
                done ==> forall|i: int|
                    0 <= i < leaves@.len() ==> (#[trigger] leaves@[i]).entries@.len() == 1,
                grow(leaves_entries(leaves@), max_colors as int) == grow(
                    seq![dist.entries@],
                    max_colors as int,
                ),
                done ==> select_leaf(leaves_entries(leaves@)) == leaves@.len(),
            decreases max_colors - leaves@.len() + (if done { 0int } else { 1int }),
        {
            // select the splittable leaf with the most pixels; the first
            // one wins ties, keeping the growth deterministic
            let ghost st = leaves_entries(leaves@);
            proof {
                assert(forall|t: int| 0 <= t < st.len() ==> #[trigger] st[t]
                    == leaves@[t].entries@);
            }
            let mut best: usize = leaves.len();
            let mut best_count: usize = 0;
            let mut j: usize = 0;
            while j < leaves.len()
                invariant
                    j <= leaves@.len(),
                    st == leaves_entries(leaves@),
                    st.len() == leaves@.len(),
                    forall|t: int| 0 <= t < st.len() ==> #[trigger] st[t] == leaves@[t].entries@,
                    best == leaves@.len() || (best < j && leaves@[best as int].entries@.len() >= 2
                        && best_count == entries_total(st[best as int])),
                    best == leaves@.len() ==> forall|t: int|
                        0 <= t < j ==> (#[trigger] leaves@[t]).entries@.len() < 2,
                    best == leaves@.len() ==> select_leaf(st.take(j as int)) == j,
                    best < leaves@.len() ==> best == select_leaf(st.take(j as int)),
                decreases leaves@.len() - j,
            {
                proof {
                    assert(st.take(j + 1).drop_last() =~= st.take(j as int));
                    assert(forall|t: int|
                        0 <= t <= j ==> st.take(j + 1)[t] == #[trigger] st[t]);
                    assert(st.take(j + 1).last() == st[j as int]);
                }
                if leaves[j].unique_color_count() > 1 {
                    let pc = leaves[j].total_pixel_count();
                    if best == leaves.len() || pc > best_count {
                        best = j;
                        best_count = pc;
                    }
                }
                j += 1;
            }
            proof {
                assert(st.take(st.len() as int) =~= st);
            }
            if best == leaves.len() {
                // every leaf is down to a single color: nothing to split
                done = true;
            } else {
            let (greater_equal, less) = partition_leaf(&leaves[best]);
            let ghost before = leaves@;
            leaves.set(best, greater_equal);
            leaves.push(less);
            proof {
                assert(leaves@.drop_last() =~= before.update(best as int, greater_equal));
                assert forall|c: ColorU8| #![auto] leaves_count(leaves@, c) == dist.count(c) by {
                    lemma_leaves_count_update(before, best as int, greater_equal, c);
                }
                // one unfolding of the growth recursion: the halves are
                // exactly the spec split of the selected leaf
                let new_st = leaves_entries(leaves@);
                let target = st.update(best as int, split_ge(st[best as int])).push(
                    split_lt(st[best as int]),
                );
                assert(greater_equal.entries@ == split_ge(st[best as int]));
                assert(less.entries@ == split_lt(st[best as int]));
                assert forall|t: int| 0 <= t < new_st.len() implies #[trigger] new_st[t]
                    == target[t] by {
                    assert(new_st[t] == leaves@[t].entries@);
                    if t < before.len() && t != best {
                        assert(leaves@[t] == before[t]);
                        assert(st[t] == before[t].entries@);
                    }
                }
                assert(new_st =~= target);
                assert(select_leaf(st) == best);
                assert(grow(st, max_colors as int) == grow(new_st, max_colors as int));
                assert forall|i: int, j: int, c: ColorU8|
                    #![trigger leaves@[i].count(c), leaves@[j].count(c)]
                    0 <= i < j < leaves@.len() implies leaves@[i].count(c) == 0
                    || leaves@[j].count(c) == 0 by {
                    let b = best as int;
                    if j == leaves@.len() - 1 {
                        assert(leaves@[j] == less);
                        if i == b {
                            assert(leaves@[i] == greater_equal);
                        } else {
                            assert(leaves@[i] == before[i]);
                            // the new half holds only colors of the replaced leaf
                            assert(before[i].count(c) == 0 || before[b].count(c) == 0);
                        }
                    } else {
                        if i == b {
                            assert(leaves@[i] == greater_equal && leaves@[j] == before[j]);
                            assert(before[b].count(c) == 0 || before[j].count(c) == 0);
                        } else if j == b {
                            assert(leaves@[i] == before[i] && leaves@[j] == greater_equal);
                            assert(before[i].count(c) == 0 || before[b].count(c) == 0);
                        } else {
                            assert(leaves@[i] == before[i] && leaves@[j] == before[j]);
                            assert(before[i].count(c) == 0 || before[j].count(c) == 0);
                        }
                    }
                }
            }
            }
        }
        BspTree { leaves }
    }
}

} // verus!
