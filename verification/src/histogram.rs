//! A color histogram: the unique colors of a pixel population together
//! with how many pixels carry each color.
//!
//! Entries are kept in first-seen order, so building a histogram from the
//! same pixel sequence always yields the same entry order and every
//! computation downstream is reproducible.

use vstd::prelude::*;

use crate::color::ColorU8;

verus! {

/// One histogram entry: a unique color and its pixel count.
#[derive(Clone, Copy, Debug, PartialEq, Eq, Structural)]
pub struct ColorCount {
    pub color: ColorU8,
    pub count: usize,
}

/// One of the three color channels, in the fixed priority order used to
/// break ties when the widest channel is chosen.
#[derive(Clone, Copy, Debug, PartialEq, Eq, Structural)]
pub enum Channel {
    Red,
    Green,
    Blue,
}

/// The value of one channel of a color.
pub open spec fn chan(c: ColorU8, ch: Channel) -> u8 {
    match ch {
        Channel::Red => c.r,
        Channel::Green => c.g,
        Channel::Blue => c.b,
    }
}

/// Reads one channel of a color.
pub fn channel_value(c: &ColorU8, ch: Channel) -> (v: u8)
    ensures
        v == chan(*c, ch),
{
    match ch {
        Channel::Red => c.r,
        Channel::Green => c.g,
        Channel::Blue => c.b,
    }
}

/// Total pixel count held by a sequence of histogram entries.
pub open spec fn entries_total(s: Seq<ColorCount>) -> nat
    decreases s.len(),
{
    if s.len() == 0 {
        0
    } else {
        entries_total(s.drop_last()) + s.last().count as nat
    }
}

/// Pixel count a sequence of entries holds for one particular color.
pub open spec fn entries_count(s: Seq<ColorCount>, c: ColorU8) -> nat
    decreases s.len(),
{
    if s.len() == 0 {
        0
    } else {
        entries_count(s.drop_last(), c) + if s.last().color == c {
            s.last().count as nat
        } else {
            0nat
        }
    }
}

/// Pixel-count-weighted sum of one channel over the entries.
pub open spec fn entries_chan_sum(s: Seq<ColorCount>, ch: Channel) -> nat
    decreases s.len(),
{
    if s.len() == 0 {
        0
    } else {
        entries_chan_sum(s.drop_last(), ch) + s.last().count as nat * chan(s.last().color, ch)
            as nat
    }
}

/// Smallest value of one channel over the entries (255 for no entries).
pub open spec fn entries_chan_min(s: Seq<ColorCount>, ch: Channel) -> u8
    decreases s.len(),
{
    if s.len() == 0 {
        255
    } else {
        let m = entries_chan_min(s.drop_last(), ch);
        if chan(s.last().color, ch) < m {
            chan(s.last().color, ch)
        } else {
            m
        }
    }
}

/// Largest value of one channel over the entries (0 for no entries).
pub open spec fn entries_chan_max(s: Seq<ColorCount>, ch: Channel) -> u8
    decreases s.len(),
{
    if s.len() == 0 {
        0
    } else {
        let m = entries_chan_max(s.drop_last(), ch);
        if chan(s.last().color, ch) > m {
            chan(s.last().color, ch)
        } else {
            m
        }
    }
}

/// Aggregated colors and pixel counts for an arbitrary color population.
pub struct ColorHistogram {
    pub entries: Vec<ColorCount>,
}

impl ColorHistogram {
    /// Every color appears in at most one entry, every entry counts at
    /// least one pixel, and the total pixel count is machine-representable.
    pub open spec fn wf(self) -> bool {
        &&& forall|i: int, j: int|
            0 <= i < j < self.entries@.len() ==> self.entries@[i].color != self.entries@[j].color
        &&& forall|i: int| 0 <= i < self.entries@.len() ==> self.entries@[i].count >= 1
        &&& entries_total(self.entries@) <= usize::MAX
    }

    /// Pixel count recorded for one color.
    pub open spec fn count(self, c: ColorU8) -> nat {
        entries_count(self.entries@, c)
    }

    /// Total pixel count over all colors.
    pub open spec fn total(self) -> nat {
        entries_total(self.entries@)
    }

    /// True if the histogram records no colors at all.
    pub open spec fn is_empty(self) -> bool {
        self.entries@.len() == 0
    }

    /// A histogram with no colors, the explicit sentinel for an absent
    /// population.
    pub fn empty() -> (h: ColorHistogram)
        ensures
            h.wf(),
            h.entries@.len() == 0,
            h.total() == 0,
    {
        ColorHistogram { entries: Vec::new() }
    }

    /// Number of unique colors.
    pub fn unique_color_count(&self) -> (n: usize)
        ensures
            n == self.entries@.len(),
    {
        self.entries.len()
    }

    /// The color of the entry at one position, in first-seen order.
    pub fn color_at(&self, i: usize) -> (c: ColorU8)
        requires
            i < self.entries@.len(),
        ensures
            c == self.entries@[i as int].color,
    {
        self.entries[i].color
    }

    /// The pixel count of the entry at one position.
    pub fn count_at(&self, i: usize) -> (n: usize)
        requires
            i < self.entries@.len(),
        ensures
            n == self.entries@[i as int].count,
    {
        self.entries[i].count
    }

    /// Records one more pixel of the given color, extending the entry
    /// list if the color is new.
    #[verifier::loop_isolation(false)]
    pub fn add(&mut self, color: ColorU8)
        requires
            old(self).wf(),
            old(self).total() < usize::MAX,
        ensures
            final(self).wf(),
            final(self).count(color) == old(self).count(color) + 1,
            forall|c: ColorU8| c != color ==> final(self).count(c) == old(self).count(c),
            final(self).total() == old(self).total() + 1,
            final(self).entries@.len() >= 1,
            old(self).entries@.len() <= final(self).entries@.len() <= old(self).entries@.len()
                + 1,
            old(self).count(color) == 0 ==> final(self).entries@ == old(self).entries@.push(
                ColorCount { color, count: 1 },
            ),
            old(self).count(color) > 0 ==> exists|i: int|
                0 <= i < old(self).entries@.len() && (#[trigger] old(self).entries@[i]).color
                    == color && final(self).entries@ == old(self).entries@.update(
                    i,
                    ColorCount { color, count: (old(self).entries@[i].count + 1) as usize },
                ),
    {
        let ghost s0 = self.entries@;
        let n = self.entries.len();
        let mut i: usize = 0;
        while i < n
            invariant
                n == self.entries@.len(),
                i <= n,
                *self == *old(self),
                forall|j: int| 0 <= j < i ==> self.entries@[j].color != color,
            decreases n - i,
        {
            if self.entries[i].color == color {
                let cnt = self.entries[i].count;
                proof {
                    lemma_entry_count_le_total(s0, i as int);
                }
                self.entries.set(i, ColorCount { color, count: cnt + 1 });
                proof {
                    let v = ColorCount { color, count: (cnt + 1) as usize };
                    lemma_entries_count_at(s0, i as int);
                    assert(s0[i as int].color == color && self.entries@ == s0.update(
                        i as int,
                        v,
                    ));
                    lemma_entries_total_update(s0, i as int, v);
                    assert forall|c: ColorU8| true implies entries_count(self.entries@, c)
                        == entries_count(s0, c) + if c == color {
                        1nat
                    } else {
                        0nat
                    } by {
                        lemma_entries_count_update(s0, i as int, v, c);
                    }
                }
                return ;
            }
            i += 1;
        }
        self.entries.push(ColorCount { color, count: 1 });
        proof {
            let v = ColorCount { color, count: 1usize };
            lemma_entries_count_absent(s0, color);
            assert(self.entries@.drop_last() =~= s0);
            assert forall|c: ColorU8| true implies entries_count(self.entries@, c)
                == entries_count(s0, c) + if c == color {
                1nat
            } else {
                0nat
            } by {
            }
        }
    }

    /// Total number of pixels recorded over all entries.
    #[verifier::loop_isolation(false)]
    pub fn total_pixel_count(&self) -> (n: usize)
        requires
            self.wf(),
        ensures
            n == self.total(),
    {
        let ghost s = self.entries@;
        let mut n: usize = 0;
        let mut i: usize = 0;
        while i < self.entries.len()
            invariant
                self.wf(),
                i <= self.entries@.len(),
                s == self.entries@,
                n == entries_total(s.take(i as int)),
            decreases self.entries@.len() - i,
        {
            proof {
                lemma_entries_total_take_step(s, i as int);
                lemma_entries_total_take_le(s, i + 1);
            }
            n = n + self.entries[i].count;
            i += 1;
        }
        proof {
            assert(s.take(s.len() as int) =~= s);
        }
        n
    }

    /// Smallest value of one channel over the unique colors.
    #[verifier::loop_isolation(false)]
    pub fn channel_min(&self, ch: Channel) -> (m: u8)
        ensures
            m == entries_chan_min(self.entries@, ch),
    {
        let ghost s = self.entries@;
        let mut m: u8 = 255;
        let mut i: usize = 0;
        while i < self.entries.len()
            invariant
                i <= self.entries@.len(),
                s == self.entries@,
                m == entries_chan_min(s.take(i as int), ch),
            decreases self.entries@.len() - i,
        {
            proof {
                assert(s.take(i + 1).drop_last() =~= s.take(i as int));
            }
            let v = channel_value(&self.entries[i].color, ch);
            if v < m {
                m = v;
            }
            i += 1;
        }
        proof {
            assert(s.take(s.len() as int) =~= s);
        }
        m
    }

    /// Largest value of one channel over the unique colors.
    #[verifier::loop_isolation(false)]
    pub fn channel_max(&self, ch: Channel) -> (m: u8)
        ensures
            m == entries_chan_max(self.entries@, ch),
    {
        let ghost s = self.entries@;
        let mut m: u8 = 0;
        let mut i: usize = 0;
        while i < self.entries.len()
            invariant
                i <= self.entries@.len(),
                s == self.entries@,
                m == entries_chan_max(s.take(i as int), ch),
            decreases self.entries@.len() - i,
        {
            proof {
                assert(s.take(i + 1).drop_last() =~= s.take(i as int));
            }
            let v = channel_value(&self.entries[i].color, ch);
            if v > m {
                m = v;
            }
            i += 1;
        }
        proof {
            assert(s.take(s.len() as int) =~= s);
        }
        m
    }

    /// Pixel-count-weighted sum of one channel over all entries.
    #[verifier::loop_isolation(false)]
    pub fn channel_sum(&self, ch: Channel) -> (n: u128)
        requires
            self.wf(),
        ensures
            n == entries_chan_sum(self.entries@, ch),
    {
        let ghost s = self.entries@;
        let mut n: u128 = 0;
        let mut i: usize = 0;
        while i < self.entries.len()
            invariant
                self.wf(),
                i <= self.entries@.len(),
                s == self.entries@,
                n == entries_chan_sum(s.take(i as int), ch),
            decreases self.entries@.len() - i,
        {
            proof {
                assert(s.take(i + 1).drop_last() =~= s.take(i as int));
                lemma_entries_chan_sum_le(s.take(i + 1), ch);
                lemma_entries_total_take_le(s, i + 1);
                assert(s.take(i + 1).last().count * chan(s.take(i + 1).last().color, ch) <= 255
                    * entries_total(s.take(i + 1))) by {
                    lemma_entries_chan_sum_le(s.take(i + 1), ch);
                }
            }
            let e = self.entries[i];
            let v = channel_value(&e.color, ch);
            n = n + (e.count as u128) * (v as u128);
            i += 1;
        }
        proof {
            assert(s.take(s.len() as int) =~= s);
        }
        n
    }
}

/// The partition predicate of the median cut: one channel of a color,
/// compared against the rational threshold `num / den`.
pub open spec fn pred_ge(c: ColorU8, ch: Channel, num: u128, den: u64) -> bool {
    chan(c, ch) * den >= num
}

/// The entries whose channel value reaches the threshold, in order.
pub open spec fn ge_part(s: Seq<ColorCount>, ch: Channel, num: u128, den: u64) -> Seq<ColorCount>
    decreases s.len(),
{
    if s.len() == 0 {
        Seq::empty()
    } else {
        let rest = ge_part(s.drop_last(), ch, num, den);
        if pred_ge(s.last().color, ch, num, den) {
            rest.push(s.last())
        } else {
            rest
        }
    }
}

/// The entries whose channel value stays below the threshold, in order.
pub open spec fn lt_part(s: Seq<ColorCount>, ch: Channel, num: u128, den: u64) -> Seq<ColorCount>
    decreases s.len(),
{
    if s.len() == 0 {
        Seq::empty()
    } else {
        let rest = lt_part(s.drop_last(), ch, num, den);
        if !pred_ge(s.last().color, ch, num, den) {
            rest.push(s.last())
        } else {
            rest
        }
    }
}

/// The two partition halves split every aggregate of the original
/// entries: entry count, per-color pixel count (each color lands wholly
/// in the half its channel value selects) and total pixel count.
pub proof fn lemma_parts_counts(s: Seq<ColorCount>, ch: Channel, num: u128, den: u64, c: ColorU8)
    ensures
        ge_part(s, ch, num, den).len() + lt_part(s, ch, num, den).len() == s.len(),
        entries_total(ge_part(s, ch, num, den)) + entries_total(lt_part(s, ch, num, den))
            == entries_total(s),
        pred_ge(c, ch, num, den) ==> entries_count(ge_part(s, ch, num, den), c)
            == entries_count(s, c) && entries_count(lt_part(s, ch, num, den), c) == 0,
        !pred_ge(c, ch, num, den) ==> entries_count(lt_part(s, ch, num, den), c)
            == entries_count(s, c) && entries_count(ge_part(s, ch, num, den), c) == 0,
    decreases s.len(),
{
    if s.len() > 0 {
        lemma_parts_counts(s.drop_last(), ch, num, den, c);
        let g = ge_part(s, ch, num, den);
        let l = lt_part(s, ch, num, den);
        let gd = ge_part(s.drop_last(), ch, num, den);
        let ld = lt_part(s.drop_last(), ch, num, den);
        if pred_ge(s.last().color, ch, num, den) {
            assert(g == gd.push(s.last()) && l == ld);
            assert(g.drop_last() =~= gd);
        } else {
            assert(l == ld.push(s.last()) && g == gd);
            assert(l.drop_last() =~= ld);
        }
    }
}

/// Every entry of a partition half is an entry of the original sequence.
pub proof fn lemma_parts_membership(s: Seq<ColorCount>, ch: Channel, num: u128, den: u64)
    ensures
        forall|k: int|
            0 <= k < ge_part(s, ch, num, den).len() ==> exists|i: int|
                0 <= i < s.len() && s[i] == #[trigger] ge_part(s, ch, num, den)[k],
        forall|k: int|
            0 <= k < lt_part(s, ch, num, den).len() ==> exists|i: int|
                0 <= i < s.len() && s[i] == #[trigger] lt_part(s, ch, num, den)[k],
    decreases s.len(),
{
    if s.len() > 0 {
        let d = s.drop_last();
        lemma_parts_membership(d, ch, num, den);
        let g = ge_part(s, ch, num, den);
        let l = lt_part(s, ch, num, den);
        let gd = ge_part(d, ch, num, den);
        let ld = lt_part(d, ch, num, den);
        assert(forall|i: int| 0 <= i < d.len() ==> d[i] == s[i]);
        assert forall|k: int| #![trigger g[k]] 0 <= k < g.len() implies exists|i: int|
            0 <= i < s.len() && s[i] == g[k] by {
            if pred_ge(s.last().color, ch, num, den) && k == g.len() - 1 {
                assert(s[s.len() - 1] == g[k]);
            } else {
                assert(g[k] == gd[k]);
                let i = choose|i: int| 0 <= i < d.len() && d[i] == gd[k];
                assert(s[i] == g[k]);
            }
        }
        assert forall|k: int| #![trigger l[k]] 0 <= k < l.len() implies exists|i: int|
            0 <= i < s.len() && s[i] == l[k] by {
            if !pred_ge(s.last().color, ch, num, den) && k == l.len() - 1 {
                assert(s[s.len() - 1] == l[k]);
            } else {
                assert(l[k] == ld[k]);
                let i = choose|i: int| 0 <= i < d.len() && d[i] == ld[k];
                assert(s[i] == l[k]);
            }
        }
    }
}

/// An entry that satisfies the predicate puts the matching half of the
/// partition at length one or more, and symmetrically for the other half.
pub proof fn lemma_parts_witness(s: Seq<ColorCount>, ch: Channel, num: u128, den: u64, i: int)
    requires
        0 <= i < s.len(),
    ensures
        pred_ge(s[i].color, ch, num, den) ==> ge_part(s, ch, num, den).len() >= 1,
        !pred_ge(s[i].color, ch, num, den) ==> lt_part(s, ch, num, den).len() >= 1,
    decreases s.len(),
{
    if i == s.len() - 1 {
    } else {
        lemma_parts_witness(s.drop_last(), ch, num, den, i);
    }
}

/// Partitioning entries of pairwise distinct colors yields halves of
/// pairwise distinct colors.
pub proof fn lemma_parts_distinct(s: Seq<ColorCount>, ch: Channel, num: u128, den: u64)
    requires
        forall|i: int, j: int| 0 <= i < j < s.len() ==> s[i].color != s[j].color,
    ensures
        forall|i: int, j: int|
            0 <= i < j < ge_part(s, ch, num, den).len() ==> ge_part(s, ch, num, den)[i].color
                != ge_part(s, ch, num, den)[j].color,
        forall|i: int, j: int|
            0 <= i < j < lt_part(s, ch, num, den).len() ==> lt_part(s, ch, num, den)[i].color
                != lt_part(s, ch, num, den)[j].color,
    decreases s.len(),
{
    if s.len() > 0 {
        let d = s.drop_last();
        assert(forall|i: int| 0 <= i < d.len() ==> d[i] == s[i]);
        lemma_parts_distinct(d, ch, num, den);
        lemma_parts_membership(d, ch, num, den);
        let g = ge_part(s, ch, num, den);
        let l = lt_part(s, ch, num, den);
        let gd = ge_part(d, ch, num, den);
        let ld = lt_part(d, ch, num, den);
        assert forall|i: int, j: int| 0 <= i < j < g.len() implies g[i].color != g[j].color by {
            if pred_ge(s.last().color, ch, num, den) && j == g.len() - 1 {
                let w = choose|w: int| 0 <= w < d.len() && d[w] == gd[i];
                assert(s[w].color != s[s.len() - 1].color);
            } else {
                assert(g[i] == gd[i] && g[j] == gd[j]);
            }
        }
        assert forall|i: int, j: int| 0 <= i < j < l.len() implies l[i].color != l[j].color by {
            if !pred_ge(s.last().color, ch, num, den) && j == l.len() - 1 {
                let w = choose|w: int| 0 <= w < d.len() && d[w] == ld[i];
                assert(s[w].color != s[s.len() - 1].color);
            } else {
                assert(l[i] == ld[i] && l[j] == ld[j]);
            }
        }
    }
}

/// The pixel-count-weighted mean color of a list of entries, every
/// channel rounded to the nearest integer.
pub open spec fn avg_of(s: Seq<ColorCount>) -> ColorU8 {
    ColorU8 {
        r: avg_round(entries_chan_sum(s, Channel::Red) as int, entries_total(s) as int) as u8,
        g: avg_round(entries_chan_sum(s, Channel::Green) as int, entries_total(s) as int) as u8,
        b: avg_round(entries_chan_sum(s, Channel::Blue) as int, entries_total(s) as int) as u8,
    }
}

/// The pixel-count-weighted mean color of a histogram, every channel
/// rounded to the nearest integer.
pub open spec fn spec_average(h: ColorHistogram) -> ColorU8 {
    avg_of(h.entries@)
}

/// When every entry counts at least one pixel, the total is at least the
/// number of entries.
pub proof fn lemma_entries_total_ge_len(s: Seq<ColorCount>)
    requires
        forall|i: int| 0 <= i < s.len() ==> s[i].count >= 1,
    ensures
        entries_total(s) >= s.len(),
    decreases s.len(),
{
    if s.len() > 0 {
        lemma_entries_total_ge_len(s.drop_last());
    }
}

impl ColorHistogram {
    /// The rounded weighted mean of one channel; it lies within the
    /// channel's [min, max] over the members.
    fn average_channel(&self, ch: Channel) -> (v: u8)
        requires
            self.wf(),
            !self.is_empty(),
        ensures
            v == avg_round(
                entries_chan_sum(self.entries@, ch) as int,
                entries_total(self.entries@) as int,
            ),
            entries_chan_min(self.entries@, ch) <= v <= entries_chan_max(self.entries@, ch),
    {
        let ghost e = self.entries@;
        let total = self.total_pixel_count();
        let sum = self.channel_sum(ch);
        proof {
            lemma_entries_total_ge_len(e);
            lemma_entries_chan_sum_le(e, ch);
            lemma_chan_sum_bounds(e, ch);
            lemma_avg_round_bounds(
                entries_chan_sum(e, ch) as int,
                entries_total(e) as int,
                entries_chan_min(e, ch) as int,
                entries_chan_max(e, ch) as int,
            );
        }
        let t = total as u128;
        ((2 * sum + t) / (2 * t)) as u8
    }

    /// Pixel-count-weighted mean color, every channel rounded to the
    /// nearest integer. Each channel of the result lies within that
    /// channel's [min, max] over the histogram's members.
    pub fn average_color(&self) -> (avg: ColorU8)
        requires
            self.wf(),
            !self.is_empty(),
        ensures
            avg == spec_average(*self),
            forall|ch: Channel|
                #![trigger chan(avg, ch)]
                entries_chan_min(self.entries@, ch) <= chan(avg, ch) <= entries_chan_max(
                    self.entries@,
                    ch,
                ),
    {
        let r = self.average_channel(Channel::Red);
        let g = self.average_channel(Channel::Green);
        let b = self.average_channel(Channel::Blue);
        let avg = ColorU8 { r, g, b };
        proof {
            assert forall|ch: Channel|
                #![trigger chan(avg, ch)]
                entries_chan_min(self.entries@, ch) <= chan(avg, ch) <= entries_chan_max(
                    self.entries@,
                    ch,
                ) by {
                match ch {
                    Channel::Red => {},
                    Channel::Green => {},
                    Channel::Blue => {},
                }
            }
        }
        avg
    }

    /// Splits the histogram by one channel against the rational threshold
    /// `num / den`: colors whose channel value reaches the threshold go to
    /// the first half, the rest to the second, per-color counts preserved.
    #[verifier::loop_isolation(false)]
    pub fn partition(&self, ch: Channel, num: u128, den: u64) -> (parts: (
        ColorHistogram,
        ColorHistogram,
    ))
        requires
            self.wf(),
            den >= 1,
        ensures
            parts.0.wf(),
            parts.1.wf(),
            parts.0.entries@ == ge_part(self.entries@, ch, num, den),
            parts.1.entries@ == lt_part(self.entries@, ch, num, den),
            parts.0.entries@.len() + parts.1.entries@.len() == self.entries@.len(),
            parts.0.total() + parts.1.total() == self.total(),
            forall|c: ColorU8|
                #![auto]
                parts.0.count(c) + parts.1.count(c) == self.count(c),
            forall|c: ColorU8|
                #![auto]
                pred_ge(c, ch, num, den) ==> parts.1.count(c) == 0,
            forall|c: ColorU8|
                #![auto]
                !pred_ge(c, ch, num, den) ==> parts.0.count(c) == 0,
    {
        let ghost s = self.entries@;
        let mut ge = ColorHistogram { entries: Vec::new() };
        let mut lt = ColorHistogram { entries: Vec::new() };
        let mut i: usize = 0;
        while i < self.entries.len()
            invariant
                i <= s.len(),
                ge.entries@ == ge_part(s.take(i as int), ch, num, den),
                lt.entries@ == lt_part(s.take(i as int), ch, num, den),
            decreases s.len() - i,
        {
            let e = self.entries[i];
            let v = channel_value(&e.color, ch);
            proof {
                assert(s.take(i + 1).drop_last() =~= s.take(i as int));
                assert(s.take(i + 1).last() == e);
            }
            proof {
                assert((v as int) * (den as int) <= 255 * (u64::MAX as int)) by (nonlinear_arith)
                    requires
                        v <= 255,
                        den <= u64::MAX,
                ;
            }
            if (v as u128) * (den as u128) >= num {
                ge.entries.push(e);
            } else {
                lt.entries.push(e);
            }
            i += 1;
        }
        proof {
            assert(s.take(s.len() as int) =~= s);
            assert forall|c: ColorU8|
                #![auto]
                {
                    &&& ge.count(c) + lt.count(c) == self.count(c)
                    &&& (pred_ge(c, ch, num, den) ==> lt.count(c) == 0)
                    &&& (!pred_ge(c, ch, num, den) ==> ge.count(c) == 0)
                } by {
                lemma_parts_counts(s, ch, num, den, c);
            }
            lemma_parts_counts(s, ch, num, den, ColorU8 { r: 0, g: 0, b: 0 });
            lemma_parts_membership(s, ch, num, den);
            lemma_parts_distinct(s, ch, num, den);
            assert forall|k: int| 0 <= k < ge.entries@.len() implies ge.entries@[k].count
                >= 1 by {
                let w = choose|w: int| 0 <= w < s.len() && s[w] == ge.entries@[k];
            }
            assert forall|k: int| 0 <= k < lt.entries@.len() implies lt.entries@[k].count
                >= 1 by {
                let w = choose|w: int| 0 <= w < s.len() && s[w] == lt.entries@[k];
            }
        }
        (ge, lt)
    }
}

/// Every single entry counts no more pixels than the whole sequence.
pub proof fn lemma_entry_count_le_total(s: Seq<ColorCount>, i: int)
    requires
        0 <= i < s.len(),
    ensures
        s[i].count <= entries_total(s),
    decreases s.len(),
{
    if i == s.len() - 1 {
    } else {
        lemma_entry_count_le_total(s.drop_last(), i);
    }
}

/// Extending a prefix by one entry adds that entry's count to the prefix
/// total.
pub proof fn lemma_entries_total_take_step(s: Seq<ColorCount>, i: int)
    requires
        0 <= i < s.len(),
    ensures
        entries_total(s.take(i + 1)) == entries_total(s.take(i)) + s[i].count,
{
    assert(s.take(i + 1).drop_last() =~= s.take(i));
}

/// A prefix never holds more pixels than the whole sequence.
pub proof fn lemma_entries_total_take_le(s: Seq<ColorCount>, i: int)
    requires
        0 <= i <= s.len(),
    ensures
        entries_total(s.take(i)) <= entries_total(s),
    decreases s.len() - i,
{
    if i == s.len() {
        assert(s.take(i) =~= s);
    } else {
        lemma_entries_total_take_step(s, i);
        lemma_entries_total_take_le(s, i + 1);
    }
}

/// The weighted channel sum is bounded by 255 pixels of weight each.
pub proof fn lemma_entries_chan_sum_le(s: Seq<ColorCount>, ch: Channel)
    ensures
        entries_chan_sum(s, ch) <= 255 * entries_total(s),
    decreases s.len(),
{
    if s.len() > 0 {
        lemma_entries_chan_sum_le(s.drop_last(), ch);
        let cnt = s.last().count as int;
        let v = chan(s.last().color, ch) as int;
        assert(cnt * v <= cnt * 255) by (nonlinear_arith)
            requires
                0 <= v <= 255,
                cnt >= 0,
        ;
    }
}

/// A color mentioned by no entry has count zero.
pub proof fn lemma_entries_count_absent(s: Seq<ColorCount>, c: ColorU8)
    requires
        forall|i: int| 0 <= i < s.len() ==> s[i].color != c,
    ensures
        entries_count(s, c) == 0,
    decreases s.len(),
{
    if s.len() > 0 {
        lemma_entries_count_absent(s.drop_last(), c);
    }
}

/// In a sequence of pairwise distinct colors, the count recorded for an
/// entry's color is exactly that entry's count field.
pub proof fn lemma_entries_count_at(s: Seq<ColorCount>, i: int)
    requires
        0 <= i < s.len(),
        forall|k: int, j: int| 0 <= k < j < s.len() ==> s[k].color != s[j].color,
    ensures
        entries_count(s, s[i].color) == s[i].count,
    decreases s.len(),
{
    if i == s.len() - 1 {
        lemma_entries_count_absent(s.drop_last(), s[i].color);
    } else {
        lemma_entries_count_at(s.drop_last(), i);
    }
}

/// Replacing one entry shifts the total by the difference of the counts.
pub proof fn lemma_entries_total_update(s: Seq<ColorCount>, i: int, v: ColorCount)
    requires
        0 <= i < s.len(),
    ensures
        entries_total(s.update(i, v)) + s[i].count == entries_total(s) + v.count,
    decreases s.len(),
{
    if i == s.len() - 1 {
        assert(s.update(i, v).drop_last() =~= s.drop_last());
    } else {
        assert(s.update(i, v).drop_last() =~= s.drop_last().update(i, v));
        lemma_entries_total_update(s.drop_last(), i, v);
    }
}

/// Replacing one entry shifts each color's count by the contribution
/// difference of the old and new entry.
pub proof fn lemma_entries_count_update(s: Seq<ColorCount>, i: int, v: ColorCount, c: ColorU8)
    requires
        0 <= i < s.len(),
    ensures
        entries_count(s.update(i, v), c) + (if s[i].color == c {
            s[i].count as nat
        } else {
            0nat
        }) == entries_count(s, c) + (if v.color == c {
            v.count as nat
        } else {
            0nat
        }),
    decreases s.len(),
{
    if i == s.len() - 1 {
        assert(s.update(i, v).drop_last() =~= s.drop_last());
    } else {
        assert(s.update(i, v).drop_last() =~= s.drop_last().update(i, v));
        lemma_entries_count_update(s.drop_last(), i, v, c);
    }
}

/// The channel minimum bounds every entry from below, and some entry
/// attains it.
pub proof fn lemma_chan_min_properties(s: Seq<ColorCount>, ch: Channel)
    requires
        s.len() > 0,
    ensures
        forall|i: int| 0 <= i < s.len() ==> entries_chan_min(s, ch) <= chan(s[i].color, ch),
        exists|i: int| 0 <= i < s.len() && chan(s[i].color, ch) == entries_chan_min(s, ch),
    decreases s.len(),
{
    let m = entries_chan_min(s, ch);
    let d = s.drop_last();
    if s.len() == 1 {
        assert(chan(s[0].color, ch) == m);
    } else {
        lemma_chan_min_properties(d, ch);
        assert(forall|i: int| 0 <= i < d.len() ==> d[i] == s[i]);
        if chan(s.last().color, ch) < entries_chan_min(d, ch) {
            assert(chan(s[s.len() - 1].color, ch) == m);
        } else {
            let j = choose|j: int|
                0 <= j < d.len() && chan(d[j].color, ch) == entries_chan_min(d, ch);
            assert(chan(s[j].color, ch) == m);
        }
        assert forall|i: int| 0 <= i < s.len() implies m <= chan(s[i].color, ch) by {
            if i < s.len() - 1 {
                assert(entries_chan_min(d, ch) <= chan(d[i].color, ch));
            }
        }
    }
}

/// The channel maximum bounds every entry from above, and some entry
/// attains it.
pub proof fn lemma_chan_max_properties(s: Seq<ColorCount>, ch: Channel)
    requires
        s.len() > 0,
    ensures
        forall|i: int| 0 <= i < s.len() ==> chan(s[i].color, ch) <= entries_chan_max(s, ch),
        exists|i: int| 0 <= i < s.len() && chan(s[i].color, ch) == entries_chan_max(s, ch),
    decreases s.len(),
{
    let m = entries_chan_max(s, ch);
    let d = s.drop_last();
    if s.len() == 1 {
        assert(chan(s[0].color, ch) == m);
    } else {
        lemma_chan_max_properties(d, ch);
        assert(forall|i: int| 0 <= i < d.len() ==> d[i] == s[i]);
        if chan(s.last().color, ch) > entries_chan_max(d, ch) {
            assert(chan(s[s.len() - 1].color, ch) == m);
        } else {
            let j = choose|j: int|
                0 <= j < d.len() && chan(d[j].color, ch) == entries_chan_max(d, ch);
            assert(chan(s[j].color, ch) == m);
        }
        assert forall|i: int| 0 <= i < s.len() implies chan(s[i].color, ch) <= m by {
            if i < s.len() - 1 {
                assert(chan(d[i].color, ch) <= entries_chan_max(d, ch));
            }
        }
    }
}

/// The weighted channel sum lies between the minimum and the maximum
/// channel value, each weighted by the total pixel count.
pub proof fn lemma_chan_sum_bounds(s: Seq<ColorCount>, ch: Channel)
    ensures
        entries_chan_min(s, ch) * entries_total(s) <= entries_chan_sum(s, ch),
        entries_chan_sum(s, ch) <= entries_chan_max(s, ch) * entries_total(s),
    decreases s.len(),
{
    if s.len() == 0 {
        assert(entries_total(s) == 0);
        assert(entries_chan_sum(s, ch) == 0);
        assert(entries_chan_min(s, ch) * entries_total(s) == 0) by (nonlinear_arith)
            requires
                entries_total(s) == 0,
        ;
        assert(entries_chan_max(s, ch) * entries_total(s) == 0) by (nonlinear_arith)
            requires
                entries_total(s) == 0,
        ;
    } else {
        let d = s.drop_last();
        lemma_chan_sum_bounds(d, ch);
        let mn = entries_chan_min(s, ch) as int;
        let mx = entries_chan_max(s, ch) as int;
        let mnd = entries_chan_min(d, ch) as int;
        let mxd = entries_chan_max(d, ch) as int;
        let t = entries_total(d) as int;
        let sd = entries_chan_sum(d, ch) as int;
        let cnt = s.last().count as int;
        let v = chan(s.last().color, ch) as int;
        assert(entries_chan_sum(s, ch) == sd + cnt * v);
        assert(entries_total(s) == t + cnt);
        assert(mn <= mnd && mxd <= mx && mn <= v && v <= mx);
        assert(mn * (t + cnt) <= sd + cnt * v) by (nonlinear_arith)
            requires
                mn <= mnd,
                mn <= v,
                t >= 0,
                cnt >= 0,
                mnd * t <= sd,
        ;
        assert(sd + cnt * v <= mx * (t + cnt)) by (nonlinear_arith)
            requires
                mxd <= mx,
                v <= mx,
                t >= 0,
                cnt >= 0,
                sd <= mxd * t,
        ;
        assert(entries_chan_min(s, ch) * entries_total(s) == mn * (t + cnt));
        assert(entries_chan_max(s, ch) * entries_total(s) == mx * (t + cnt));
    }
}

/// The weighted channel sum, with one entry singled out: everything else
/// is at least the minimum, the singled-out entry contributes its own
/// channel value.
pub proof fn lemma_chan_sum_split(s: Seq<ColorCount>, ch: Channel, i: int)
    requires
        0 <= i < s.len(),
    ensures
        entries_chan_sum(s, ch) >= entries_chan_min(s, ch) * (entries_total(s) - s[i].count)
            + chan(s[i].color, ch) * s[i].count,
    decreases s.len(),
{
    let d = s.drop_last();
    let mn = entries_chan_min(s, ch) as int;
    let mnd = entries_chan_min(d, ch) as int;
    let t = entries_total(d) as int;
    let sd = entries_chan_sum(d, ch) as int;
    let cnt = s.last().count as int;
    let v = chan(s.last().color, ch) as int;
    let ci = s[i].count as int;
    let vi = chan(s[i].color, ch) as int;
    assert(entries_chan_sum(s, ch) == sd + cnt * v);
    assert(entries_total(s) == t + cnt);
    if i == s.len() - 1 {
        lemma_chan_sum_bounds(d, ch);
        assert(mn <= mnd);
        assert(sd + cnt * v >= mn * (t + cnt - ci) + vi * ci) by (nonlinear_arith)
            requires
                mnd * t <= sd,
                mn <= mnd,
                t >= 0,
                cnt == ci,
                v == vi,
        ;
    } else {
        lemma_chan_sum_split(d, ch, i);
        lemma_entry_count_le_total(d, i);
        assert(d[i] == s[i]);
        assert(mn <= mnd && mn <= v);
        assert(sd + cnt * v >= mn * (t + cnt - ci) + vi * ci) by (nonlinear_arith)
            requires
                sd >= mnd * (t - ci) + vi * ci,
                mn <= mnd,
                mn <= v,
                t - ci >= 0,
                cnt >= 0,
        ;
    }
}

/// The weighted sum exceeds the minimum-weighted total as soon as the
/// channel is not constant over the entries: the witness entry with a
/// larger value contributes strictly more than the minimum.
pub proof fn lemma_chan_sum_strict(s: Seq<ColorCount>, ch: Channel)
    requires
        s.len() > 0,
        forall|i: int| 0 <= i < s.len() ==> s[i].count >= 1,
        entries_chan_max(s, ch) > entries_chan_min(s, ch),
    ensures
        entries_chan_min(s, ch) * entries_total(s) < entries_chan_sum(s, ch),
{
    lemma_chan_max_properties(s, ch);
    let j = choose|j: int| 0 <= j < s.len() && chan(s[j].color, ch) == entries_chan_max(s, ch);
    lemma_chan_sum_split(s, ch, j);
    lemma_entry_count_le_total(s, j);
    let mn = entries_chan_min(s, ch) as int;
    let mx = entries_chan_max(s, ch) as int;
    let t = entries_total(s) as int;
    let cj = s[j].count as int;
    assert(mn * (t - cj) + mx * cj > mn * t) by (nonlinear_arith)
        requires
            mx > mn,
            cj >= 1,
            t >= cj,
    ;
}

/// Rounded weighted mean: round(sum / total) computed exactly as
/// floor((2 * sum + total) / (2 * total)).
pub open spec fn avg_round(sum: int, total: int) -> int {
    (2 * sum + total) / (2 * total)
}

/// The rounded mean lies between any lower bound and upper bound of the
/// summed values.
pub proof fn lemma_avg_round_bounds(sum: int, total: int, lo: int, hi: int)
    requires
        total >= 1,
        0 <= lo,
        lo * total <= sum,
        sum <= hi * total,
    ensures
        lo <= avg_round(sum, total) <= hi,
{
    let d = 2 * total;
    vstd::arithmetic::div_mod::lemma_div_multiples_vanish_fancy(lo, total, d);
    assert((d * lo + total) / d == lo);
    assert(d * lo + total <= 2 * sum + total) by (nonlinear_arith)
        requires
            lo * total <= sum,
            d == 2 * total,
    ;
    vstd::arithmetic::div_mod::lemma_div_is_ordered(d * lo + total, 2 * sum + total, d);
    vstd::arithmetic::div_mod::lemma_div_multiples_vanish_fancy(hi, total, d);
    assert((d * hi + total) / d == hi);
    assert(2 * sum + total <= d * hi + total) by (nonlinear_arith)
        requires
            sum <= hi * total,
            d == 2 * total,
    ;
    vstd::arithmetic::div_mod::lemma_div_is_ordered(2 * sum + total, d * hi + total, d);
}

} // verus!
