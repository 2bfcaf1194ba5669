//! The per-tile feature vector used for palette-group clustering: the
//! per-channel minimum and maximum over the tile's pixels, six small
//! integers in all.

use vstd::prelude::*;

use crate::color::ColorU8;

verus! {

/// Smallest value of one channel over a pixel sequence (0 when empty).
pub open spec fn pix_chan_min(s: Seq<ColorU8>, ch: crate::histogram::Channel) -> u8
    decreases s.len(),
{
    if s.len() == 0 {
        0
    } else if s.len() == 1 {
        crate::histogram::chan(s[0], ch)
    } else {
        let m = pix_chan_min(s.drop_last(), ch);
        if crate::histogram::chan(s.last(), ch) < m {
            crate::histogram::chan(s.last(), ch)
        } else {
            m
        }
    }
}

/// Largest value of one channel over a pixel sequence (0 when empty).
pub open spec fn pix_chan_max(s: Seq<ColorU8>, ch: crate::histogram::Channel) -> u8
    decreases s.len(),
{
    if s.len() == 0 {
        0
    } else {
        let m = pix_chan_max(s.drop_last(), ch);
        if crate::histogram::chan(s.last(), ch) > m {
            crate::histogram::chan(s.last(), ch)
        } else {
            m
        }
    }
}

/// The color statistics of one tile: per-channel minimum and maximum.
#[derive(Clone, Copy, Debug, PartialEq, Eq, Structural)]
pub struct ColorDistribution {
    pub min: ColorU8,
    pub max: ColorU8,
}

/// The six feature dimensions of a distribution, in a fixed order: the
/// three channel minima, then the three channel maxima.
pub open spec fn dist_at(d: ColorDistribution, i: int) -> u8 {
    if i == 0 {
        d.min.r
    } else if i == 1 {
        d.min.g
    } else if i == 2 {
        d.min.b
    } else if i == 3 {
        d.max.r
    } else if i == 4 {
        d.max.g
    } else {
        d.max.b
    }
}

impl ColorDistribution {
    /// Gathers the per-channel minima and maxima of a pixel sequence; an
    /// empty sequence yields all zeros.
    #[verifier::loop_isolation(false)]
    pub fn new(pixels: &[ColorU8]) -> (d: ColorDistribution)
        ensures
            d.min.r == pix_chan_min(pixels@, crate::histogram::Channel::Red),
            d.min.g == pix_chan_min(pixels@, crate::histogram::Channel::Green),
            d.min.b == pix_chan_min(pixels@, crate::histogram::Channel::Blue),
            d.max.r == pix_chan_max(pixels@, crate::histogram::Channel::Red),
            d.max.g == pix_chan_max(pixels@, crate::histogram::Channel::Green),
            d.max.b == pix_chan_max(pixels@, crate::histogram::Channel::Blue),
    {
        let ghost s = pixels@;
        let mut min = ColorU8 { r: 0, g: 0, b: 0 };
        let mut max = ColorU8 { r: 0, g: 0, b: 0 };
        if pixels.len() > 0 {
            min = pixels[0];
            proof {
                assert(s.take(1).len() == 1);
            }
        }
        let mut i: usize = if pixels.len() > 0 {
            1
        } else {
            0
        };
        proof {
            if s.len() > 0 {
                assert(s.take(1).drop_last() =~= s.take(0));
            } else {
                assert(s.take(0) =~= s);
            }
        }
        let mut j: usize = 0;
        while j < pixels.len()
            invariant
                j <= s.len(),
                max.r == pix_chan_max(s.take(j as int), crate::histogram::Channel::Red),
                max.g == pix_chan_max(s.take(j as int), crate::histogram::Channel::Green),
                max.b == pix_chan_max(s.take(j as int), crate::histogram::Channel::Blue),
            decreases s.len() - j,
        {
            proof {
                assert(s.take(j + 1).drop_last() =~= s.take(j as int));
            }
            let p = pixels[j];
            if p.r > max.r {
                max = ColorU8 { r: p.r, g: max.g, b: max.b };
            }
            if p.g > max.g {
                max = ColorU8 { r: max.r, g: p.g, b: max.b };
            }
            if p.b > max.b {
                max = ColorU8 { r: max.r, g: max.g, b: p.b };
            }
            j += 1;
        }
        while i < pixels.len()
            invariant
                s.len() == 0 ==> i == 0,
                s.len() > 0 ==> 1 <= i <= s.len(),
                min.r == pix_chan_min(s.take(i as int), crate::histogram::Channel::Red),
                min.g == pix_chan_min(s.take(i as int), crate::histogram::Channel::Green),
                min.b == pix_chan_min(s.take(i as int), crate::histogram::Channel::Blue),
            decreases s.len() - i,
        {
            proof {
                assert(s.take(i + 1).drop_last() =~= s.take(i as int));
            }
            let p = pixels[i];
            if p.r < min.r {
                min = ColorU8 { r: p.r, g: min.g, b: min.b };
            }
            if p.g < min.g {
                min = ColorU8 { r: min.r, g: p.g, b: min.b };
            }
            if p.b < min.b {
                min = ColorU8 { r: min.r, g: min.g, b: p.b };
            }
            i += 1;
        }
        proof {
            assert(s.take(s.len() as int) =~= s);
        }
        ColorDistribution { min, max }
    }

    /// Number of feature dimensions.
    pub fn dimensions(&self) -> (n: usize)
        ensures
            n == 6,
    {
        6
    }

    /// Reads one feature dimension.
    pub fn at(&self, i: usize) -> (v: u8)
        requires
            i < 6,
        ensures
            v == dist_at(*self, i as int),
    {
        if i == 0 {
            self.min.r
        } else if i == 1 {
            self.min.g
        } else if i == 2 {
            self.min.b
        } else if i == 3 {
            self.max.r
        } else if i == 4 {
            self.max.g
        } else {
            self.max.b
        }
    }
}

} // verus!
