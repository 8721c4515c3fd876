//! Colours: 8-bit RGB, and hue/saturation/value derived from it and held as
//! exact fractions, so that every threshold test is decided without rounding.

use vstd::prelude::*;

verus! {

/// An RGB colour with 8-bit channels.
#[derive(Debug, Clone, Copy, PartialEq, Eq, Hash, Structural)]
pub struct Rgb {
    pub r: u8,
    pub g: u8,
    pub b: u8,
}

/// Hue in degrees, saturation and value, each as a fraction:
/// hue is `hue_num / hue_den`, saturation `sat_num / sat_den`, value
/// `val_num / 255`.
#[derive(Debug, Clone, Copy, PartialEq, Eq, Structural)]
pub struct Hsv {
    pub hue_num: u32,
    pub hue_den: u32,
    pub sat_num: u32,
    pub sat_den: u32,
    pub val_num: u32,
}

/// Squared Euclidean distance between two colours.
pub open spec fn rgb_distance_sq(a: Rgb, b: Rgb) -> int {
    (a.r - b.r) * (a.r - b.r) + (a.g - b.g) * (a.g - b.g) + (a.b - b.b) * (a.b - b.b)
}

/// The largest of the three channels.
pub open spec fn channel_max(c: Rgb) -> int {
    if c.r >= c.g && c.r >= c.b {
        c.r as int
    } else if c.g >= c.b {
        c.g as int
    } else {
        c.b as int
    }
}

/// The smallest of the three channels.
pub open spec fn channel_min(c: Rgb) -> int {
    if c.r <= c.g && c.r <= c.b {
        c.r as int
    } else if c.g <= c.b {
        c.g as int
    } else {
        c.b as int
    }
}

/// Spread between the largest and the smallest channel.
pub open spec fn chroma(c: Rgb) -> int {
    channel_max(c) - channel_min(c)
}

/// Hue of `c` in degrees, multiplied by `chroma(c)`: the six-sector formula,
/// with the red sector wrapped so that the hue is never negative. Grey has
/// hue 0.
pub open spec fn hue_times_chroma(c: Rgb) -> int {
    let d = chroma(c);
    if d == 0 {
        0
    } else if channel_max(c) == c.r {
        if c.g >= c.b {
            60 * (c.g - c.b)
        } else {
            360 * d - 60 * (c.b - c.g)
        }
    } else if channel_max(c) == c.g {
        60 * (c.b - c.r) + 120 * d
    } else {
        60 * (c.r - c.g) + 240 * d
    }
}

/// The colour `c` in hue/saturation/value form. Saturation is chroma over the
/// largest channel, and 0 for black; value is the largest channel over 255.
pub open spec fn hsv_of(c: Rgb) -> Hsv {
    Hsv {
        hue_num: hue_times_chroma(c) as u32,
        hue_den: if chroma(c) == 0 {
            1u32
        } else {
            chroma(c) as u32
        },
        sat_num: if channel_max(c) == 0 {
            0u32
        } else {
            chroma(c) as u32
        },
        sat_den: if channel_max(c) == 0 {
            1u32
        } else {
            channel_max(c) as u32
        },
        val_num: channel_max(c) as u32,
    }
}

/// Product of a small factor and a 32-bit quantity.
fn scale(factor: u64, quantity: u32) -> (r: u64)
    requires
        factor <= 360,
    ensures
        r == factor * quantity,
{
    assert(factor * quantity <= 360 * 0xffff_ffff) by (nonlinear_arith)
        requires
            factor <= 360,
            quantity <= 0xffff_ffff,
    ;
    factor * (quantity as u64)
}

impl Hsv {
    /// Denominators are positive, hue lies in [0, 360), saturation and value
    /// in [0, 1].
    pub open spec fn wf(self) -> bool {
        &&& 1 <= self.hue_den <= 255
        &&& 1 <= self.sat_den <= 255
        &&& self.hue_num < 360 * self.hue_den
        &&& self.sat_num <= self.sat_den
        &&& self.val_num <= 255
    }

    /// Hue below `deg` degrees.
    pub open spec fn hue_below(self, deg: int) -> bool {
        self.hue_num < deg * self.hue_den
    }

    /// Hue above `deg` degrees.
    pub open spec fn hue_above(self, deg: int) -> bool {
        self.hue_num > deg * self.hue_den
    }

    /// Saturation above `tenths / 10`.
    pub open spec fn sat_above(self, tenths: int) -> bool {
        10 * self.sat_num > tenths * self.sat_den
    }

    /// Saturation below `tenths / 10`.
    pub open spec fn sat_below(self, tenths: int) -> bool {
        10 * self.sat_num < tenths * self.sat_den
    }

    /// Value above `tenths / 10`.
    pub open spec fn val_above(self, tenths: int) -> bool {
        10 * self.val_num > tenths * 255
    }

    /// Value below `tenths / 10`.
    pub open spec fn val_below(self, tenths: int) -> bool {
        10 * self.val_num < tenths * 255
    }

    /// Red: hue below 15 or above 345 degrees, saturation above 0.5, value
    /// above 0.3.
    pub open spec fn red(self) -> bool {
        (self.hue_below(15) || self.hue_above(345)) && self.sat_above(5) && self.val_above(3)
    }

    /// Blue: hue strictly between 200 and 260 degrees, saturation above 0.5,
    /// value above 0.3.
    pub open spec fn blue(self) -> bool {
        self.hue_above(200) && self.hue_below(260) && self.sat_above(5) && self.val_above(3)
    }

    /// Green: hue strictly between 80 and 160 degrees, saturation above 0.4,
    /// value above 0.3.
    pub open spec fn green(self) -> bool {
        self.hue_above(80) && self.hue_below(160) && self.sat_above(4) && self.val_above(3)
    }

    /// Bright: value above 0.7 and saturation below 0.3.
    pub open spec fn bright(self) -> bool {
        self.val_above(7) && self.sat_below(3)
    }

    /// Whether the hue is below `deg` degrees.
    pub fn hue_lt(&self, deg: u64) -> (r: bool)
        requires
            deg <= 360,
        ensures
            r == self.hue_below(deg as int),
    {
        (self.hue_num as u64) < scale(deg, self.hue_den)
    }

    /// Whether the hue is above `deg` degrees.
    pub fn hue_gt(&self, deg: u64) -> (r: bool)
        requires
            deg <= 360,
        ensures
            r == self.hue_above(deg as int),
    {
        (self.hue_num as u64) > scale(deg, self.hue_den)
    }

    /// Whether the saturation is above `tenths / 10`.
    pub fn sat_gt(&self, tenths: u64) -> (r: bool)
        requires
            tenths <= 10,
        ensures
            r == self.sat_above(tenths as int),
    {
        10 * (self.sat_num as u64) > scale(tenths, self.sat_den)
    }

    /// Whether the saturation is below `tenths / 10`.
    pub fn sat_lt(&self, tenths: u64) -> (r: bool)
        requires
            tenths <= 10,
        ensures
            r == self.sat_below(tenths as int),
    {
        10 * (self.sat_num as u64) < scale(tenths, self.sat_den)
    }

    /// Whether the value is above `tenths / 10`.
    pub fn val_gt(&self, tenths: u64) -> (r: bool)
        requires
            tenths <= 10,
        ensures
            r == self.val_above(tenths as int),
    {
        10 * (self.val_num as u64) > tenths * 255
    }

    /// Whether the value is below `tenths / 10`.
    pub fn val_lt(&self, tenths: u64) -> (r: bool)
        requires
            tenths <= 10,
        ensures
            r == self.val_below(tenths as int),
    {
        10 * (self.val_num as u64) < tenths * 255
    }

    /// Red: hue below 15 or above 345 degrees, saturation above 0.5, value
    /// above 0.3.
    pub fn is_red(&self) -> (r: bool)
        ensures
            r == self.red(),
    {
        (self.hue_lt(15) || self.hue_gt(345)) && self.sat_gt(5) && self.val_gt(3)
    }

    /// Blue: hue strictly between 200 and 260 degrees, saturation above 0.5,
    /// value above 0.3.
    pub fn is_blue(&self) -> (r: bool)
        ensures
            r == self.blue(),
    {
        self.hue_gt(200) && self.hue_lt(260) && self.sat_gt(5) && self.val_gt(3)
    }

    /// Green: hue strictly between 80 and 160 degrees, saturation above 0.4,
    /// value above 0.3.
    pub fn is_green(&self) -> (r: bool)
        ensures
            r == self.green(),
    {
        self.hue_gt(80) && self.hue_lt(160) && self.sat_gt(4) && self.val_gt(3)
    }

    /// Bright: value above 0.7 and saturation below 0.3.
    pub fn is_bright(&self) -> (r: bool)
        ensures
            r == self.bright(),
    {
        self.val_gt(7) && self.sat_lt(3)
    }
}

impl Rgb {
    /// The colour with the given channels.
    pub fn new(r: u8, g: u8, b: u8) -> (c: Rgb)
        ensures
            c == (Rgb { r, g, b }),
    {
        Rgb { r, g, b }
    }

    /// Squared Euclidean distance to `other`.
    pub fn distance_sq(&self, other: &Rgb) -> (d: u32)
        ensures
            d == rgb_distance_sq(*self, *other),
            d <= 195075,
    {
        let dr: i32 = self.r as i32 - other.r as i32;
        let dg: i32 = self.g as i32 - other.g as i32;
        let db: i32 = self.b as i32 - other.b as i32;
        assert(0 <= dr * dr <= 65025) by (nonlinear_arith)
            requires
                -255 <= dr <= 255,
        ;
        assert(0 <= dg * dg <= 65025) by (nonlinear_arith)
            requires
                -255 <= dg <= 255,
        ;
        assert(0 <= db * db <= 65025) by (nonlinear_arith)
            requires
                -255 <= db <= 255,
        ;
        (dr * dr + dg * dg + db * db) as u32
    }

    /// Whether `other` lies within `tolerance` of this colour: the squared
    /// distance is at most the square of the tolerance.
    pub fn matches(&self, other: &Rgb, tolerance: u32) -> (m: bool)
        ensures
            m == (rgb_distance_sq(*self, *other) <= tolerance * tolerance),
    {
        let d: u64 = self.distance_sq(other) as u64;
        let t: u64 = tolerance as u64;
        assert(0 <= t * t <= 0xffff_ffff * 0xffff_ffff) by (nonlinear_arith)
            requires
                0 <= t <= 0xffff_ffff,
        ;
        d <= t * t
    }

    /// Conversion to hue, saturation and value.
    pub fn to_hsv(&self) -> (hsv: Hsv)
        ensures
            hsv == hsv_of(*self),
            hsv.wf(),
    {
        let r: u32 = self.r as u32;
        let g: u32 = self.g as u32;
        let b: u32 = self.b as u32;
        let max: u32 = if r >= g && r >= b {
            r
        } else if g >= b {
            g
        } else {
            b
        };
        let min: u32 = if r <= g && r <= b {
            r
        } else if g <= b {
            g
        } else {
            b
        };
        let delta: u32 = max - min;
        let hue_num: u32 = if delta == 0 {
            0
        } else if max == r {
            if g >= b {
                60 * (g - b)
            } else {
                360 * delta - 60 * (b - g)
            }
        } else if max == g {
            60 * b + 120 * delta - 60 * r
        } else {
            60 * r + 240 * delta - 60 * g
        };
        Hsv {
            hue_num,
            hue_den: if delta == 0 {
                1
            } else {
                delta
            },
            sat_num: if max == 0 {
                0
            } else {
                delta
            },
            sat_den: if max == 0 {
                1
            } else {
                max
            },
            val_num: max,
        }
    }
}

/// The distance from a colour to itself is zero.
pub proof fn lemma_distance_to_self(c: Rgb)
    ensures
        rgb_distance_sq(c, c) == 0,
{
}

/// Every conversion yields a hue in [0, 360) and saturation and value in
/// [0, 1].
pub proof fn lemma_hsv_in_range(c: Rgb)
    ensures
        hsv_of(c).wf(),
{
}

} // verus!
