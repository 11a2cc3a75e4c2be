//! Colours with one byte per channel.

use vstd::prelude::*;

verus! {

/// A light intensity of one: intensities count in `UNIT`-ths, which are
/// finer than a billionth.
pub const UNIT: u32 = 0x4000_0000;

/// A colour: red, green and blue, each from 0 (none) to 255 (full).
#[derive(Clone, Copy, Debug, PartialEq, Eq, Structural)]
pub struct Color {
    pub red: u8,
    pub green: u8,
    pub blue: u8,
}

/// A channel under a light of the given intensity: `channel * intensity /
/// UNIT`, rounded to the nearest whole number, halves upwards. An intensity
/// above one counts as one, and one below nothing as nothing.
pub open spec fn dimmed(channel: u8, intensity: int) -> int {
    if intensity >= UNIT {
        channel as int
    } else if intensity <= 0 {
        0
    } else {
        (channel * intensity + UNIT / 2) / (UNIT as int)
    }
}

/// A dimmed channel is no brighter than the channel.
pub proof fn lemma_dimmed_bounds(channel: u8, intensity: int)
    ensures
        0 <= dimmed(channel, intensity) <= channel,
{
    if 0 < intensity < UNIT {
        assert(0 <= channel * intensity <= channel * (UNIT - 1)) by (nonlinear_arith)
            requires
                0 < intensity <= UNIT - 1,
                0 <= channel,
        ;
    }
}

fn dim(channel: u8, intensity: u32) -> (c: u8)
    ensures
        c == dimmed(channel, intensity as int),
{
    if intensity >= UNIT {
        channel
    } else if intensity == 0 {
        0
    } else {
        proof {
            lemma_dimmed_bounds(channel, intensity as int);
        }
        assert(channel * intensity <= 255 * 0x3fff_ffff) by (nonlinear_arith)
            requires
                channel <= 255,
                intensity <= 0x3fff_ffff,
        ;
        let product: u64 = channel as u64 * intensity as u64 + (UNIT / 2) as u64;
        (product / UNIT as u64) as u8
    }
}

impl Color {
    /// This colour under a light of the given intensity, channel by
    /// channel.
    pub open spec fn lit(self, intensity: int) -> Color {
        Color {
            red: dimmed(self.red, intensity) as u8,
            green: dimmed(self.green, intensity) as u8,
            blue: dimmed(self.blue, intensity) as u8,
        }
    }

    pub fn new(red: u8, green: u8, blue: u8) -> (c: Color)
        ensures
            c == (Color { red, green, blue }),
    {
        Color { red, green, blue }
    }

    pub fn black() -> (c: Color)
        ensures
            c == (Color { red: 0, green: 0, blue: 0 }),
    {
        Color { red: 0, green: 0, blue: 0 }
    }

    /// Multiplies each channel by `intensity / UNIT`, to the nearest whole
    /// number.
    pub fn scaled(self, intensity: u32) -> (c: Color)
        ensures
            c == self.lit(intensity as int),
            c.red == dimmed(self.red, intensity as int),
            c.green == dimmed(self.green, intensity as int),
            c.blue == dimmed(self.blue, intensity as int),
    {
        Color {
            red: dim(self.red, intensity),
            green: dim(self.green, intensity),
            blue: dim(self.blue, intensity),
        }
    }
}

} // verus!
