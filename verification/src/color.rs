//! Colour arithmetic on bytes.

use vstd::prelude::*;

verus! {

/// A colour with its coverage.
#[derive(Debug, Clone, Copy, PartialEq, Eq)]
pub struct Rgba {
    pub r: u8,
    pub g: u8,
    pub b: u8,
    pub a: u8,
}

/// Three tenths of a channel, rounded down.
pub open spec fn darkened(c: u8) -> int {
    c as int * 3 / 10
}

/// A colour at three tenths of its brightness: the top of the background.
pub fn darken(c: (u8, u8, u8)) -> (res: (u8, u8, u8))
    ensures
        res.0 == darkened(c.0),
        res.1 == darkened(c.1),
        res.2 == darkened(c.2),
{
    (darken_channel(c.0), darken_channel(c.1), darken_channel(c.2))
}

fn darken_channel(c: u8) -> (res: u8)
    ensures
        res == darkened(c),
{
    (c as u32 * 3 / 10) as u8
}

/// A channel moved 55 hundredths of the way to 255, rounded to the nearest
/// number, halves up: `v + (255 - v) * 0.55`, in twentieths `9 v + 2805`.
pub open spec fn lightened(v: u8) -> int {
    (9 * v + 2805 + 10) / 20
}

/// A colour moved 55 hundredths of the way to white, its coverage kept: the
/// cap on a bar.
pub fn lighten(c: Rgba) -> (res: Rgba)
    ensures
        res.r == lightened(c.r),
        res.g == lightened(c.g),
        res.b == lightened(c.b),
        res.a == c.a,
{
    Rgba { r: lighten_channel(c.r), g: lighten_channel(c.g), b: lighten_channel(c.b), a: c.a }
}

fn lighten_channel(v: u8) -> (res: u8)
    ensures
        res == lightened(v),
{
    ((9 * (v as u32) + 2815) / 20) as u8
}

/// Darkening never brightens and lightening never darkens; both keep the order
/// of channels.
pub proof fn lemma_shades_are_ordered(x: u8, y: u8)
    requires
        x <= y,
    ensures
        0 <= darkened(x) <= x,
        x <= lightened(x) <= 255,
        darkened(x) <= darkened(y),
        lightened(x) <= lightened(y),
{
}

/// A darkened channel is three tenths, rounded down; a lightened one is 45
/// hundredths of the channel and 55 of 255, rounded to the nearest.
pub proof fn lemma_shades_are_rounded(v: u8)
    ensures
        10 * darkened(v) <= 3 * v < 10 * darkened(v) + 10,
        100 * lightened(v) - 50 <= 45 * v + 55 * 255 < 100 * lightened(v) + 50,
{
}

/// The three channels that a sixth of the colour circle takes from the four
/// levels of a hue: full, falling, low and rising.
pub open spec fn sector_channels<T>(i: int, full: T, falling: T, low: T, rising: T) -> (T, T, T) {
    if i % 6 == 0 {
        (full, rising, low)
    } else if i % 6 == 1 {
        (falling, full, low)
    } else if i % 6 == 2 {
        (low, full, rising)
    } else if i % 6 == 3 {
        (low, falling, full)
    } else if i % 6 == 4 {
        (rising, low, full)
    } else {
        (full, low, falling)
    }
}

/// The red, green and blue channels of a hue in sixth `i` of the colour circle,
/// counted round and round in both directions.
pub fn hsv_sector<T: Copy>(i: i32, full: T, falling: T, low: T, rising: T) -> (res: (T, T, T))
    ensures
        res == sector_channels(i as int, full, falling, low, rising),
{
    match i.checked_rem_euclid(6) {
        Some(0) => (full, rising, low),
        Some(1) => (falling, full, low),
        Some(2) => (low, full, rising),
        Some(3) => (low, falling, full),
        Some(4) => (rising, low, full),
        _ => (full, low, falling),
    }
}

/// Round the colour circle red, green and blue are full for a third of it each,
/// from half a third before to half a third after the hue of that name, and low
/// for the opposite third; in between each rises to full and falls from it.
pub proof fn lemma_channels_take_turns<T>(i: int, full: T, falling: T, low: T, rising: T)
    ensures
        ({
            let rgb = sector_channels(i, full, falling, low, rising);
            &&& i % 6 == 5 || i % 6 == 0 ==> rgb.0 == full
            &&& i % 6 == 1 ==> rgb.0 == falling
            &&& i % 6 == 2 || i % 6 == 3 ==> rgb.0 == low
            &&& i % 6 == 4 ==> rgb.0 == rising
        }),
        sector_channels(i, full, falling, low, rising).1 == sector_channels(
            i - 2,
            full,
            falling,
            low,
            rising,
        ).0,
        sector_channels(i, full, falling, low, rising).2 == sector_channels(
            i - 4,
            full,
            falling,
            low,
            rising,
        ).0,
{
}

/// The colour circle has no jumps: at the end of a sixth, where what rises is
/// full and what falls is low, stands the colour with which the next sixth
/// begins.
pub proof fn lemma_the_circle_has_no_jumps<T>(i: int, full: T, low: T)
    ensures
        sector_channels(i, full, low, low, full) == sector_channels(i + 1, full, full, low, low),
{
}

} // verus!
