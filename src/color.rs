use vstd::prelude::*;

use crate::consensus::{seeded_numbers, xorshift_numbers};

verus! {

/// The mean of two channel values, rounded down.
pub open spec fn channel_mean(a: u8, b: u8) -> u8 {
    ((a as nat + b as nat) / 2) as u8
}

/// Blends two RGB colors half and half, channel by channel, rounding down.
pub fn blend(p1: (u8, u8, u8), p2: (u8, u8, u8)) -> (r: (u8, u8, u8))
    ensures
        r.0 == channel_mean(p1.0, p2.0),
        r.1 == channel_mean(p1.1, p2.1),
        r.2 == channel_mean(p1.2, p2.2),
{
    (
        ((p1.0 as u16 + p2.0 as u16) / 2) as u8,
        ((p1.1 as u16 + p2.1 as u16) / 2) as u8,
        ((p1.2 as u16 + p2.2 as u16) / 2) as u8,
    )
}

/// The color used to mark keypoints: the first three numbers of the generator
/// seeded with `(42, 69)`, each cut to its low byte. The generator is seeded
/// anew for every color, so every keypoint gets the same one.
pub fn random_color() -> (r: (u8, u8, u8))
    ensures
        r == (
            xorshift_numbers(42, 69, 3)[0] as u8,
            xorshift_numbers(42, 69, 3)[1] as u8,
            xorshift_numbers(42, 69, 3)[2] as u8,
        ),
{
    let numbers = seeded_numbers(42, 69, 3);
    (numbers[0] as u8, numbers[1] as u8, numbers[2] as u8)
}

} // verus!
