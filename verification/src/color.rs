//! The colour value and its four channels.

use vstd::prelude::*;

verus! {

/// An 8-bit RGBA colour. Two colours are equal when all four channels agree.
#[derive(Debug, Clone, Copy)]
pub struct Color {
    pub r: u8,
    pub g: u8,
    pub b: u8,
    pub a: u8,
}

/// One of the four channels of a [`Color`].
#[derive(Debug, Clone, Copy)]
pub enum ColorChannel {
    R,
    G,
    B,
    A,
}

impl ColorChannel {
    /// The four channels in their fixed order: red, green, blue, alpha.
    pub const ALL: [ColorChannel; 4] = [
        ColorChannel::R,
        ColorChannel::G,
        ColorChannel::B,
        ColorChannel::A,
    ];

    /// The channel's value in `color`, as a mathematical integer.
    pub open spec fn value_of(self, color: Color) -> int {
        match self {
            ColorChannel::R => color.r as int,
            ColorChannel::G => color.g as int,
            ColorChannel::B => color.b as int,
            ColorChannel::A => color.a as int,
        }
    }

    /// The channel's position in [`ColorChannel::ALL`].
    pub open spec fn position(self) -> int {
        match self {
            ColorChannel::R => 0,
            ColorChannel::G => 1,
            ColorChannel::B => 2,
            ColorChannel::A => 3,
        }
    }

    /// Projects `color` onto this channel.
    pub fn value(&self, color: &Color) -> (v: u8)
        ensures
            v == self.value_of(*color),
    {
        match self {
            ColorChannel::R => color.r,
            ColorChannel::G => color.g,
            ColorChannel::B => color.b,
            ColorChannel::A => color.a,
        }
    }
}

impl Color {
    /// Builds a colour channel by channel. `f` is asked for red, green, blue
    /// and alpha in that order; the first channel for which it has no value
    /// ends the construction with `None`.
    pub fn from_fn<F>(f: F) -> (result: Option<Color>) where F: Fn(ColorChannel) -> Option<u8>
        requires
            forall|channel: ColorChannel| call_requires(f, (channel,)),
        ensures
            match result {
                Some(c) => {
                    &&& call_ensures(f, (ColorChannel::R,), Some(c.r))
                    &&& call_ensures(f, (ColorChannel::G,), Some(c.g))
                    &&& call_ensures(f, (ColorChannel::B,), Some(c.b))
                    &&& call_ensures(f, (ColorChannel::A,), Some(c.a))
                },
                None => exists|channel: ColorChannel| call_ensures(f, (channel,), None::<u8>),
            },
    {
        let r = match f(ColorChannel::R) {
            Some(v) => v,
            None => { return None; },
        };
        let g = match f(ColorChannel::G) {
            Some(v) => v,
            None => { return None; },
        };
        let b = match f(ColorChannel::B) {
            Some(v) => v,
            None => { return None; },
        };
        let a = match f(ColorChannel::A) {
            Some(v) => v,
            None => { return None; },
        };
        Some(Color { r, g, b, a })
    }
}

impl PartialEq for Color {
    fn eq(&self, other: &Self) -> (equal: bool) {
        self.r == other.r && self.g == other.g && self.b == other.b && self.a == other.a
    }
}

impl vstd::std_specs::cmp::PartialEqSpecImpl for Color {
    open spec fn obeys_eq_spec() -> bool {
        true
    }

    open spec fn eq_spec(&self, other: &Self) -> bool {
        *self == *other
    }
}

} // verus!
