//! Colour palettes by median cut.
//!
//! A bucket of 8-bit RGBA colours is cut in two along its widest channel, at
//! that channel's median, level by level; the mean colour of every bucket
//! that is left makes the palette. Pixels can then be reassigned, each to the
//! palette colour nearest to it.
//!
//! - [`color`]: the colour value and its channels
//! - [`sort`]: a bucket sorted by one channel
//! - [`stats`]: mean, median and range of a channel
//! - [`median_cut`]: one cut of one bucket
//! - [`palette`]: the palette builder
//! - [`assign`]: nearest-colour reassignment
//! - [`display`]: hexadecimal names of colours
//! - [`swatch`]: a palette drawn as a strip of squares
//! - [`permutation`]: what the order of a bucket does not change

pub mod assign;
pub mod color;
pub mod display;
pub mod median_cut;
pub mod palette;
pub mod permutation;
pub mod sort;
pub mod stats;
pub mod swatch;

pub use assign::{_assign_colors, nearest_color, squared_distance};
pub use color::{Color, ColorChannel};
pub use display::name_from_rgb;
pub use median_cut::median_cut;
pub use palette::{make_palette, palette_from_pixels};
pub use sort::sort_by_channel;
pub use stats::{channel_mean, channel_median, channel_range, color_ranges, highest_range_channel};
pub use swatch::{swatch_strip, SQUARE_SIZE};
