//! Palette extraction: weighted k-means++ clustering of colors in a
//! fixed-point CIE LAB space, with a Delta-E 1994 distance.
//!
//! LAB fields and distances are integers in units of 1/10000 of a LAB unit
//! (`color::LAB_SCALE`). A palette is a list of means, each with the number
//! of samples in its cluster; an entry's dominance is that number over the
//! number of samples.
//!
//! - `color`: RGB and LAB colors, hex codes, Delta-E 1994, nearest color.
//! - `weights`: moods and the weight functions they resolve to.
//! - `kmeans`: seeding, the Lloyd iterations and `pigments_pixels`.
//! - `palette`: pixels from RGBA bytes, batch sampling, ordering a palette.
//! - `names`: hex codes and the nearest named color.
//! - `rgba`: RGBA pixels.
//! - `random`: the random draws, made with `rand`.

pub mod arith;
pub mod color;
pub mod weights;
pub mod kmeans;
mod parallel;
pub mod random;
pub mod rgba;
pub mod names;
pub mod palette;

pub use kmeans::{pigments_pixels, pigments_pixels_with_rng, PaletteError};

use vstd::prelude::*;

verus! {

/// The samples to cluster: one LAB color per pixel.
pub type Pixels = Vec<color::LAB>;

} // verus!
