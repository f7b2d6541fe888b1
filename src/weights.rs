//! Weighting strategies ("moods"): each resolves to a weight function that
//! gives every LAB color a positive weight in the update of its cluster mean.

use vstd::prelude::*;
use crate::color::LAB;

verus! {

/// The moods that a palette can be made for.
#[derive(Clone, Copy, Debug, PartialEq, Eq, Structural)]
pub enum Mood {
    /// The colors that cover the most pixels.
    Dominant,
}

/// A weight function on LAB colors. The clustering engine sees a weight
/// function only through `WeightFn::weight`.
#[derive(Clone, Copy, Debug, PartialEq, Eq, Structural)]
pub enum WeightFn {
    /// Every color weighs 1.
    Uniform,
}

/// The weight that `f` gives to `c`.
pub open spec fn weight_of(f: WeightFn, c: LAB) -> nat {
    match f {
        WeightFn::Uniform => 1,
    }
}

/// The weight function that a mood resolves to.
pub open spec fn mood_weight(mood: Mood) -> WeightFn {
    match mood {
        Mood::Dominant => WeightFn::Uniform,
    }
}

/// All colors are given the same weight.
fn dominant(_c: &LAB) -> (w: u32)
    ensures
        w == 1,
{
    1
}

impl WeightFn {
    /// The weight of `c`: at least 1.
    pub fn weight(&self, c: &LAB) -> (w: u32)
        ensures
            w == weight_of(*self, *c),
            w >= 1,
    {
        match self {
            WeightFn::Uniform => dominant(c),
        }
    }
}

/// The weight function of a mood.
pub fn resolve_mood(mood: &Mood) -> (f: WeightFn)
    ensures
        f == mood_weight(*mood),
{
    match mood {
        Mood::Dominant => WeightFn::Uniform,
    }
}

} // verus!
