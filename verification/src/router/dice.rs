//! The random number generator that the carving policies draw from.

use vstd::prelude::*;
use rand::{Rng, RngCore};

verus! {

/// A borrowed random number generator of rand, of whatever kind. It is
/// opaque to the proofs: nothing is known of its state or of what it will
/// draw.
#[verifier::external_body]
pub struct Dice<'a> {
    pub rng: &'a mut dyn RngCore,
}

impl<'a> Dice<'a> {
    /// `Rng::gen::<usize>` of rand: one value of the generator's standard
    /// distribution over `usize`. Nothing is promised of the value; a
    /// caller has to work for every outcome.
    #[verifier::external_body]
    pub(crate) fn draw_usize(&mut self) -> (value: usize) {
        self.rng.gen::<usize>()
    }

    /// `Rng::gen::<u16>` of rand: one value of the generator's standard
    /// distribution over `u16`. Nothing is promised of the value; a caller
    /// has to work for every outcome.
    #[verifier::external_body]
    pub(crate) fn draw_u16(&mut self) -> (value: u16) {
        self.rng.gen::<u16>()
    }
}

} // verus!
