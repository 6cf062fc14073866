//! A source of numbers that repeats a given series for ever.

use vstd::prelude::*;

verus! {

/// A generator that hands out the numbers of a series in turn and starts
/// again at its first number when the series is used up.
pub struct SeriesRng {
    series: Vec<u64>,
    position: usize,
}

impl SeriesRng {
    /// The numbers that are handed out, in order.
    pub closed spec fn series(&self) -> Seq<u64> {
        self.series@
    }

    /// The place in the series of the number that comes next.
    pub closed spec fn position(&self) -> int {
        self.position as int
    }

    /// The generator stands at a number of its series.
    pub closed spec fn wf(&self) -> bool {
        self.position < self.series@.len()
    }

    /// A generator that starts at the first number of `iterable`, which is
    /// not empty.
    pub fn new(iterable: Vec<u64>) -> (rng: SeriesRng)
        requires
            iterable@.len() > 0,
        ensures
            rng.wf(),
            rng.series() == iterable@,
            rng.position() == 0,
    {
        SeriesRng { series: iterable, position: 0 }
    }

    /// The low 32 bits of the next number.
    pub fn next_u32(&mut self) -> (value: u32)
        requires
            old(self).wf(),
        ensures
            final(self).wf(),
            final(self).series() == old(self).series(),
            final(self).position() == (old(self).position() + 1) % (
            old(self).series().len() as int),
            value == old(self).series()[old(self).position()] % 0x1_0000_0000,
    {
        let value = self.next_u64();
        (value % 0x1_0000_0000) as u32
    }

    /// The next number of the series.
    pub fn next_u64(&mut self) -> (value: u64)
        requires
            old(self).wf(),
        ensures
            final(self).wf(),
            final(self).series() == old(self).series(),
            final(self).position() == (old(self).position() + 1) % (
            old(self).series().len() as int),
            value == old(self).series()[old(self).position()],
    {
        let count = self.series.len();
        let value = self.series[self.position];
        if self.position + 1 < count {
            self.position = self.position + 1;
            proof {
                vstd::arithmetic::div_mod::lemma_small_mod(self.position as nat, count as nat);
            }
        } else {
            self.position = 0;
            proof {
                vstd::arithmetic::div_mod::lemma_mod_self_0(count as int);
            }
        }
        value
    }
}

} // verus!
