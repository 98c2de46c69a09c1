//! The LEDs of the ball lie on a spiral from the south pole to the north
//! pole.  This walks the spiral by LED index; the coordinates of an index
//! are floating point and computed where the ball is drawn.
use vstd::prelude::*;

verus! {

/// Walks the LEDs of the spiral in order.
pub struct SphericalSpiralIterator {
    n: usize,
}

impl SphericalSpiralIterator {
    /// The index of the next LED.
    pub closed spec fn position(&self) -> nat {
        self.n as nat
    }

    /// At the first LED.
    pub fn new() -> (r: Self)
        ensures
            r.position() == 0,
    {
        SphericalSpiralIterator { n: 0 }
    }

    /// The index of the next of `leds` LEDs, or `None` past the last one.
    pub fn next_index(&mut self, leds: usize) -> (r: Option<usize>)
        ensures
            old(self).position() < leds ==> r == Some(old(self).position() as usize)
                && final(self).position() == old(self).position() + 1,
            old(self).position() >= leds ==> r is None && final(self).position() == old(
                self,
            ).position(),
    {
        if self.n >= leds {
            return None;
        }
        let n = self.n;
        self.n = self.n + 1;
        Some(n)
    }
}

} // verus!
