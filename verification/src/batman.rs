//! The status light: a color in the middle of the stripe whose fading
//! copies run out to both ends.
use vstd::prelude::*;
use crate::ustripe::{flat, flatten_pixels};

verus! {

/// Number of LEDs on the status stripe.
pub const LEDS: usize = 39;

/// Number of LEDs on each side of the middle one.
pub const HALF: usize = LEDS / 2;

/// How many ticks a color stays in the middle.
pub const COLOR_TICKS: usize = 13;

/// The packet that the status stripe takes: the pixel bytes in a row.
pub fn packet(pixels: &[[u8; 3]]) -> (r: Vec<u8>)
    requires
        pixels@.len() == LEDS,
    ensures
        r@ == flat(pixels@),
{
    flatten_pixels(pixels)
}

/// How far the color is shifted down at tick `t`.
pub open spec fn fade_shift(t: nat) -> nat {
    if t <= 3 {
        (3 - t) as nat
    } else {
        (t - 3) as nat
    }
}

/// `color` dimmed for tick `t`.
pub open spec fn faded(color: [u8; 3], t: nat) -> [u8; 3] {
    [
        color[0] >> (fade_shift(t) as u8),
        color[1] >> (fade_shift(t) as u8),
        color[2] >> (fade_shift(t) as u8),
    ]
}

proof fn lemma_shift_halves(x: u8, k: u8)
    requires
        k < 7,
    ensures
        x >> ((k + 1) as u8) == (x >> k) / 2,
        x >> 0u8 == x,
{
    assert(x >> ((k + 1) as u8) == (x >> k) / 2) by (bit_vector)
        requires
            k < 7,
    ;
    assert(x >> 0u8 == x) by (bit_vector);
}

/// The copies fade by halves: at tick 3 the copy is the color itself; each
/// tick before 3 it is half as bright as at the next tick, each tick after
/// 3 (up to tick 10) half as bright as at the tick before (rounded down).
pub proof fn lemma_fade_halves(color: [u8; 3], t: nat, c: int)
    requires
        0 <= c < 3,
        t < 10,
    ensures
        faded(color, 3)[c] == color[c],
        3 <= t ==> faded(color, t + 1)[c] == faded(color, t)[c] / 2,
        t < 3 ==> faded(color, t)[c] == faded(color, t + 1)[c] / 2,
{
    lemma_shift_halves(color[c], 0);
    if 3 <= t {
        lemma_shift_halves(color[c], (t - 3) as u8);
    } else {
        lemma_shift_halves(color[c], (2 - t) as u8);
    }
}

/// The stripe for one side `half` around the middle `color`: the side,
/// the color, the side mirrored.
pub open spec fn mirrored(half: Seq<[u8; 3]>, color: [u8; 3]) -> Seq<[u8; 3]> {
    half + seq![color] + half.reverse()
}

/// The stripe is symmetric around its middle LED, which shows the color.
pub proof fn lemma_mirrored_symmetric(half: Seq<[u8; 3]>, color: [u8; 3])
    requires
        half.len() == HALF,
    ensures
        mirrored(half, color).len() == LEDS,
        mirrored(half, color)[HALF as int] == color,
        forall|i: int|
            0 <= i < LEDS ==> #[trigger] mirrored(half, color)[i] == mirrored(half, color)[LEDS
                - 1 - i],
{
    let m = mirrored(half, color);
    assert forall|i: int| 0 <= i < LEDS implies #[trigger] m[i] == m[LEDS - 1 - i] by {
        if i < HALF {
            assert(m[LEDS - 1 - i] == half.reverse()[HALF - 1 - i]);
        } else if i > HALF {
            assert(m[i] == half.reverse()[i - HALF - 1]);
        }
    }
}

/// The state of the status animation.
pub struct BatmanAnimation {
    half: Vec<[u8; 3]>,
    color: [u8; 3],
    t: usize,
}

impl BatmanAnimation {
    /// The side of the stripe, from the end to the middle.
    pub closed spec fn side(&self) -> Seq<[u8; 3]> {
        self.half@
    }

    /// The color in the middle.
    pub closed spec fn middle(&self) -> [u8; 3] {
        self.color
    }

    /// The number of the next tick.
    pub closed spec fn tick(&self) -> nat {
        self.t as nat
    }

    /// All dark, at tick 0.
    pub fn new() -> (r: Self)
        ensures
            r.side() == Seq::new(HALF as nat, |_i: int| [0u8, 0u8, 0u8]),
            r.middle() == [0u8, 0u8, 0u8],
            r.tick() == 0,
    {
        let mut half: Vec<[u8; 3]> = Vec::new();
        let mut k: usize = 0;
        while k < HALF
            invariant
                k <= HALF,
                half@ == Seq::new(k as nat, |_i: int| [0u8, 0u8, 0u8]),
            decreases HALF - k,
        {
            half.push([0u8, 0u8, 0u8]);
            k = k + 1;
            assert(half@ =~= Seq::new(k as nat, |_i: int| [0u8, 0u8, 0u8]));
        }
        BatmanAnimation { half, color: [0u8, 0u8, 0u8], t: 0 }
    }

    /// Whether the next step puts a fresh color in the middle.
    pub fn takes_color(&self) -> (r: bool)
        ensures
            r == (self.tick() % (COLOR_TICKS as nat) == 0),
    {
        self.t % COLOR_TICKS == 0
    }

    /// One tick: the side moves one LED outwards and gets the middle color,
    /// dimmed for the tick, next to the middle; every `COLOR_TICKS` ticks
    /// `fresh` becomes the middle color.  Returns the whole stripe.
    ///
    /// The dimming shift has to stay below 8, which holds up to tick 10.
    pub fn step(&mut self, fresh: [u8; 3]) -> (r: Vec<[u8; 3]>)
        requires
            old(self).side().len() == HALF,
            old(self).tick() <= 10,
        ensures
            final(self).side() == old(self).side().drop_first().push(
                faded(old(self).middle(), old(self).tick()),
            ),
            final(self).middle() == (if old(self).tick() % (COLOR_TICKS as nat) == 0 {
                fresh
            } else {
                old(self).middle()
            }),
            final(self).tick() == old(self).tick() + 1,
            r@ == mirrored(final(self).side(), final(self).middle()),
            r@.len() == LEDS,
    {
        let t = self.t;
        self.half.remove(0);
        let shift: u8 = if t <= 3 {
            (3 - t) as u8
        } else {
            (t - 3) as u8
        };
        let color = self.color;
        let mid: [u8; 3] = [color[0] >> shift, color[1] >> shift, color[2] >> shift];
        self.half.push(mid);
        assert(self.half@ =~= old(self).half@.drop_first().push(faded(old(self).color, t as nat)));
        if t % COLOR_TICKS == 0 {
            self.color = fresh;
        }
        self.t = t + 1;
        let mut pixels: Vec<[u8; 3]> = Vec::new();
        let mut k: usize = 0;
        while k < self.half.len()
            invariant
                k <= self.half@.len(),
                pixels@ == self.half@.subrange(0, k as int),
            decreases self.half@.len() - k,
        {
            pixels.push(self.half[k]);
            k = k + 1;
            assert(pixels@ =~= self.half@.subrange(0, k as int));
        }
        pixels.push(self.color);
        let n = self.half.len();
        let mut j: usize = 0;
        while j < n
            invariant
                j <= n,
                n == self.half@.len(),
                pixels@ == self.half@ + seq![self.color] + self.half@.reverse().subrange(
                    0,
                    j as int,
                ),
            decreases n - j,
        {
            pixels.push(self.half[n - 1 - j]);
            j = j + 1;
            assert(pixels@ =~= self.half@ + seq![self.color] + self.half@.reverse().subrange(
                0,
                j as int,
            ));
        }
        assert(self.half@.reverse().subrange(0, n as int) =~= self.half@.reverse());
        pixels
    }
}

} // verus!
