//! Twinkling: random short runs of LEDs take random colors.
use vstd::prelude::*;

verus! {

/// The first LED of a run drawn at `x`: at most the last LED.
pub open spec fn run_start(x: usize, leds: usize) -> usize {
    if x <= leds - 1 {
        x
    } else {
        (leds - 1) as usize
    }
}

/// The length of a run drawn as `w` LEDs from `start`: it stops at the end
/// of the stripe.
pub open spec fn run_len(start: usize, w: usize, leds: usize) -> usize {
    if w <= leds - start {
        w
    } else {
        (leds - start) as usize
    }
}

/// The run lies on the stripe and is never longer than asked for; a run
/// that fits is colored exactly where asked, and a run starting past the
/// end becomes the last LED's run.
pub proof fn lemma_run_in_stripe(x: usize, w: usize, leds: usize)
    requires
        leds > 0,
    ensures
        run_start(x, leds) < leds,
        run_start(x, leds) + run_len(run_start(x, leds), w, leds) <= leds,
        run_len(run_start(x, leds), w, leds) <= w,
        x < leds && x + w <= leds ==> run_start(x, leds) == x && run_len(x, w, leds) == w,
        x >= leds ==> run_start(x, leds) == leds - 1,
{
}

/// Color the run of `w` LEDs from `x` with `rgb`, cut to the stripe.
pub fn twinkle(data: &mut [[u8; 3]], x: usize, w: usize, rgb: [u8; 3])
    requires
        old(data)@.len() > 0,
    ensures
        final(data)@.len() == old(data)@.len(),
        ({
            let start = run_start(x, old(data)@.len() as usize);
            let len = run_len(start, w, old(data)@.len() as usize);
            forall|i: int|
                0 <= i < old(data)@.len() ==> #[trigger] final(data)@[i] == if start <= i < start
                    + len {
                    rgb
                } else {
                    old(data)@[i]
                }
        }),
{
    let leds = data.len();
    let x = if x <= leds - 1 {
        x
    } else {
        leds - 1
    };
    let w = if w <= leds - x {
        w
    } else {
        leds - x
    };
    let mut x1 = x;
    while x1 < x + w
        invariant
            x <= x1 <= x + w,
            x + w <= leds,
            data@.len() == leds,
            forall|i: int|
                0 <= i < leds ==> #[trigger] data@[i] == if x <= i < x1 {
                    rgb
                } else {
                    old(data)@[i]
                },
        decreases x + w - x1,
    {
        data[x1] = rgb;
        x1 = x1 + 1;
    }
}

} // verus!
