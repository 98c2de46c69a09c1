//! What the stripe controller firmware computes between its hardware
//! accesses: the start-up test patterns and its millisecond clock.
use vstd::prelude::*;

verus! {

/// Timer interrupts per second.
pub const TIMER_RATE: u32 = 4;

/// Number of RGBW LEDs the start-up pattern is made for.
pub const INIT_LEDS: usize = 640;

/// Byte `i` of the start-up pattern when `len` LEDs are lit.  Bytes go by
/// groups of four; the byte index wraps at 256.
pub open spec fn init_color(i: int, len: int) -> u8 {
    let b = (i % 256) as u8;
    if b % 4 == 0 {
        b / 4
    } else if b % 4 == 1 {
        (255 - b / 4) as u8
    } else if b % 4 == 2 {
        (len % 256) as u8
    } else {
        (31 * ((b / 4) % 8)) as u8
    }
}

/// The start-up pattern in groups of four: the first two bytes of a group
/// always add up to 255, the third is the step number (mod 256) and the
/// fourth is one of the eight levels `31 * k`; byte `i` and byte `i + 256`
/// are the same.
pub proof fn lemma_init_pattern(i: int, len: int)
    requires
        0 <= i,
    ensures
        i % 4 == 0 ==> init_color(i, len) as int + init_color(i + 1, len) as int == 255,
        i % 4 == 2 ==> init_color(i, len) == (len % 256) as u8,
        i % 4 == 3 ==> init_color(i, len) as int % 31 == 0 && init_color(i, len) <= 217,
        init_color(i, len) == init_color(i + 256, len),
{
    let b = (i % 256) as u8;
    assert(b % 4 == i % 4);
    if i % 4 == 0 {
        assert(((i + 1) % 256) as u8 == b + 1);
        assert((b + 1) as u8 / 4 == b / 4);
    }
    assert((i + 256) % 256 == i % 256);
}

/// The start-up pattern for step `len`: `4 * INIT_LEDS` bytes.
pub fn init_colors(len: usize) -> (r: Vec<u8>)
    ensures
        r@.len() == 4 * INIT_LEDS,
        forall|i: int| 0 <= i < 4 * INIT_LEDS ==> #[trigger] r@[i] == init_color(i, len as int),
{
    let mut colors: Vec<u8> = Vec::new();
    let mut k: usize = 0;
    while k < 4 * INIT_LEDS
        invariant
            k <= 4 * INIT_LEDS,
            colors@.len() == k,
            forall|i: int| 0 <= i < k ==> #[trigger] colors@[i] == init_color(i, len as int),
        decreases 4 * INIT_LEDS - k,
    {
        let i = (k % 256) as u8;
        let c: u8 = match i % 4 {
            0 => i / 4,
            1 => 255 - (i / 4),
            2 => (len % 256) as u8,
            _ => 31 * ((i / 4) % 8),
        };
        colors.push(c);
        k = k + 1;
    }
    colors
}

/// Byte `i` of the all-red pattern.
pub open spec fn red_color(i: int) -> u8 {
    if i % 4 == 0 {
        1
    } else {
        0
    }
}

/// The dim red pattern shown once the start-up is done.
pub fn red_colors() -> (r: Vec<u8>)
    ensures
        r@.len() == 4 * INIT_LEDS,
        forall|i: int| 0 <= i < 4 * INIT_LEDS ==> #[trigger] r@[i] == red_color(i),
{
    let mut colors: Vec<u8> = Vec::new();
    let mut k: usize = 0;
    while k < 4 * INIT_LEDS
        invariant
            k <= 4 * INIT_LEDS,
            colors@.len() == k,
            forall|i: int| 0 <= i < k ==> #[trigger] colors@[i] == red_color(i),
        decreases 4 * INIT_LEDS - k,
    {
        let c: u8 = match k % 4 {
            0 => 1,
            _ => 0,
        };
        colors.push(c);
        k = k + 1;
    }
    colors
}

/// The clock after one timer interrupt: a quarter second later, in ms.
pub fn advance_time(time: u64) -> (r: u64)
    requires
        time + 1000int / (TIMER_RATE as int) <= u64::MAX,
    ensures
        r == time + 1000int / (TIMER_RATE as int),
{
    time + (1000u32 / TIMER_RATE) as u64
}

} // verus!
