use ustripe::rstripee::{advance_time, init_colors, red_colors, INIT_LEDS};

#[test]
fn init_pattern() {
    let c = init_colors(5);
    assert_eq!(c.len(), 4 * INIT_LEDS);
    assert_eq!(&c[..8], &[0, 255, 5, 0, 1, 254, 5, 31]);
    // Byte 255: index wraps at 256.
    assert_eq!(c[255], 31 * (63 % 8));
    assert_eq!(&c[256..260], &[0, 255, 5, 0]);
    assert_eq!(init_colors(300)[2], 44);
}

#[test]
fn red_pattern() {
    let c = red_colors();
    assert_eq!(&c[..8], &[1, 0, 0, 0, 1, 0, 0, 0]);
    assert_eq!(c.iter().map(|b| *b as usize).sum::<usize>(), INIT_LEDS);
}

#[test]
fn clock_ticks() {
    assert_eq!(advance_time(0), 250);
    assert_eq!(advance_time(1000), 1250);
}
