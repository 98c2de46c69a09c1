use ustripe::batman::{packet, BatmanAnimation, LEDS};

#[test]
fn packet_is_flat() {
    let pixels: Vec<[u8; 3]> = (0..LEDS as u8).map(|i| [i, i + 1, i + 2]).collect();
    let p = packet(&pixels);
    assert_eq!(p.len(), 3 * LEDS);
    assert_eq!(&p[..6], &[0, 1, 2, 1, 2, 3]);
}

#[test]
fn animation_fades_outwards() {
    let mut anim = BatmanAnimation::new();
    assert!(anim.takes_color());
    let first = anim.step([0x80, 0x40, 0xff]);
    assert_eq!(first.len(), LEDS);
    assert_eq!(first[LEDS / 2], [0x80, 0x40, 0xff]);
    // The copy next to the middle was made from the old (dark) color.
    assert_eq!(first[LEDS / 2 - 1], [0, 0, 0]);
    assert!(!anim.takes_color());
    let second = anim.step([1, 1, 1]);
    // Tick 1: shifted down by 2.
    assert_eq!(second[LEDS / 2 - 1], [0x20, 0x10, 0x3f]);
    assert_eq!(second[LEDS / 2 + 1], [0x20, 0x10, 0x3f]);
    assert_eq!(second[LEDS / 2], [0x80, 0x40, 0xff]);
    let third = anim.step([1, 1, 1]);
    assert_eq!(third[LEDS / 2 - 1], [0x40, 0x20, 0x7f]);
    assert_eq!(third[LEDS / 2 - 2], [0x20, 0x10, 0x3f]);
    for i in 0..LEDS {
        assert_eq!(third[i], third[LEDS - 1 - i]);
    }
}
