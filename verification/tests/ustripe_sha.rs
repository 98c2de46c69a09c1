use ustripe::ustripe_sha::{hash_to_colors, line_colors};

const ABC_SHA1: [u8; 20] = [
    0xa9, 0x99, 0x3e, 0x36, 0x47, 0x06, 0x81, 0x6a, 0xba, 0x3e, 0x25, 0x71, 0x78, 0x50, 0xc2,
    0x6c, 0x9c, 0xd0, 0xd8, 0x9d,
];

#[test]
fn colors_from_hash() {
    let hash: [u8; 20] = core::array::from_fn(|i| i as u8);
    let colors = hash_to_colors(&hash, 12);
    assert_eq!(colors.len(), 12);
    // Two LEDs per part, six parts; blue is byte 3 everywhere.
    assert_eq!(colors[0], [0, 1, 3]);
    assert_eq!(colors[1], [0, 1, 3]);
    assert_eq!(colors[2], [3, 4, 3]);
    assert_eq!(colors[11], [15, 16, 3]);
}

#[test]
fn colors_for_few_leds() {
    let hash: [u8; 20] = core::array::from_fn(|i| 100 + i as u8);
    let colors = hash_to_colors(&hash, 4);
    // Part index 6 * x / 4: 0, 1, 3, 4.
    assert_eq!(colors, vec![[100, 101, 103], [103, 104, 103], [109, 110, 103], [112, 113, 103]]);
    assert!(hash_to_colors(&hash, 0).is_empty());
}

#[test]
fn colors_of_a_line() {
    let colors = line_colors(b"abc", 6);
    let expected: Vec<[u8; 3]> = (0..6)
        .map(|x| [ABC_SHA1[3 * x], ABC_SHA1[3 * x + 1], ABC_SHA1[3]])
        .collect();
    assert_eq!(colors, expected);
    assert_eq!(colors[0], [0xa9, 0x99, 0x36]);
}
