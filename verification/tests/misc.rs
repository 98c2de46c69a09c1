use ustripe::ledball::SphericalSpiralIterator;
use ustripe::ustripe::flatten_pixels;
use ustripe::ustripe_twinkling::twinkle;

#[test]
fn spiral_counts_leds() {
    let mut it = SphericalSpiralIterator::new();
    assert_eq!(it.next_index(3), Some(0));
    assert_eq!(it.next_index(3), Some(1));
    assert_eq!(it.next_index(3), Some(2));
    assert_eq!(it.next_index(3), None);
    assert_eq!(it.next_index(3), None);
}

#[test]
fn twinkle_run() {
    let mut data = [[0u8; 3]; 10];
    twinkle(&mut data, 3, 2, [1, 2, 3]);
    assert_eq!(data[2], [0, 0, 0]);
    assert_eq!(data[3], [1, 2, 3]);
    assert_eq!(data[4], [1, 2, 3]);
    assert_eq!(data[5], [0, 0, 0]);
}

#[test]
fn twinkle_cut_at_end() {
    let mut data = [[0u8; 3]; 10];
    twinkle(&mut data, 20, 4, [9, 9, 9]);
    assert_eq!(data[9], [9, 9, 9]);
    assert_eq!(data[8], [0, 0, 0]);
    let mut data = [[0u8; 3]; 10];
    twinkle(&mut data, 8, 4, [9, 9, 9]);
    assert_eq!(&data[7..], &[[0, 0, 0], [9, 9, 9], [9, 9, 9]]);
}

#[test]
fn flatten() {
    assert_eq!(flatten_pixels(&[[1, 2, 3], [4, 5, 6]]), vec![1, 2, 3, 4, 5, 6]);
    assert!(flatten_pixels(&[]).is_empty());
}
