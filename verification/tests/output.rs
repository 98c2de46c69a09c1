use ustripe::output::{rgb_to_rgbw, Model, RgbToRgbw, SK6812_BUF_LEN};

#[test]
fn spi_clocks() {
    assert_eq!(Model::WS2801.spi_clock(), 2000);
    assert_eq!(Model::SK6812RGBW.spi_clock(), 9600);
    assert_eq!(Model::WS2801.delay_us(), 500);
    assert_eq!(Model::SK6812RGBW.delay_us(), 50);
}

#[test]
fn white_is_taken_out() {
    let rgb = [10u8, 20, 30];
    let mut conv = RgbToRgbw::new(&rgb);
    assert_eq!(conv.next(), Some(0));
    assert_eq!(conv.next(), Some(10));
    assert_eq!(conv.next(), Some(20));
    assert_eq!(conv.next(), Some(10));
    assert_eq!(conv.next(), None);
    assert_eq!(conv.next(), None);
}

#[test]
fn partial_pixel_is_dropped() {
    assert_eq!(rgb_to_rgbw(&[255, 255, 255, 7, 8]), vec![0, 0, 0, 255]);
    assert_eq!(rgb_to_rgbw(&[1, 2]), Vec::<u8>::new());
    assert_eq!(rgb_to_rgbw(&[9, 3, 200, 0, 0, 0]), vec![6, 0, 197, 3, 0, 0, 0, 0]);
}

#[test]
fn ws2801_frame_is_the_data() {
    let rgb = [1u8, 2, 3, 4];
    assert!(Model::WS2801.frame_fits(&rgb));
    assert_eq!(Model::WS2801.frame(&rgb), rgb.to_vec());
}

#[test]
fn sk6812_frame_must_fill_the_buffer() {
    assert!(!Model::SK6812RGBW.frame_fits(&[1, 2, 3]));
    assert!(!Model::SK6812RGBW.frame_fits(&[0u8; 3 * 400]));
}

#[test]
fn sk6812_frame() {
    // 53 pixels: 212 RGBW bytes of 72 samples each, plus 3 samples for
    // every one bit: 30 one bits make 15354 samples.
    let mut rgb = vec![255u8, 0, 0, 255, 0, 0, 255, 0, 0, 63, 0, 0];
    rgb.extend(std::iter::repeat(0u8).take(3 * 49));
    assert!(Model::SK6812RGBW.frame_fits(&rgb));
    let out = Model::SK6812RGBW.frame(&rgb);
    assert_eq!(out.len(), SK6812_BUF_LEN);
    // First RGBW byte 0xff: pulses of a one.
    assert_eq!(&out[..3], &[0xfe, 0x0f, 0xe0]);
    // The last samples are zero pulses: 111000000 ending at sample 15353.
    assert_eq!(out[SK6812_BUF_LEN - 1], 0x00);
}
