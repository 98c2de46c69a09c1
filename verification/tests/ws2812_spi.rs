use ustripe::ws2812_spi::{waveform_len, TimedData, RESAMPLED_KHZ, SAMPLERATE};

#[test]
fn encode_zero_byte() {
    let mut buf = [0u8; 16];
    let data = TimedData::encode(&[0x00], &mut buf[..]);
    // 72 samples, rounded past the byte boundary.
    assert_eq!(data.len(), 80);
    let out = data.into_inner();
    assert_eq!(
        &out[..9],
        &[0xe0, 0x70, 0x38, 0x1c, 0x0e, 0x07, 0x03, 0x81, 0xc0]
    );
    assert!(out[9..].iter().all(|b| *b == 0));
}

#[test]
fn encode_full_byte() {
    let mut buf = [0u8; 16];
    let data = TimedData::encode(&[0xff], &mut buf[..]);
    assert_eq!(data.len(), 104);
    let out = data.into_inner();
    assert_eq!(
        &out[..12],
        &[0xfe, 0x0f, 0xe0, 0xfe, 0x0f, 0xe0, 0xfe, 0x0f, 0xe0, 0xfe, 0x0f, 0xe0]
    );
}

#[test]
fn encode_mixed_byte() {
    let mut buf = [0u8; 11];
    let data = TimedData::encode(&[0xa5], &mut buf[..]);
    assert_eq!(data.len(), 88);
    let out = data.into_inner();
    assert_eq!(
        out,
        &[0xfe, 0x0e, 0x07, 0xf0, 0x70, 0x38, 0x1f, 0xc1, 0xc0, 0xfe, 0x00]
    );
}

#[test]
fn encode_is_byte_by_byte() {
    let mut one = [0u8; 32];
    let mut two = [0u8; 32];
    let a = TimedData::encode(&[0x00, 0xff], &mut one[..]).into_inner().to_vec();
    let b = TimedData::encode(&[0x00], &mut two[..]).into_inner().to_vec();
    // 72 samples of the first byte end in the middle of byte 9.
    assert_eq!(&a[..9], &b[..9]);
    assert_eq!(a[9], 0xfe);
}

#[test]
fn encode_keeps_tail_of_buffer() {
    let mut buf = [0xffu8; 12];
    let data = TimedData::encode(&[0xa5], &mut buf[..]);
    let out = data.into_inner();
    assert_eq!(
        &out[..10],
        &[0xfe, 0x0e, 0x07, 0xf0, 0x70, 0x38, 0x1f, 0xc1, 0xc0, 0xfe]
    );
    // Samples 80..84 are written low, 84..88 keep what the buffer held.
    assert_eq!(out[10], 0x0f);
    assert_eq!(out[11], 0xff);
}

#[test]
fn encode_nothing() {
    let mut buf = [0u8; 8];
    let data = TimedData::encode(&[], &mut buf[..]);
    assert_eq!(data.len(), 8);
    assert_eq!(data.as_ref(), &[0u8; 8]);
}

#[test]
fn as_ref_takes_len_bytes() {
    let mut buf = [0u8; 128];
    let data = TimedData::encode(&[0x00], &mut buf[..]);
    let bytes = data.as_ref();
    assert_eq!(bytes.len(), 80);
    assert_eq!(bytes[0], 0xe0);
}

#[test]
fn waveform_lengths() {
    assert_eq!(waveform_len(&[0x00], 1000), Some(72));
    assert_eq!(waveform_len(&[0xff], 1000), Some(96));
    assert_eq!(waveform_len(&[0xa5, 0x00], 1000), Some(156));
    assert_eq!(waveform_len(&[0xff], 95), None);
    assert_eq!(waveform_len(&[], 0), Some(0));
}

#[test]
fn spi_rate() {
    assert_eq!(SAMPLERATE, 12);
    assert_eq!(RESAMPLED_KHZ, 9600);
}
