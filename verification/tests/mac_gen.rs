use ustripe::mac_gen::MacAddrGenerator;

#[test]
fn fresh_generator() {
    let g = MacAddrGenerator::new();
    assert_eq!(g.into_addr(), [0x02, 0, 0, 0, 0, 0]);
}

#[test]
fn first_octet_keeps_flags() {
    let mut g = MacAddrGenerator::new();
    g.feed(&[0xff]);
    assert_eq!(g.into_addr(), [0xfe, 0, 0, 0, 0, 0]);
    let mut g = MacAddrGenerator::new();
    g.feed(&[0x03]);
    assert_eq!(g.into_addr(), [0x02, 0, 0, 0, 0, 0]);
}

#[test]
fn bytes_go_round_robin() {
    let mut g = MacAddrGenerator::new();
    g.feed(&[0x10, 0x11, 0x12, 0x13, 0x14, 0x15, 0x20, 0x01]);
    // The seventh byte goes to the first octet again, the eighth to the second.
    assert_eq!(g.into_addr(), [0x32, 0x10, 0x12, 0x13, 0x14, 0x15]);
}

#[test]
fn device_id_address() {
    let udid: [u8; 12] = [0x36, 0x00, 0x41, 0x00, 0x0f, 0x51, 0x36, 0x36, 0x32, 0x38, 0x39, 0x31];
    let mut g = MacAddrGenerator::new();
    g.feed(&udid);
    let mac = g.into_addr();
    assert_eq!(mac, [0x02, 0x36, 0x73, 0x38, 0x36, 0x60]);
    assert_eq!(mac[0] & 0b11, 0b10);
}

#[test]
fn split_feeding_is_the_same() {
    let bytes: Vec<u8> = (0u8..23).map(|i| i.wrapping_mul(37)).collect();
    let mut whole = MacAddrGenerator::new();
    whole.feed(&bytes);
    let mut parts = MacAddrGenerator::new();
    parts.feed(&bytes[..5]);
    parts.feed(&bytes[5..16]);
    parts.feed(&bytes[16..]);
    assert_eq!(whole.into_addr(), parts.into_addr());
}
