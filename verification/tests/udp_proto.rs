use ustripe::udp_proto::{ProtoError, Receiver};
use ustripe::ustripe::frame;

#[test]
fn short_frame_is_illegal() {
    let mut r = Receiver::new();
    assert_eq!(r.poll(Some(&[0, 0, 0][..]), 10), Err(ProtoError::Illegal));
}

#[test]
fn wrong_length_is_illegal() {
    let mut r = Receiver::new();
    assert_eq!(r.poll(Some(&[0, 0, 0, 2, 1][..]), 10), Err(ProtoError::Illegal));
    assert_eq!(r.poll(Some(&[0, 0, 0, 0, 1][..]), 10), Err(ProtoError::Illegal));
}

#[test]
fn unknown_command_is_unrecognized() {
    let mut r = Receiver::new();
    assert_eq!(r.poll(Some(&[0, 1, 0, 1, 7][..]), 10), Err(ProtoError::Unrecognized));
}

#[test]
fn pixel_frame_is_displayed() {
    let mut r = Receiver::new();
    let packet = [5u8, 0, 0, 3, 1, 2, 3];
    assert_eq!(r.poll(Some(&packet[..]), 10), Ok(Some(&[1u8, 2, 3][..])));
}

#[test]
fn long_length_field() {
    let mut packet = vec![0u8, 0, 1, 2];
    packet.extend(std::iter::repeat(9u8).take(258));
    let mut r = Receiver::new();
    let shown = r.poll(Some(&packet[..]), 0).unwrap().unwrap();
    assert_eq!(shown.len(), 258);
}

#[test]
fn lower_priority_is_ignored_until_timeout() {
    let mut r = Receiver::new();
    assert_eq!(r.poll(Some(&[3, 0, 0, 1, 42][..]), 1000), Ok(Some(&[42u8][..])));
    // Channel 4 is lower priority than channel 3.
    assert_eq!(r.poll(Some(&[4, 0, 0, 1, 43][..]), 1100), Ok(None));
    // Channel 2 preempts.
    assert_eq!(r.poll(Some(&[2, 0, 0, 1, 44][..]), 1200), Ok(Some(&[44u8][..])));
    // No frame, still within the timeout of the last frame at 1200.
    assert_eq!(r.poll(None, 1699), Ok(None));
    assert_eq!(r.poll(Some(&[3, 0, 0, 1, 45][..]), 1699), Ok(None));
    // Timeout passed: any channel is taken.
    assert_eq!(r.poll(None, 1700), Ok(None));
    assert_eq!(r.poll(Some(&[200, 0, 0, 1, 46][..]), 1701), Ok(Some(&[46u8][..])));
}

#[test]
fn errors_keep_priority() {
    let mut r = Receiver::new();
    assert_eq!(r.poll(Some(&[1, 0, 0, 0][..]), 0), Ok(Some(&[][..])));
    assert_eq!(r.poll(Some(&[0, 9, 0, 0][..]), 10), Err(ProtoError::Unrecognized));
    assert_eq!(r.poll(Some(&[2, 0, 0, 0][..]), 20), Ok(None));
}

#[test]
fn sent_frame_is_received() {
    let pixels = [[1u8, 2, 3], [4, 5, 6]];
    let packet = frame(7, &pixels);
    assert_eq!(packet, vec![7, 0, 0, 6, 1, 2, 3, 4, 5, 6]);
    let mut r = Receiver::new();
    assert_eq!(r.poll(Some(&packet[..]), 0), Ok(Some(&[1u8, 2, 3, 4, 5, 6][..])));
}
