use btclib::network::{announced_length, frame, payload_length, FrameError, MAX_MESSAGE_SIZE};

#[test]
fn frame_announces_the_payload_length() {
    let f = frame(b"hello");
    assert_eq!(f.len(), 13);
    let header: [u8; 8] = f[0..8].try_into().unwrap();
    assert_eq!(announced_length(&header), 5);
    assert_eq!(payload_length(&header), Ok(5));
    assert_eq!(&f[8..], b"hello");
}

#[test]
fn oversized_frames_are_refused() {
    let max = (MAX_MESSAGE_SIZE as u64).to_be_bytes();
    assert_eq!(payload_length(&max), Ok(MAX_MESSAGE_SIZE));
    let over = (MAX_MESSAGE_SIZE as u64 + 1).to_be_bytes();
    assert_eq!(payload_length(&over), Err(FrameError::MessageTooLarge(MAX_MESSAGE_SIZE as u64 + 1)));
}

#[test]
fn empty_payload_frame() {
    let f = frame(&[]);
    assert_eq!(f, vec![0u8; 8]);
}
