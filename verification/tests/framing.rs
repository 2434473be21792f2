use robot_core::decoder::FrameDecoder;
use robot_core::frame::FRAME_QUEUE_CAPACITY;

/// The wire bytes of one frame: magic, declared length little-endian, id,
/// payload.
fn frame_stream(id: u8, payload: &[u8]) -> Vec<u8> {
    let declared = (payload.len() + 1) as u16;
    let mut v = vec![0xAC, 0xDC, 0xAB, 0xBA];
    v.push((declared % 256) as u8);
    v.push((declared / 256) as u8);
    v.push(id);
    v.extend_from_slice(payload);
    v
}

#[test]
fn resync_after_false_start() {
    let mut d = FrameDecoder::new();
    d.feed_buffer(&[0xAC, 0x00, 0xAC, 0xDC, 0xAB, 0xBA, 0x03, 0x00, 0x07, 0x10, 0x11]);
    let f = d.pop_frame().expect("exactly one frame");
    assert_eq!(f.id, 7);
    assert_eq!(f.payload, vec![0x10, 0x11]);
    assert!(d.pop_frame().is_none());
}

#[test]
fn whole_stream_yields_one_frame() {
    let mut d = FrameDecoder::new();
    d.feed_buffer(&frame_stream(9, &[0xAA, 0xBB, 0xCC]));
    let f = d.pop_frame().expect("exactly one frame");
    assert_eq!(f.id, 9);
    assert_eq!(f.payload, vec![0xAA, 0xBB, 0xCC]);
    assert!(d.pop_frame().is_none());
}

#[test]
fn chunking_never_changes_the_outcome() {
    let stream = frame_stream(42, &[1, 2, 3, 4, 5]);
    for cut in 0..=stream.len() {
        let mut d = FrameDecoder::new();
        d.feed_buffer(&stream[..cut]);
        d.feed_buffer(&stream[cut..]);
        let f = d.pop_frame().expect("one frame whatever the cut");
        assert_eq!(f.id, 42);
        assert_eq!(f.payload, vec![1, 2, 3, 4, 5]);
        assert!(d.pop_frame().is_none());
    }
}

#[test]
fn byte_by_byte_matches_whole_buffer() {
    let stream = frame_stream(3, &[7, 8]);
    let mut d = FrameDecoder::new();
    for b in &stream {
        d.feed(*b);
    }
    let f = d.pop_frame().expect("one frame");
    assert_eq!(f.id, 3);
    assert_eq!(f.payload, vec![7, 8]);
}

#[test]
fn no_magic_no_frames() {
    let mut d = FrameDecoder::new();
    d.feed_buffer(&[0x00, 0x01, 0xAC, 0xDC, 0x55, 0xBA, 0xAB, 0xFF]);
    assert!(d.pop_frame().is_none());
    assert_eq!(d.dropped_frames(), 0);
}

#[test]
fn garbage_then_valid_frame_still_decodes() {
    let mut d = FrameDecoder::new();
    d.feed_buffer(&[1, 2, 3]);
    assert!(d.pop_frame().is_none());
    d.feed_buffer(&frame_stream(6, &[0x44]));
    let f = d.pop_frame().expect("one frame after garbage");
    assert_eq!(f.id, 6);
    assert_eq!(f.payload, vec![0x44]);
}

#[test]
fn zero_length_abandons_the_frame() {
    let mut d = FrameDecoder::new();
    d.feed_buffer(&[0xAC, 0xDC, 0xAB, 0xBA, 0x00, 0x00]);
    assert!(d.pop_frame().is_none());
    d.feed_buffer(&frame_stream(1, &[0x10]));
    let f = d.pop_frame().expect("decoder reset to its initial state");
    assert_eq!(f.id, 1);
}

#[test]
fn oversized_length_abandons_the_frame() {
    let mut d = FrameDecoder::new();
    d.feed_buffer(&[0xAC, 0xDC, 0xAB, 0xBA, 0x01, 0x08]);
    assert!(d.pop_frame().is_none());
    d.feed_buffer(&frame_stream(2, &[0x20]));
    let f = d.pop_frame().expect("decoder reset to its initial state");
    assert_eq!(f.id, 2);
}

#[test]
fn largest_declared_length_is_accepted() {
    let payload = vec![0x5A; 2047];
    let mut d = FrameDecoder::new();
    d.feed_buffer(&frame_stream(8, &payload));
    let f = d.pop_frame().expect("one frame at the size limit");
    assert_eq!(f.id, 8);
    assert_eq!(f.payload.len(), 2047);
}

#[test]
fn zero_payload_frame_is_accepted() {
    let mut d = FrameDecoder::new();
    d.feed_buffer(&frame_stream(5, &[]));
    let f = d.pop_frame().expect("one frame with empty payload");
    assert_eq!(f.id, 5);
    assert!(f.payload.is_empty());
}

#[test]
fn full_queue_drops_the_newest_frame() {
    let mut d = FrameDecoder::new();
    for id in 0..(FRAME_QUEUE_CAPACITY as u8 + 1) {
        d.feed_buffer(&frame_stream(id, &[id]));
    }
    assert_eq!(d.dropped_frames(), 1);
    let first = d.pop_frame().expect("oldest frame still retrievable");
    assert_eq!(first.id, 0);
    for id in 1..(FRAME_QUEUE_CAPACITY as u8) {
        let f = d.pop_frame().expect("queued frame");
        assert_eq!(f.id, id);
    }
    assert!(d.pop_frame().is_none());
}
