use muxrs::ReadPhase;
use muxrs::{Flag, Frame, FrameType, MuxHeader, Shared, Stream, HEADER_LENGTH};
use std::task::Waker;

fn frame(id: u32, flag: Flag, data: Vec<u8>) -> Frame {
    Frame::new(MuxHeader::new(id, data.len() as u32, Some(flag), Some(FrameType::Data)), data)
}

fn waker() -> Waker {
    Waker::noop().clone()
}

#[test]
fn shared_starts_empty() {
    let _s = Shared::new();
}

#[test]
fn new_stream_is_empty_and_not_ready() {
    let mut s = Stream::new(5);
    assert_eq!(s.id(), 5);
    assert_eq!(s.buffered(), 0);
    assert!(s.poll_write(b"x", waker()).is_none());
    assert!(s.poll_read(4, waker()).is_none());
}

#[test]
fn handshake_frame_is_skipped() {
    let mut s = Stream::new(1);
    assert_eq!(s.write_to_buffer(frame(1, Flag::Syn, vec![])), 0);
    assert_eq!(s.buffered(), 0);
    assert!(s.poll_write(b"x", waker()).is_none());
}

#[test]
fn data_frame_is_buffered_whole() {
    let mut s = Stream::new(1);
    assert_eq!(s.write_to_buffer(frame(1, Flag::Syn, b"ping".to_vec())), 4);
    assert_eq!(s.buffered(), HEADER_LENGTH + 4);
}

#[test]
fn acknowledgement_makes_stream_ready_and_is_buffered() {
    let mut s = Stream::new(3);
    assert_eq!(s.write_to_buffer(frame(3, Flag::Ack, vec![])), 0);
    assert_eq!(s.buffered(), HEADER_LENGTH);
    let (h, data, n) = s.poll_write(b"abc", waker()).expect("ready");
    assert_eq!(h.to_bytes(), [0, 0, 0, 3, 0, 0, 0, 3, 1, 3]);
    assert_eq!(data, b"abc".to_vec());
    assert_eq!(n, 3 + HEADER_LENGTH);
}

#[test]
fn read_takes_prefix_and_reports_held_count() {
    let mut s = Stream::new(1);
    s.write_to_buffer(frame(1, Flag::Syn, b"ping".to_vec()));
    let (head, n) = s.poll_read(HEADER_LENGTH, waker()).expect("bytes held");
    assert_eq!(head, vec![0, 0, 0, 1, 0, 0, 0, 4, 1, 3]);
    assert_eq!(n, HEADER_LENGTH + 4);
    let (body, n) = s.poll_read(4, waker()).expect("bytes held");
    assert_eq!(body, b"ping".to_vec());
    assert_eq!(n, 4);
    assert_eq!(s.buffered(), 0);
}

#[test]
fn frames_read_back_in_order() {
    let mut s = Stream::new(2);
    s.write_to_buffer(frame(2, Flag::Syn, b"one".to_vec()));
    s.write_to_buffer(frame(2, Flag::Syn, b"three".to_vec()));
    for expected in [b"one".to_vec(), b"three".to_vec()] {
        let (head, _) = s.poll_read(HEADER_LENGTH, waker()).unwrap();
        let mut arr = [0u8; HEADER_LENGTH];
        arr.copy_from_slice(&head);
        let h = MuxHeader::from_bytes(arr);
        assert_eq!(h.id(), 2);
        let (body, _) = s.poll_read(h.len(), waker()).unwrap();
        assert_eq!(body, expected);
    }
    assert_eq!(s.buffered(), 0);
}

#[test]
fn empty_read_of_held_bytes_takes_nothing() {
    let mut s = Stream::new(1);
    s.write_to_buffer(frame(1, Flag::Fin, vec![]));
    let (bytes, n) = s.poll_read(0, waker()).unwrap();
    assert!(bytes.is_empty());
    assert_eq!(n, HEADER_LENGTH);
    assert_eq!(s.buffered(), HEADER_LENGTH);
}

#[test]
fn wake_without_parked_tasks_does_nothing() {
    let mut s = Stream::new(1);
    s.wake();
    s.wake_write();
    assert!(s.poll_read(1, waker()).is_none());
    s.wake();
    assert_eq!(s.buffered(), 0);
}

fn done(step: muxrs::ReadStep) -> Vec<u8> {
    match step {
        muxrs::ReadStep::Done(v) => v,
        muxrs::ReadStep::Pending(_) => panic!("expected a payload"),
    }
}

#[test]
fn read_frame_returns_payloads_in_order() {
    let mut s = Stream::new(4);
    s.write_to_buffer(frame(4, Flag::Syn, b"first".to_vec()));
    s.write_to_buffer(frame(4, Flag::Syn, b"second".to_vec()));
    assert!(s.frame_readable(ReadPhase::Header));
    assert_eq!(done(s.read_frame(ReadPhase::Header, waker())), b"first".to_vec());
    assert_eq!(done(s.read_frame(ReadPhase::Header, waker())), b"second".to_vec());
    assert_eq!(s.buffered(), 0);
    assert!(matches!(
        s.read_frame(ReadPhase::Header, waker()),
        muxrs::ReadStep::Pending(ReadPhase::Header)
    ));
}

#[test]
fn read_frame_waits_for_payload_after_lone_header() {
    let mut s = Stream::new(1);
    s.write_to_buffer(frame(1, Flag::Ack, vec![]));
    match s.read_frame(ReadPhase::Header, waker()) {
        muxrs::ReadStep::Pending(ReadPhase::Body(0)) => {}
        _ => panic!("expected to wait for an empty payload"),
    }
    assert_eq!(s.buffered(), 0);
    s.write_to_buffer(frame(1, Flag::Syn, b"z".to_vec()));
    assert!(s.frame_readable(ReadPhase::Body(0)));
    assert_eq!(done(s.read_frame(ReadPhase::Body(0), waker())), Vec::<u8>::new());
    assert_eq!(done(s.read_frame(ReadPhase::Header, waker())), b"z".to_vec());
}

#[test]
fn frame_readable_rejects_short_buffers() {
    let mut s = Stream::new(1);
    assert!(s.frame_readable(ReadPhase::Header));
    assert!(s.frame_readable(ReadPhase::Body(7)));
    s.write_to_buffer(frame(1, Flag::Syn, b"abc".to_vec()));
    assert!(s.frame_readable(ReadPhase::Header));
    assert!(!s.frame_readable(ReadPhase::Body(HEADER_LENGTH + 4)));
    // a header announcing more than follows it
    let mut t = Stream::new(2);
    t.write_to_buffer(Frame::new(
        MuxHeader::new(2, 9, Some(Flag::Syn), Some(FrameType::Data)),
        b"ab".to_vec(),
    ));
    assert!(!t.frame_readable(ReadPhase::Header));
}
