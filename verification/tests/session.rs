use muxrs::{ReadPhase, ReadStep};
use muxrs::{Flag, Frame, FrameType, MuxHeader, MuxMode, MuxSession, HEADER_LENGTH};
use std::task::Waker;

fn frame(id: u32, flag: Flag, data: Vec<u8>) -> Frame {
    Frame::new(MuxHeader::new(id, data.len() as u32, Some(flag), Some(FrameType::Data)), data)
}

fn waker() -> Waker {
    Waker::noop().clone()
}

#[test]
fn mode_parity() {
    assert!(MuxMode::is_server(0));
    assert!(MuxMode::is_server(2));
    assert!(!MuxMode::is_server(1));
    assert!(MuxMode::Server.valid(4));
    assert!(!MuxMode::Server.valid(5));
    assert!(MuxMode::Client.valid(5));
    assert!(!MuxMode::Client.valid(4));
    assert_eq!(MuxMode::from_id(10), MuxMode::Server);
    assert_eq!(MuxMode::from_id(11), MuxMode::Client);
    for id in [0u32, 1, 2, 3, 99, u32::MAX] {
        assert!(MuxMode::from_id(id).valid(id));
    }
}

#[test]
fn client_opens_odd_ids_server_even_ids() {
    let mut s = MuxSession::new();
    let (a, syn) = s.open(MuxMode::Client);
    assert_eq!(a, 1);
    assert_eq!(syn.as_bytes(), vec![0, 0, 0, 1, 0, 0, 0, 0, 1, 3]);
    let (b, _) = s.open(MuxMode::Client);
    assert_eq!(b, 3);
    let (c, _) = s.open(MuxMode::Server);
    assert_eq!(c, 4);
    let (d, _) = s.open(MuxMode::Server);
    assert_eq!(d, 6);
    let (e, _) = s.open(MuxMode::Client);
    assert_eq!(e, 7);
    assert_eq!(s.stream_count(), 5);
    assert!(s.contains_stream(4));
    assert!(!s.contains_stream(5));
}

#[test]
fn open_internal_with_id_replaces_stream() {
    let mut s = MuxSession::new();
    s.inbound_write(frame(8, Flag::Syn, b"ab".to_vec()));
    assert_eq!(s.stream_buffered(8), Some(HEADER_LENGTH + 2));
    assert_eq!(s.open_internal(MuxMode::Client, Some(8)), 8);
    assert_eq!(s.stream_buffered(8), Some(0));
    assert_eq!(s.stream_count(), 1);
}

#[test]
fn handshake_is_answered_with_ack() {
    let mut s = MuxSession::new();
    let reply = s.handle_inbound(frame(5, Flag::Syn, vec![])).expect("reply");
    assert_eq!(reply, vec![0, 0, 0, 5, 0, 0, 0, 0, 2, 3]);
    assert_eq!(s.stream_count(), 0);
    assert!(s.poll_inbound_streams(waker()).is_none());
}

#[test]
fn unknown_stream_is_registered_and_queued() {
    let mut s = MuxSession::new();
    assert!(s.handle_inbound(frame(6, Flag::Syn, b"hi".to_vec())).is_none());
    assert!(s.contains_stream(6));
    assert_eq!(s.stream_buffered(6), Some(HEADER_LENGTH + 2));
    assert_eq!(s.poll_inbound_streams(waker()), Some(6));
    assert_eq!(s.poll_inbound_streams(waker()), None);
    // a second frame for the same stream is not queued again
    assert_eq!(s.inbound_write(frame(6, Flag::Syn, b"x".to_vec())), 1);
    assert_eq!(s.poll_inbound_streams(waker()), None);
    assert_eq!(s.stream_buffered(6), Some(2 * HEADER_LENGTH + 3));
}

#[test]
fn accept_takes_latest_first() {
    let mut s = MuxSession::new();
    s.inbound_write(frame(2, Flag::Syn, vec![1]));
    s.inbound_write(frame(4, Flag::Syn, vec![1]));
    s.inbound_write(frame(9, Flag::Syn, vec![1]));
    assert_eq!(s.poll_inbound_streams(waker()), Some(9));
    assert_eq!(s.poll_inbound_streams(waker()), Some(4));
    assert_eq!(s.poll_inbound_streams(waker()), Some(2));
    assert_eq!(s.poll_inbound_streams(waker()), None);
}

#[test]
fn handshake_for_unknown_stream_via_inbound_write_registers_it_empty() {
    let mut s = MuxSession::new();
    assert_eq!(s.inbound_write(frame(3, Flag::Syn, vec![])), 0);
    assert_eq!(s.stream_buffered(3), Some(0));
    assert_eq!(s.poll_inbound_streams(waker()), Some(3));
}

#[test]
fn opened_stream_writes_only_after_ack() {
    let mut client = MuxSession::new();
    let mut server = MuxSession::new();
    let (id, syn) = client.open(MuxMode::Client);
    assert!(client.stream_poll_write(id, b"ping", waker()).is_none());
    // the server answers the handshake
    let reply = server.handle_inbound(syn).expect("ack");
    let mut head = [0u8; HEADER_LENGTH];
    head.copy_from_slice(&reply[..HEADER_LENGTH]);
    let ack = Frame::new(MuxHeader::from_bytes(head), reply[HEADER_LENGTH..].to_vec());
    assert!(client.handle_inbound(ack).is_none());
    // the acknowledgement is buffered like any frame
    assert_eq!(client.stream_buffered(id), Some(HEADER_LENGTH));
    let (h, data, n) = client.stream_poll_write(id, b"ping", waker()).expect("ready");
    assert_eq!(n, 4 + HEADER_LENGTH);
    // the payload travels to the server and is read back there
    let wire = Frame::new(h, data).as_bytes();
    head.copy_from_slice(&wire[..HEADER_LENGTH]);
    let incoming = Frame::new(MuxHeader::from_bytes(head), wire[HEADER_LENGTH..].to_vec());
    assert!(server.handle_inbound(incoming).is_none());
    assert_eq!(server.poll_inbound_streams(waker()), Some(id));
    let (hb, _) = server.stream_poll_read(id, HEADER_LENGTH, waker()).unwrap();
    head.copy_from_slice(&hb);
    let hdr = MuxHeader::from_bytes(head);
    assert_eq!(hdr.id(), id);
    let (body, _) = server.stream_poll_read(id, hdr.len(), waker()).unwrap();
    assert_eq!(body, b"ping".to_vec());
    assert!(server.stream_poll_read(id, HEADER_LENGTH, waker()).is_none());
}

#[test]
fn empty_write_reads_as_a_handshake_on_the_peer() {
    let mut client = MuxSession::new();
    let mut server = MuxSession::new();
    let (id, _) = client.open(MuxMode::Client);
    client.inbound_write(frame(id, Flag::Ack, vec![]));
    let (h, data, n) = client.stream_poll_write(id, b"", waker()).expect("ready");
    assert_eq!(n, HEADER_LENGTH);
    let reply = server.handle_inbound(Frame::new(h, data)).expect("answered, not delivered");
    assert_eq!(reply, vec![0, 0, 0, 1, 0, 0, 0, 0, 2, 3]);
    assert!(!server.contains_stream(id));
}

#[test]
fn next_id_advances_past_drawn_ids() {
    let mut s = MuxSession::new();
    assert_eq!(s.next_id(), 1);
    s.open(MuxMode::Server);
    assert_eq!(s.next_id(), 3);
    s.open(MuxMode::Client);
    assert_eq!(s.next_id(), 4);
}

#[test]
fn session_read_frame_delivers_peer_payload() {
    let mut s = MuxSession::new();
    s.inbound_write(frame(12, Flag::Syn, b"data".to_vec()));
    assert_eq!(s.stream_frame_readable(12, ReadPhase::Header), Some(true));
    assert_eq!(s.stream_frame_readable(13, ReadPhase::Header), None);
    match s.stream_read_frame(12, ReadPhase::Header, waker()) {
        ReadStep::Done(v) => assert_eq!(v, b"data".to_vec()),
        ReadStep::Pending(_) => panic!("expected a payload"),
    }
    assert!(matches!(
        s.stream_read_frame(12, ReadPhase::Header, waker()),
        ReadStep::Pending(ReadPhase::Header)
    ));
}

#[test]
fn accepted_stream_is_not_queued_again() {
    let mut s = MuxSession::new();
    s.inbound_write(frame(2, Flag::Syn, vec![1]));
    s.inbound_write(frame(2, Flag::Syn, vec![2]));
    s.inbound_write(frame(2, Flag::Ack, vec![]));
    assert_eq!(s.poll_inbound_streams(waker()), Some(2));
    assert_eq!(s.poll_inbound_streams(waker()), None);
}

#[test]
fn stream_ready_only_after_its_own_ack() {
    let mut s = MuxSession::new();
    let (a, _) = s.open(MuxMode::Client);
    let (b, _) = s.open(MuxMode::Client);
    // frames for other streams, a handshake and data do not make `a` ready
    assert!(s.handle_inbound(frame(b, Flag::Ack, vec![])).is_none());
    assert!(s.handle_inbound(frame(a, Flag::Syn, vec![])).is_some());
    assert!(s.handle_inbound(frame(a, Flag::Syn, vec![5])).is_none());
    assert!(s.handle_inbound(frame(a, Flag::Ack, vec![5])).is_none());
    assert!(s.stream_poll_write(a, b"w", waker()).is_none());
    assert!(s.stream_poll_write(b, b"w", waker()).is_some());
    assert!(s.handle_inbound(frame(a, Flag::Ack, vec![])).is_none());
    assert!(s.stream_poll_write(a, b"w", waker()).is_some());
}
