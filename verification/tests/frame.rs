use muxrs::{Flag, Frame, FrameType, MuxHeader};

fn frame(id: u32, flag: Flag, data: Vec<u8>) -> Frame {
    Frame::new(MuxHeader::new(id, data.len() as u32, Some(flag), Some(FrameType::Data)), data)
}

#[test]
fn as_bytes_is_header_then_payload() {
    let f = frame(3, Flag::Syn, b"ping".to_vec());
    assert_eq!(
        f.as_bytes(),
        vec![0, 0, 0, 3, 0, 0, 0, 4, 1, 3, b'p', b'i', b'n', b'g']
    );
}

#[test]
fn as_bytes_of_empty_frame_is_the_header() {
    let f = frame(2, Flag::Ack, vec![]);
    assert_eq!(f.as_bytes(), vec![0, 0, 0, 2, 0, 0, 0, 0, 2, 3]);
}

#[test]
fn bytes_and_split_give_the_parts() {
    let f = frame(11, Flag::Fin, vec![1, 2, 3]);
    assert_eq!(f.bytes(), &vec![1, 2, 3]);
    assert_eq!(f.header().id(), 11);
    let (h, d) = f.split();
    assert_eq!(h.id(), 11);
    assert_eq!(*h.flag(), Flag::Fin);
    assert_eq!(d, vec![1, 2, 3]);
}

#[test]
fn syn_and_ack_tests() {
    let s = frame(1, Flag::Syn, vec![]);
    assert!(s.is_syn());
    assert!(!s.is_ack());
    let a = frame(1, Flag::Ack, vec![]);
    assert!(a.is_ack());
    assert!(!a.is_syn());
    let f = frame(1, Flag::Fin, vec![]);
    assert!(!f.is_ack());
    assert!(!f.is_syn());
}

#[test]
fn set_flag_keeps_payload() {
    let mut f = frame(9, Flag::Syn, vec![7]);
    f.set_flag(Flag::Ack);
    assert!(f.is_ack());
    assert_eq!(f.as_bytes(), vec![0, 0, 0, 9, 0, 0, 0, 1, 2, 3, 7]);
}

#[test]
fn frame_bytes_decode_back() {
    let f = frame(77, Flag::Syn, b"hello".to_vec());
    let bytes = f.as_bytes();
    let mut head = [0u8; 10];
    head.copy_from_slice(&bytes[..10]);
    let h = MuxHeader::from_bytes(head);
    assert_eq!(h.id(), 77);
    assert_eq!(h.len(), 5);
    assert_eq!(&bytes[10..10 + h.len()], b"hello");
}
