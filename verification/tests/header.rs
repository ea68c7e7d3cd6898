use muxrs::{Flag, FrameType, MuxHeader, HEADER_LENGTH};

#[test]
fn header_decodes_big_endian_fields() {
    let h = MuxHeader::from_bytes([0, 0, 1, 2, 0, 0, 0, 4, 1, 3]);
    assert_eq!(h.id(), 258);
    assert_eq!(h.len(), 4);
    assert_eq!(*h.flag(), Flag::Syn);
    assert_eq!(*h.frame_type(), FrameType::Data);
}

#[test]
fn header_encodes_big_endian_fields() {
    let h = MuxHeader::new(0x01020304, 0xA0B0C0D0, Some(Flag::Fin), Some(FrameType::Ping));
    assert_eq!(h.to_bytes(), [1, 2, 3, 4, 0xA0, 0xB0, 0xC0, 0xD0, 3, 1]);
}

#[test]
fn header_new_defaults_to_ack_and_data() {
    let h = MuxHeader::new(7, 9, None, None);
    assert_eq!(*h.flag(), Flag::Ack);
    assert_eq!(*h.frame_type(), FrameType::Data);
    assert_eq!(h.to_bytes(), [0, 0, 0, 7, 0, 0, 0, 9, 2, 3]);
}

#[test]
fn header_roundtrip_through_bytes() {
    let h = MuxHeader::new(u32::MAX, 65536, Some(Flag::Ack), Some(FrameType::Close));
    let bytes = h.to_bytes();
    assert_eq!(bytes.len(), HEADER_LENGTH);
    let back = MuxHeader::from_bytes(bytes);
    assert_eq!(back.id(), u32::MAX);
    assert_eq!(back.len(), 65536);
    assert_eq!(*back.flag(), Flag::Ack);
    assert_eq!(*back.frame_type(), FrameType::Close);
}

#[test]
fn bytes_with_canonical_flag_and_type_roundtrip() {
    let bytes = [9, 8, 7, 6, 5, 4, 3, 2, 2, 2];
    assert_eq!(MuxHeader::from_bytes(bytes).to_bytes(), bytes);
}

#[test]
fn bytes_with_unknown_flag_byte_do_not_roundtrip() {
    let bytes = [0, 0, 0, 1, 0, 0, 0, 0, 7, 9];
    let h = MuxHeader::from_bytes(bytes);
    assert_eq!(*h.flag(), Flag::Fin);
    assert_eq!(*h.frame_type(), FrameType::Data);
    assert_eq!(h.to_bytes(), [0, 0, 0, 1, 0, 0, 0, 0, 3, 3]);
}

#[test]
fn set_flag_changes_only_the_flag() {
    let mut h = MuxHeader::new(5, 6, Some(Flag::Syn), Some(FrameType::Ping));
    h.set_flag(Flag::Ack);
    assert_eq!(h.to_bytes(), [0, 0, 0, 5, 0, 0, 0, 6, 2, 1]);
}

#[test]
fn flag_bytes() {
    assert_eq!(Flag::from(1u8), Flag::Syn);
    assert_eq!(Flag::from(2u8), Flag::Ack);
    assert_eq!(Flag::from(3u8), Flag::Fin);
    assert_eq!(Flag::from(0u8), Flag::Fin);
    assert_eq!(Flag::from(200u8), Flag::Fin);
    assert_eq!(u8::from(Flag::Syn), 1);
    assert_eq!(u8::from(Flag::Ack), 2);
    assert_eq!(u8::from(Flag::Fin), 3);
    for f in [Flag::Syn, Flag::Ack, Flag::Fin] {
        assert_eq!(Flag::from(u8::from(f)), f);
    }
    for b in 0u8..=255 {
        assert_eq!(u8::from(Flag::from(b)) == b, (1..=3).contains(&b));
    }
}

#[test]
fn frame_type_bytes() {
    assert_eq!(FrameType::from(1u8), FrameType::Ping);
    assert_eq!(FrameType::from(2u8), FrameType::Close);
    assert_eq!(FrameType::from(3u8), FrameType::Data);
    assert_eq!(FrameType::from(0u8), FrameType::Data);
    assert_eq!(u8::from(FrameType::Ping), 1);
    assert_eq!(u8::from(FrameType::Close), 2);
    assert_eq!(u8::from(FrameType::Data), 3);
    for t in [FrameType::Ping, FrameType::Close, FrameType::Data] {
        assert_eq!(FrameType::from(u8::from(t)), t);
    }
    for b in 0u8..=255 {
        assert_eq!(u8::from(FrameType::from(b)) == b, (1..=3).contains(&b));
    }
}
