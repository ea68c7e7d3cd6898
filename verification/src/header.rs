//! The fixed-size frame header of the multiplexing protocol.
//!
//! On the wire a header is `HEADER_LENGTH` bytes: the stream id as a
//! big-endian `u32`, the payload length as a big-endian `u32`, one flag byte
//! and one frame-type byte.
use vstd::prelude::*;

verus! {

/// Number of bytes a header occupies on the wire.
pub const HEADER_LENGTH: usize = 10;

/// The control flag carried by a frame.
#[derive(Debug, Clone, Copy, PartialEq, Eq, Structural)]
pub enum Flag {
    Syn,
    Ack,
    Fin,
}

/// The kind of a frame.
#[derive(Debug, Clone, Copy, PartialEq, Eq, Structural)]
pub enum FrameType {
    Ping,
    Close,
    Data,
}

impl Flag {
    /// The wire byte of a flag.
    pub open spec fn byte(self) -> u8 {
        match self {
            Flag::Syn => 1,
            Flag::Ack => 2,
            Flag::Fin => 3,
        }
    }

    /// The flag that a wire byte decodes to: every byte other than 1 and 2 reads as `Fin`.
    pub open spec fn of_byte(b: u8) -> Flag {
        if b == 1 {
            Flag::Syn
        } else if b == 2 {
            Flag::Ack
        } else {
            Flag::Fin
        }
    }
}

impl FrameType {
    /// The wire byte of a frame type.
    pub open spec fn byte(self) -> u8 {
        match self {
            FrameType::Ping => 1,
            FrameType::Close => 2,
            FrameType::Data => 3,
        }
    }

    /// The frame type that a wire byte decodes to: every byte other than 1 and 2 reads as `Data`.
    pub open spec fn of_byte(b: u8) -> FrameType {
        if b == 1 {
            FrameType::Ping
        } else if b == 2 {
            FrameType::Close
        } else {
            FrameType::Data
        }
    }
}

impl From<u8> for Flag {
    fn from(v: u8) -> (f: Flag) {
        if v == 1 {
            Flag::Syn
        } else if v == 2 {
            Flag::Ack
        } else {
            Flag::Fin
        }
    }
}

impl vstd::std_specs::convert::FromSpecImpl<u8> for Flag {
    open spec fn obeys_from_spec() -> bool {
        true
    }

    open spec fn from_spec(v: u8) -> Flag {
        Flag::of_byte(v)
    }
}

impl From<Flag> for u8 {
    fn from(f: Flag) -> (b: u8) {
        match f {
            Flag::Syn => 1,
            Flag::Ack => 2,
            Flag::Fin => 3,
        }
    }
}

impl vstd::std_specs::convert::FromSpecImpl<Flag> for u8 {
    open spec fn obeys_from_spec() -> bool {
        true
    }

    open spec fn from_spec(f: Flag) -> u8 {
        f.byte()
    }
}

impl From<u8> for FrameType {
    fn from(v: u8) -> (t: FrameType) {
        if v == 1 {
            FrameType::Ping
        } else if v == 2 {
            FrameType::Close
        } else {
            FrameType::Data
        }
    }
}

impl vstd::std_specs::convert::FromSpecImpl<u8> for FrameType {
    open spec fn obeys_from_spec() -> bool {
        true
    }

    open spec fn from_spec(v: u8) -> FrameType {
        FrameType::of_byte(v)
    }
}

impl From<FrameType> for u8 {
    fn from(t: FrameType) -> (b: u8) {
        match t {
            FrameType::Ping => 1,
            FrameType::Close => 2,
            FrameType::Data => 3,
        }
    }
}

impl vstd::std_specs::convert::FromSpecImpl<FrameType> for u8 {
    open spec fn obeys_from_spec() -> bool {
        true
    }

    open spec fn from_spec(t: FrameType) -> u8 {
        t.byte()
    }
}

/// Decoding the byte of a flag gives the flag back.
pub proof fn lemma_flag_byte_roundtrip(f: Flag)
    ensures
        Flag::of_byte(f.byte()) == f,
{
}

/// Encoding a decoded flag byte gives the byte back exactly when it is 1, 2 or 3.
pub proof fn lemma_byte_flag_roundtrip(b: u8)
    ensures
        Flag::of_byte(b).byte() == b <==> 1 <= b <= 3,
{
}

/// Decoding the byte of a frame type gives the frame type back.
pub proof fn lemma_frame_type_byte_roundtrip(t: FrameType)
    ensures
        FrameType::of_byte(t.byte()) == t,
{
}

/// Encoding a decoded frame-type byte gives the byte back exactly when it is 1, 2 or 3.
pub proof fn lemma_byte_frame_type_roundtrip(b: u8)
    ensures
        FrameType::of_byte(b).byte() == b <==> 1 <= b <= 3,
{
}

/// The big-endian bytes of a `u32`, most significant first.
pub open spec fn be_bytes(x: u32) -> Seq<u8> {
    seq![(x >> 24u32) as u8, (x >> 16u32) as u8, (x >> 8u32) as u8, x as u8]
}

/// The `u32` whose big-endian bytes are `b0, b1, b2, b3`.
pub open spec fn be_value(b0: u8, b1: u8, b2: u8, b3: u8) -> u32 {
    ((b0 as u32) << 24u32) | ((b1 as u32) << 16u32) | ((b2 as u32) << 8u32) | (b3 as u32)
}

/// Reading back the big-endian bytes of a `u32` gives the `u32`.
pub proof fn lemma_be_value_of_bytes(x: u32)
    ensures
        be_value(be_bytes(x)[0], be_bytes(x)[1], be_bytes(x)[2], be_bytes(x)[3]) == x,
{
    let b0 = (x >> 24u32) as u8;
    let b1 = (x >> 16u32) as u8;
    let b2 = (x >> 8u32) as u8;
    let b3 = x as u8;
    assert(((b0 as u32) << 24u32) | ((b1 as u32) << 16u32) | ((b2 as u32) << 8u32) | (b3 as u32)
        == x) by (bit_vector)
        requires
            b0 == (x >> 24u32) as u8,
            b1 == (x >> 16u32) as u8,
            b2 == (x >> 8u32) as u8,
            b3 == x as u8,
    ;
}

/// Writing out the big-endian bytes of a value read from four bytes gives the four bytes.
pub proof fn lemma_be_bytes_of_value(b0: u8, b1: u8, b2: u8, b3: u8)
    ensures
        be_bytes(be_value(b0, b1, b2, b3)) == seq![b0, b1, b2, b3],
{
    let x = be_value(b0, b1, b2, b3);
    assert((x >> 24u32) as u8 == b0 && (x >> 16u32) as u8 == b1 && (x >> 8u32) as u8 == b2 && x
        as u8 == b3) by (bit_vector)
        requires
            x == ((b0 as u32) << 24u32) | ((b1 as u32) << 16u32) | ((b2 as u32) << 8u32) | (
            b3 as u32),
    ;
    assert(be_bytes(x) =~= seq![b0, b1, b2, b3]);
}

/// The wire bytes of the flags and frame types: `Syn`, `Ack`, `Fin` and `Ping`,
/// `Close`, `Data` are 1, 2, 3 in that order.
pub proof fn lemma_wire_bytes()
    ensures
        Flag::Syn.byte() == 1 && Flag::Ack.byte() == 2 && Flag::Fin.byte() == 3,
        FrameType::Ping.byte() == 1 && FrameType::Close.byte() == 2 && FrameType::Data.byte() == 3,
{
}

/// Bytes other than 1, 2 and 3 decode to `Fin` and to `Data`.
pub proof fn lemma_other_bytes(b: u8)
    requires
        b < 1 || b > 3,
    ensures
        Flag::of_byte(b) == Flag::Fin,
        FrameType::of_byte(b) == FrameType::Data,
{
}

/// Four bytes read big-endian: the first is the most significant digit in base 256.
pub proof fn lemma_be_value_digits(b0: u8, b1: u8, b2: u8, b3: u8)
    ensures
        be_value(b0, b1, b2, b3) as int == b0 * 0x1000000 + b1 * 0x10000 + b2 * 0x100 + b3,
{
    assert(((b0 as u32) << 24u32) | ((b1 as u32) << 16u32) | ((b2 as u32) << 8u32) | (b3 as u32)
        == (b0 as u32) * 0x1000000u32 + (b1 as u32) * 0x10000u32 + (b2 as u32) * 0x100u32 + (
    b3 as u32)) by (bit_vector);
}

/// The big-endian bytes of a `u32` are its base-256 digits, most significant first.
pub proof fn lemma_be_bytes_digits(x: u32)
    ensures
        be_bytes(x).len() == 4,
        be_bytes(x)[0] == x / 0x1000000,
        be_bytes(x)[1] == (x / 0x10000) % 0x100,
        be_bytes(x)[2] == (x / 0x100) % 0x100,
        be_bytes(x)[3] == x % 0x100,
{
    assert((x >> 24u32) as u8 == x / 0x1000000u32 && (x >> 16u32) as u8 == (x / 0x10000u32)
        % 0x100u32 && (x >> 8u32) as u8 == (x / 0x100u32) % 0x100u32 && x as u8 == x % 0x100u32)
        by (bit_vector);
}

/// The fields of a header, as a plain value.
pub struct HeaderView {
    pub id: u32,
    pub length: u32,
    pub flag: Flag,
    pub frame_type: FrameType,
}

/// The wire encoding of a header.
pub open spec fn encode_header(h: HeaderView) -> Seq<u8> {
    be_bytes(h.id) + be_bytes(h.length) + seq![h.flag.byte(), h.frame_type.byte()]
}

/// The header that `HEADER_LENGTH` wire bytes decode to.
pub open spec fn decode_header(b: Seq<u8>) -> HeaderView
    recommends
        b.len() == HEADER_LENGTH,
{
    HeaderView {
        id: be_value(b[0], b[1], b[2], b[3]),
        length: be_value(b[4], b[5], b[6], b[7]),
        flag: Flag::of_byte(b[8]),
        frame_type: FrameType::of_byte(b[9]),
    }
}

/// The layout of an encoded header: ten bytes, the id's base-256 digits most
/// significant first, then the length's, then the flag byte and the frame-type byte.
pub proof fn lemma_header_layout(h: HeaderView)
    ensures
        ({
            let e = encode_header(h);
            &&& e.len() == HEADER_LENGTH
            &&& e[0] == h.id / 0x1000000 && e[1] == (h.id / 0x10000) % 0x100
            &&& e[2] == (h.id / 0x100) % 0x100 && e[3] == h.id % 0x100
            &&& e[4] == h.length / 0x1000000 && e[5] == (h.length / 0x10000) % 0x100
            &&& e[6] == (h.length / 0x100) % 0x100 && e[7] == h.length % 0x100
            &&& e[8] == h.flag.byte() && e[9] == h.frame_type.byte()
        }),
{
    lemma_be_bytes_digits(h.id);
    lemma_be_bytes_digits(h.length);
}

/// Decoding reads the id and the length as big-endian numbers from the first
/// eight bytes, the flag from the ninth and the frame type from the tenth.
pub proof fn lemma_decode_fields(b: Seq<u8>)
    requires
        b.len() == HEADER_LENGTH,
    ensures
        decode_header(b).id as int == b[0] * 0x1000000 + b[1] * 0x10000 + b[2] * 0x100 + b[3],
        decode_header(b).length as int == b[4] * 0x1000000 + b[5] * 0x10000 + b[6] * 0x100 + b[7],
        decode_header(b).flag == Flag::of_byte(b[8]),
        decode_header(b).frame_type == FrameType::of_byte(b[9]),
{
    lemma_be_value_digits(b[0], b[1], b[2], b[3]);
    lemma_be_value_digits(b[4], b[5], b[6], b[7]);
}

/// Every header decodes back from its encoding.
pub proof fn lemma_header_roundtrip(h: HeaderView)
    ensures
        encode_header(h).len() == HEADER_LENGTH,
        decode_header(encode_header(h)) == h,
{
    lemma_be_value_of_bytes(h.id);
    lemma_be_value_of_bytes(h.length);
    let e = encode_header(h);
    assert(e[0] == be_bytes(h.id)[0] && e[1] == be_bytes(h.id)[1] && e[2] == be_bytes(h.id)[2]
        && e[3] == be_bytes(h.id)[3]);
    assert(e[4] == be_bytes(h.length)[0] && e[5] == be_bytes(h.length)[1] && e[6] == be_bytes(
        h.length,
    )[2] && e[7] == be_bytes(h.length)[3]);
    lemma_flag_byte_roundtrip(h.flag);
    lemma_frame_type_byte_roundtrip(h.frame_type);
}

/// Header bytes re-encode to themselves exactly when their flag byte and frame-type
/// byte are each 1, 2 or 3.
pub proof fn lemma_bytes_roundtrip(b: Seq<u8>)
    requires
        b.len() == HEADER_LENGTH,
    ensures
        encode_header(decode_header(b)) == b <==> (1 <= b[8] <= 3 && 1 <= b[9] <= 3),
{
    lemma_be_bytes_of_value(b[0], b[1], b[2], b[3]);
    lemma_be_bytes_of_value(b[4], b[5], b[6], b[7]);
    lemma_byte_flag_roundtrip(b[8]);
    lemma_byte_frame_type_roundtrip(b[9]);
    let e = encode_header(decode_header(b));
    if 1 <= b[8] <= 3 && 1 <= b[9] <= 3 {
        assert(e =~= b);
    } else {
        assert(e[8] != b[8] || e[9] != b[9]);
    }
}

/// The header of a frame.
#[derive(Debug)]
pub struct MuxHeader {
    stream_id: u32,
    length: u32,
    flag: Flag,
    frame_type: FrameType,
}

impl View for MuxHeader {
    type V = HeaderView;

    closed spec fn view(&self) -> HeaderView {
        HeaderView {
            id: self.stream_id,
            length: self.length,
            flag: self.flag,
            frame_type: self.frame_type,
        }
    }
}

impl MuxHeader {
    /// A header; an absent flag defaults to `Ack`, an absent frame type to `Data`.
    pub fn new(id: u32, length: u32, flag: Option<Flag>, frame_type: Option<FrameType>) -> (h:
        Self)
        ensures
            h@.id == id,
            h@.length == length,
            h@.flag == (match flag {
                Some(f) => f,
                None => Flag::Ack,
            }),
            h@.frame_type == (match frame_type {
                Some(t) => t,
                None => FrameType::Data,
            }),
    {
        MuxHeader {
            stream_id: id,
            length: length,
            flag: match flag {
                Some(f) => f,
                None => Flag::Ack,
            },
            frame_type: match frame_type {
                Some(t) => t,
                None => FrameType::Data,
            },
        }
    }

    /// Decodes a header from its wire bytes.
    pub fn from_bytes(bytes: [u8; HEADER_LENGTH]) -> (h: Self)
        ensures
            h@ == decode_header(bytes@),
    {
        let id: u32 = ((bytes[0] as u32) << 24u32) | ((bytes[1] as u32) << 16u32) | ((
        bytes[2] as u32) << 8u32) | (bytes[3] as u32);
        let length: u32 = ((bytes[4] as u32) << 24u32) | ((bytes[5] as u32) << 16u32) | ((
        bytes[6] as u32) << 8u32) | (bytes[7] as u32);
        MuxHeader {
            stream_id: id,
            length: length,
            flag: Flag::from(bytes[8]),
            frame_type: FrameType::from(bytes[9]),
        }
    }

    /// The wire bytes of this header.
    pub fn to_bytes(self) -> (data: [u8; HEADER_LENGTH])
        ensures
            data@ == encode_header(self@),
    {
        let id = self.stream_id;
        let length = self.length;
        let data: [u8; HEADER_LENGTH] = [
            (id >> 24u32) as u8,
            (id >> 16u32) as u8,
            (id >> 8u32) as u8,
            id as u8,
            (length >> 24u32) as u8,
            (length >> 16u32) as u8,
            (length >> 8u32) as u8,
            length as u8,
            u8::from(self.flag),
            u8::from(self.frame_type),
        ];
        assert(data@ =~= encode_header(self@));
        data
    }

    /// The payload length this header announces.
    pub fn len(&self) -> (n: usize)
        ensures
            n == self@.length,
    {
        self.length as usize
    }

    /// The stream this header belongs to.
    pub fn id(&self) -> (id: u32)
        ensures
            id == self@.id,
    {
        self.stream_id
    }

    /// Replaces the flag, keeping the other fields.
    pub fn set_flag(&mut self, flag: Flag)
        ensures
            final(self)@ == (HeaderView { flag, ..old(self)@ }),
    {
        self.flag = flag;
    }

    /// The flag of this header.
    pub fn flag(&self) -> (f: &Flag)
        ensures
            *f == self@.flag,
    {
        &self.flag
    }

    /// The frame type of this header.
    pub fn frame_type(&self) -> (t: &FrameType)
        ensures
            *t == self@.frame_type,
    {
        &self.frame_type
    }
}

} // verus!
