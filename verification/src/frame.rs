//! A frame: a header followed by its payload.
use vstd::prelude::*;

use crate::header::{encode_header, Flag, HeaderView, MuxHeader};

verus! {

/// A header and the payload bytes that follow it.
pub struct Frame {
    pub header: MuxHeader,
    pub data: Vec<u8>,
}

impl Frame {
    /// The bytes of this frame on the wire: the encoded header, then the payload.
    pub open spec fn wire(&self) -> Seq<u8> {
        encode_header(self.header@) + self.data@
    }

    /// A frame from a header and a payload.
    pub fn new(header: MuxHeader, data: Vec<u8>) -> (f: Self)
        ensures
            f.header@ == header@,
            f.data@ == data@,
    {
        Frame { header, data }
    }

    /// The header of this frame.
    pub fn header(&self) -> (h: &MuxHeader)
        ensures
            h@ == self.header@,
    {
        &self.header
    }

    /// The payload of this frame.
    pub fn bytes(&self) -> (b: &Vec<u8>)
        ensures
            b@ == self.data@,
    {
        &self.data
    }

    /// Takes the frame apart into its header and payload.
    pub fn split(self) -> (parts: (MuxHeader, Vec<u8>))
        ensures
            parts.0@ == self.header@,
            parts.1@ == self.data@,
    {
        (self.header, self.data)
    }

    /// Whether the header carries the `Syn` flag.
    pub fn is_syn(&self) -> (b: bool)
        ensures
            b == (self.header@.flag == Flag::Syn),
    {
        match self.header.flag() {
            Flag::Syn => true,
            _ => false,
        }
    }

    /// Whether the header carries the `Ack` flag.
    pub fn is_ack(&self) -> (b: bool)
        ensures
            b == (self.header@.flag == Flag::Ack),
    {
        match self.header.flag() {
            Flag::Ack => true,
            _ => false,
        }
    }

    /// The wire bytes of this frame.
    pub fn as_bytes(self) -> (bytes: Vec<u8>)
        ensures
            bytes@ == self.wire(),
    {
        let ghost w = self.wire();
        let mut bytes: Vec<u8> = Vec::new();
        let head = self.header.to_bytes();
        bytes.extend_from_slice(head.as_slice());
        bytes.extend_from_slice(self.data.as_slice());
        assert(bytes@ =~= w);
        bytes
    }

    /// Replaces the flag of the header, keeping everything else.
    pub fn set_flag(&mut self, flag: Flag)
        ensures
            final(self).header@ == (HeaderView { flag, ..old(self).header@ }),
            final(self).data@ == old(self).data@,
    {
        self.header.set_flag(flag);
    }
}

} // verus!
