//! The state of one multiplexed stream: the bytes received for it, whether the
//! peer has acknowledged it, and the tasks waiting on it.
use vstd::prelude::*;

use std::task::Waker;

use crate::frame::Frame;
use crate::header::{
    decode_header, encode_header, lemma_header_roundtrip, FrameType, Flag, HeaderView, MuxHeader,
    HEADER_LENGTH,
};

verus! {

/// A handle that wakes a waiting task.
#[verifier::external_type_specification]
#[verifier::external_body]
pub struct ExWaker(Waker);

/// Wakes the task behind `w` (`std::task::Waker::wake_by_ref`); it changes no value
/// that this library holds, so nothing is promised of it.
#[verifier::external_body]
pub(crate) fn wake_by_ref(w: &Waker) {
    w.wake_by_ref();
}

/// The wakers of a parked task, if there is one, as a sequence: empty or one waker.
pub open spec fn parked(w: Option<Waker>) -> Seq<Waker> {
    match w {
        Some(w) => seq![w],
        None => Seq::empty(),
    }
}

/// Wakes the parked task, if there is one, and appends its waker to `woken`, the
/// record of the wakers woken so far.
pub(crate) fn wake_parked(w: &Option<Waker>, woken: &mut Ghost<Seq<Waker>>)
    ensures
        final(woken)@ == old(woken)@ + parked(*w),
{
    match w {
        Some(w) => {
            wake_by_ref(w);
            *woken = Ghost(woken@.push(*w));
            assert(old(woken)@.push(*w) =~= old(woken)@ + seq![*w]);
        },
        None => {
            assert(old(woken)@ + parked(None) =~= old(woken)@);
        },
    }
}

/// The tasks parked on a stream: a reader waiting for bytes and a writer waiting
/// for the stream to be acknowledged.
pub struct Shared {
    waker: Option<Waker>,
    write_waker: Option<Waker>,
}

impl Shared {
    /// The waker of the parked reader, if any.
    pub closed spec fn reader(&self) -> Option<Waker> {
        self.waker
    }

    /// The waker of the parked writer, if any.
    pub closed spec fn writer(&self) -> Option<Waker> {
        self.write_waker
    }

    /// No task parked.
    pub fn new() -> (s: Self)
        ensures
            s.reader() is None,
            s.writer() is None,
    {
        Shared { waker: None, write_waker: None }
    }
}

/// Whether a header is a stream-opening request: a `Syn` with no payload.
pub open spec fn is_handshake(h: HeaderView) -> bool {
    h.length == 0 && h.flag == Flag::Syn
}

/// Whether a header acknowledges a stream: an `Ack` with no payload.
pub open spec fn is_acknowledgement(h: HeaderView) -> bool {
    h.length == 0 && h.flag == Flag::Ack
}

/// The header of a data frame that a stream sends for a payload of `len` bytes.
pub open spec fn data_header(id: u32, len: nat) -> HeaderView {
    HeaderView { id, length: len as u32, flag: Flag::Syn, frame_type: FrameType::Data }
}

/// A stream after it takes in a frame with header `h` and wire bytes `wire`: a
/// stream-opening request changes nothing and wakes nothing; any other frame is
/// appended whole, an acknowledgement marks the stream ready and first wakes the
/// parked writer, and then the parked reader is woken.
pub open spec fn deliver(s: StreamView, h: HeaderView, wire: Seq<u8>) -> StreamView {
    if is_handshake(h) {
        s
    } else {
        let woken_writer = if is_acknowledgement(h) {
            parked(s.writer)
        } else {
            Seq::empty()
        };
        StreamView {
            buffer: s.buffer + wire,
            ready: s.ready || is_acknowledgement(h),
            woken: s.woken + woken_writer + parked(s.reader),
            ..s
        }
    }
}

/// Where a frame read stands: its header is still to be read, or its header
/// announced a payload of this many bytes that is still to be read.
#[derive(Clone, Copy)]
pub enum ReadPhase {
    Header,
    Body(usize),
}

/// The outcome of one attempt to read a frame: still waiting, in the given phase,
/// or the frame's payload.
pub enum ReadStep {
    Pending(ReadPhase),
    Done(Vec<u8>),
}

/// The phase of a frame read, as a plain value: `None` for the header, else the
/// payload length still to be read.
pub open spec fn phase_view(p: ReadPhase) -> Option<nat> {
    match p {
        ReadPhase::Header => None,
        ReadPhase::Body(n) => Some(n as nat),
    }
}

/// Whether a frame read in phase `phase` from received bytes `buf` goes through
/// without copying the bytes held into a longer buffer, a copy between slices of
/// unequal length: nothing held, or enough for the header, and after the header
/// nothing more or enough for the payload it announces.
pub open spec fn frame_readable(buf: Seq<u8>, phase: Option<nat>) -> bool {
    match phase {
        None => buf.len() == 0 || (buf.len() >= HEADER_LENGTH && {
            let rest = buf.skip(HEADER_LENGTH as int);
            rest.len() == 0 || rest.len() >= decode_header(buf.take(HEADER_LENGTH as int)).length
        }),
        Some(n) => buf.len() == 0 || buf.len() >= n,
    }
}

/// What one frame-read attempt in phase `phase` yields from received bytes `buf`:
/// the phase to wait in (`Err`) or the payload (`Ok`), and the bytes left.
pub open spec fn read_frame_outcome(buf: Seq<u8>, phase: Option<nat>) -> (Result<
    Seq<u8>,
    Option<nat>,
>, Seq<u8>) {
    match phase {
        None => if buf.len() == 0 {
            (Err(None), buf)
        } else {
            let len = decode_header(buf.take(HEADER_LENGTH as int)).length as nat;
            let rest = buf.skip(HEADER_LENGTH as int);
            if rest.len() == 0 {
                (Err(Some(len)), rest)
            } else {
                (Ok(rest.take(len as int)), rest.skip(len as int))
            }
        },
        Some(n) => if buf.len() == 0 {
            (Err(Some(n)), buf)
        } else {
            (Ok(buf.take(n as int)), buf.skip(n as int))
        },
    }
}

/// A stream after one read attempt with a buffer of `buf_len` bytes: the first
/// `buf_len` received bytes are consumed, or, with nothing received, `waker` is
/// parked as the reader.
pub open spec fn after_read(s: StreamView, buf_len: nat, waker: Waker) -> StreamView {
    if s.buffer.len() > 0 {
        StreamView { buffer: s.buffer.skip(buf_len as int), ..s }
    } else {
        StreamView { reader: Some(waker), ..s }
    }
}

/// A stream after one write attempt: unchanged once ready, else with `waker`
/// parked as the writer.
pub open spec fn after_write(s: StreamView, waker: Waker) -> StreamView {
    if s.ready {
        s
    } else {
        StreamView { writer: Some(waker), ..s }
    }
}

/// What a stream holds, as plain values.
pub struct StreamView {
    pub id: u32,
    pub buffer: Seq<u8>,
    pub ready: bool,
    pub reader: Option<Waker>,
    pub writer: Option<Waker>,
    /// The wakers this stream has woken, oldest first.
    pub woken: Seq<Waker>,
}

/// One multiplexed stream.
pub struct Stream {
    id: u32,
    in_buf: Vec<u8>,
    ready: bool,
    shared: Shared,
    woken: Ghost<Seq<Waker>>,
}

impl View for Stream {
    type V = StreamView;

    closed spec fn view(&self) -> StreamView {
        StreamView {
            id: self.id,
            buffer: self.in_buf@,
            ready: self.ready,
            reader: self.shared.waker,
            writer: self.shared.write_waker,
            woken: self.woken@,
        }
    }
}

impl Stream {
    /// A fresh stream with the given id: nothing received, not yet acknowledged,
    /// no task parked.
    pub open spec fn fresh(id: u32) -> StreamView {
        StreamView {
            id,
            buffer: Seq::empty(),
            ready: false,
            reader: None,
            writer: None,
            woken: Seq::empty(),
        }
    }

    /// A fresh stream.
    pub fn new(id: u32) -> (s: Self)
        ensures
            s@ == Stream::fresh(id),
    {
        Stream {
            id,
            in_buf: Vec::new(),
            ready: false,
            shared: Shared::new(),
            woken: Ghost(Seq::empty()),
        }
    }

    /// The id of this stream.
    pub fn id(&self) -> (id: u32)
        ensures
            id == self@.id,
    {
        self.id
    }

    /// The number of received bytes not yet read.
    pub fn buffered(&self) -> (n: usize)
        ensures
            n == self@.buffer.len(),
    {
        self.in_buf.len()
    }

    /// Takes in a frame received for this stream.
    ///
    /// A stream-opening request is skipped and 0 returned. Any other frame is
    /// appended to the received bytes in its wire form, header included, and the
    /// payload length returned; an acknowledgement also marks the stream ready
    /// and wakes a parked writer. A parked reader is woken after the append.
    pub fn write_to_buffer(&mut self, frame: Frame) -> (n: usize)
        ensures
            n == (if is_handshake(frame.header@) {
                0
            } else {
                frame.data@.len()
            }),
            final(self)@ == deliver(old(self)@, frame.header@, frame.wire()),
            is_acknowledgement(frame.header@) ==> final(self)@.woken == old(self)@.woken + parked(
                old(self)@.writer,
            ) + parked(old(self)@.reader),
            is_acknowledgement(frame.header@) && old(self)@.writer is Some ==> final(self)@.woken.contains(
                old(self)@.writer.unwrap(),
            ),
            is_handshake(frame.header@) ==> final(self)@.woken == old(self)@.woken,
    {
        proof {
            lemma_deliver(old(self)@, frame.header@, frame.wire());
        }
        if frame.header().len() == 0 && frame.is_syn() {
            return 0;
        } else if frame.header().len() == 0 && frame.is_ack() {
            self.ready = true;
            self.wake_write();
        }
        let ghost wire = frame.wire();
        let ghost h = frame.header@;
        let (header, bytes) = frame.split();
        let head = header.to_bytes();
        self.in_buf.extend_from_slice(head.as_slice());
        self.in_buf.extend_from_slice(bytes.as_slice());
        proof {
            assert(self.in_buf@ =~= old(self)@.buffer + wire);
        }
        self.wake();
        proof {
            if !is_acknowledgement(h) {
                assert(old(self)@.woken + Seq::<Waker>::empty() =~= old(self)@.woken);
            }
        }
        bytes.len()
    }

    /// Wakes the parked reader, if there is one.
    pub fn wake(&mut self)
        ensures
            final(self)@ == (StreamView {
                woken: old(self)@.woken + parked(old(self)@.reader),
                ..old(self)@
            }),
    {
        wake_parked(&self.shared.waker, &mut self.woken);
    }

    /// Wakes the parked writer, if there is one.
    pub fn wake_write(&mut self)
        ensures
            final(self)@ == (StreamView {
                woken: old(self)@.woken + parked(old(self)@.writer),
                ..old(self)@
            }),
    {
        wake_parked(&self.shared.write_waker, &mut self.woken);
    }

    /// One attempt to read into a buffer of `buf_len` bytes.
    ///
    /// With nothing received, parks `waker` as the reader and returns `None`.
    /// Otherwise removes the first `buf_len` received bytes and returns them with
    /// the number of bytes that were held before the read.
    pub fn poll_read(&mut self, buf_len: usize, waker: Waker) -> (r: Option<(Vec<u8>, usize)>)
        requires
            old(self)@.buffer.len() == 0 || old(self)@.buffer.len() >= buf_len,
        ensures
            r is Some <==> old(self)@.buffer.len() > 0,
            r matches Some((bytes, n)) ==> bytes@ == old(self)@.buffer.take(buf_len as int) && n
                == old(self)@.buffer.len(),
            r matches Some((bytes, _)) ==> bytes@.len() == buf_len && bytes@ + final(self)@.buffer
                == old(self)@.buffer,
            final(self)@ == after_read(old(self)@, buf_len as nat, waker),
    {
        let len = self.in_buf.len();
        if len > 0 {
            let mut rest = self.in_buf.split_off(buf_len);
            std::mem::swap(&mut self.in_buf, &mut rest);
            proof {
                assert(rest@ =~= old(self)@.buffer.take(buf_len as int));
                assert(self.in_buf@ =~= old(self)@.buffer.skip(buf_len as int));
            }
            return Some((rest, len));
        }
        self.shared.waker = Some(waker);
        None
    }

    /// The header at the front of the received bytes.
    fn peek_header(&self) -> (h: MuxHeader)
        requires
            self@.buffer.len() >= HEADER_LENGTH,
        ensures
            h@ == decode_header(self@.buffer.take(HEADER_LENGTH as int)),
    {
        let b = &self.in_buf;
        let head: [u8; HEADER_LENGTH] = [b[0], b[1], b[2], b[3], b[4], b[5], b[6], b[7], b[8], b[9]];
        assert(head@ =~= self@.buffer.take(HEADER_LENGTH as int));
        MuxHeader::from_bytes(head)
    }

    /// Whether a frame read in phase `phase` can be attempted: see `frame_readable`.
    pub fn frame_readable(&self, phase: ReadPhase) -> (b: bool)
        ensures
            b == frame_readable(self@.buffer, phase_view(phase)),
    {
        let held = self.in_buf.len();
        match phase {
            ReadPhase::Header => {
                if held == 0 {
                    true
                } else if held < HEADER_LENGTH {
                    false
                } else {
                    let len = self.peek_header().len();
                    held == HEADER_LENGTH || held - HEADER_LENGTH >= len
                }
            },
            ReadPhase::Body(n) => held == 0 || held >= n,
        }
    }

    /// One attempt to read a whole frame, resuming in phase `phase`: reads the
    /// header if it is still to be read, then as many payload bytes as it announces.
    /// Each read that finds nothing received parks `waker` as the reader and returns
    /// the phase to resume in.
    pub fn read_frame(&mut self, phase: ReadPhase, waker: Waker) -> (r: ReadStep)
        requires
            frame_readable(old(self)@.buffer, phase_view(phase)),
        ensures
            ({
                let (out, left) = read_frame_outcome(old(self)@.buffer, phase_view(phase));
                &&& match r {
                    ReadStep::Done(payload) => out == Ok::<Seq<u8>, Option<nat>>(payload@),
                    ReadStep::Pending(p) => out == Err::<Seq<u8>, Option<nat>>(phase_view(p)),
                }
                &&& final(self)@ == (StreamView {
                    buffer: left,
                    reader: if out is Err {
                        Some(waker)
                    } else {
                        old(self)@.reader
                    },
                    ..old(self)@
                })
            }),
    {
        let len = match phase {
            ReadPhase::Header => {
                if self.in_buf.len() == 0 {
                    self.shared.waker = Some(waker);
                    return ReadStep::Pending(ReadPhase::Header);
                }
                let header = self.peek_header();
                let mut head = self.in_buf.split_off(HEADER_LENGTH);
                std::mem::swap(&mut self.in_buf, &mut head);
                proof {
                    assert(self.in_buf@ =~= old(self)@.buffer.skip(HEADER_LENGTH as int));
                }
                header.len()
            },
            ReadPhase::Body(n) => n,
        };
        match self.poll_read(len, waker) {
            Some((payload, _)) => ReadStep::Done(payload),
            None => ReadStep::Pending(ReadPhase::Body(len)),
        }
    }

    /// One attempt to write `buf` to the stream.
    ///
    /// Before the peer has acknowledged the stream, parks `waker` as the writer and
    /// returns `None`. Afterwards returns the data frame to send (header and payload)
    /// and the count to report once it is sent: the payload and header lengths.
    pub fn poll_write(&mut self, buf: &[u8], waker: Waker) -> (r: Option<
        (MuxHeader, Vec<u8>, usize),
    >)
        requires
            buf@.len() + HEADER_LENGTH <= usize::MAX,
        ensures
            r is Some <==> old(self)@.ready,
            r matches Some((header, data, n)) ==> header@ == data_header(old(self)@.id, buf@.len())
                && data@ == buf@ && n == buf@.len() + HEADER_LENGTH,
            r matches Some((header, _, _)) ==> header@.id == old(self)@.id && header@.length == (
            buf@.len() as u32) && header@.flag == Flag::Syn && header@.frame_type == FrameType::Data,
            final(self)@ == after_write(old(self)@, waker),
    {
        if !self.ready {
            self.shared.write_waker = Some(waker);
            return None;
        }
        let header = MuxHeader::new(
            self.id,
            buf.len() as u32,
            Some(Flag::Syn),
            Some(FrameType::Data),
        );
        let data = vstd::slice::slice_to_vec(buf);
        Some((header, data, buf.len() + HEADER_LENGTH))
    }
}

/// Frames read back from received bytes in the order they were appended: from the
/// wire bytes of a frame followed by any further bytes, a read of `HEADER_LENGTH`
/// bytes yields bytes that decode to the frame's header, a following read of the
/// announced length yields the payload, and what remains is the further bytes.
pub proof fn lemma_frame_reads_back(h: HeaderView, data: Seq<u8>, rest: Seq<u8>)
    requires
        data.len() == h.length,
    ensures
        ({
            let bytes = encode_header(h) + data + rest;
            &&& bytes.len() >= HEADER_LENGTH
            &&& decode_header(bytes.take(HEADER_LENGTH as int)) == h
            &&& bytes.skip(HEADER_LENGTH as int).len() >= h.length
            &&& bytes.skip(HEADER_LENGTH as int).take(h.length as int) == data
            &&& bytes.skip(HEADER_LENGTH as int).skip(h.length as int) == rest
        }),
{
    lemma_header_roundtrip(h);
    let bytes = encode_header(h) + data + rest;
    assert(bytes.take(HEADER_LENGTH as int) =~= encode_header(h));
    assert(bytes.skip(HEADER_LENGTH as int) =~= data + rest);
    assert((data + rest).take(h.length as int) =~= data);
    assert((data + rest).skip(h.length as int) =~= rest);
}

/// What a stream writes arrives whole: the data frame for a non-empty payload of
/// at most `u32::MAX` bytes announces the payload's length and is no
/// stream-opening request, so the receiving stream appends its wire bytes to what
/// it holds, and from those bytes its header and payload read back.
pub proof fn lemma_payload_delivered(s: StreamView, id: u32, payload: Seq<u8>)
    requires
        0 < payload.len() <= u32::MAX,
    ensures
        ({
            let h = data_header(id, payload.len());
            let wire = encode_header(h) + payload;
            &&& !is_handshake(h)
            &&& h.id == id
            &&& h.length == payload.len()
            &&& deliver(s, h, wire).buffer == s.buffer + wire
            &&& decode_header(wire.take(HEADER_LENGTH as int)) == h
            &&& wire.skip(HEADER_LENGTH as int) == payload
        }),
{
    let h = data_header(id, payload.len());
    lemma_header_roundtrip(h);
    let wire = encode_header(h) + payload;
    assert(wire.take(HEADER_LENGTH as int) =~= encode_header(h));
    assert(wire.skip(HEADER_LENGTH as int) =~= payload);
}

/// A frame read from the wire bytes of a frame followed by any further bytes
/// returns the frame's payload and leaves the further bytes, provided there is
/// something after the header; with nothing after it, the read waits for the
/// payload it announces. Either way the read is one that goes through.
pub proof fn lemma_read_frame_returns_payload(h: HeaderView, data: Seq<u8>, rest: Seq<u8>)
    requires
        data.len() == h.length,
    ensures
        ({
            let bytes = encode_header(h) + data + rest;
            &&& frame_readable(bytes, None)
            &&& data.len() + rest.len() > 0 ==> read_frame_outcome(bytes, None) == (Ok::<
                Seq<u8>,
                Option<nat>,
            >(data), rest)
            &&& data.len() + rest.len() == 0 ==> read_frame_outcome(bytes, None) == (Err::<
                Seq<u8>,
                Option<nat>,
            >(Some(0)), Seq::<u8>::empty())
        }),
{
    lemma_frame_reads_back(h, data, rest);
    let bytes = encode_header(h) + data + rest;
    assert(bytes.skip(HEADER_LENGTH as int).len() == data.len() + rest.len());
    if data.len() + rest.len() == 0 {
        assert(bytes.skip(HEADER_LENGTH as int) =~= Seq::<u8>::empty());
    }
}

/// A stream after taking in a sequence of frames, each a header with its wire bytes,
/// in order.
pub open spec fn deliver_all(s: StreamView, frames: Seq<(HeaderView, Seq<u8>)>) -> StreamView
    decreases frames.len(),
{
    if frames.len() == 0 {
        s
    } else {
        deliver(deliver_all(s, frames.drop_last()), frames.last().0, frames.last().1)
    }
}

/// A stream becomes ready for writes only through an acknowledgement: after any
/// sequence of frames it is ready exactly when it was before or one of the frames
/// was an acknowledgement. Its id never changes. A fresh stream, as `open`
/// registers it, is not ready, so `poll_write` refuses until an acknowledgement
/// arrives.
pub proof fn lemma_ready_only_after_ack(s: StreamView, frames: Seq<(HeaderView, Seq<u8>)>)
    ensures
        deliver_all(s, frames).ready <==> (s.ready || exists|i: int|
            0 <= i < frames.len() && #[trigger] is_acknowledgement(frames[i].0)),
        deliver_all(s, frames).id == s.id,
    decreases frames.len(),
{
    if frames.len() > 0 {
        let init = frames.drop_last();
        lemma_ready_only_after_ack(s, init);
        if deliver_all(s, frames).ready && !s.ready {
            if !is_acknowledgement(frames.last().0) {
                let i = choose|i: int| 0 <= i < init.len() && #[trigger] is_acknowledgement(init[i].0);
                assert(frames[i] == init[i]);
            }
        }
        if exists|i: int| 0 <= i < frames.len() && #[trigger] is_acknowledgement(frames[i].0) {
            let i = choose|i: int| 0 <= i < frames.len() && #[trigger] is_acknowledgement(frames[i].0);
            if i < frames.len() - 1 {
                assert(init[i] == frames[i]);
            }
        }
    }
}

/// The waker sequence of a parked task: one waker if there is a task, none if not.
pub proof fn lemma_parked(w: Waker)
    ensures
        parked(Some(w)) == seq![w],
        parked(None) == Seq::<Waker>::empty(),
{
}

/// A fresh stream has the given id, holds nothing, is not ready, has no task
/// parked and has woken nothing.
pub proof fn lemma_fresh_stream(id: u32)
    ensures
        Stream::fresh(id).id == id,
        Stream::fresh(id).buffer.len() == 0,
        !Stream::fresh(id).ready,
        Stream::fresh(id).reader is None,
        Stream::fresh(id).writer is None,
        Stream::fresh(id).woken.len() == 0,
{
}

/// What taking in a frame does to a stream. A stream-opening request changes
/// nothing. Any other frame leaves the id and the parked tasks in place, appends
/// exactly the frame's wire bytes to what is held, makes the stream ready exactly
/// when it was ready or the frame is an acknowledgement, and wakes: on an
/// acknowledgement first the parked writer, then in every case the parked reader.
pub proof fn lemma_deliver(s: StreamView, h: HeaderView, wire: Seq<u8>)
    ensures
        ({
            let d = deliver(s, h, wire);
            &&& is_handshake(h) ==> d == s
            &&& d.id == s.id
            &&& d.reader == s.reader
            &&& d.writer == s.writer
            &&& d.ready == (s.ready || is_acknowledgement(h))
            &&& !is_handshake(h) ==> d.buffer == s.buffer + wire
            &&& !is_handshake(h) ==> d.buffer.len() == s.buffer.len() + wire.len()
            &&& !is_handshake(h) ==> d.buffer.take(s.buffer.len() as int) == s.buffer
            &&& is_acknowledgement(h) ==> d.woken == s.woken + parked(s.writer) + parked(s.reader)
            &&& is_acknowledgement(h) && s.writer is Some ==> d.woken.contains(s.writer.unwrap())
            &&& !is_handshake(h) && !is_acknowledgement(h) ==> d.woken == s.woken + parked(s.reader)
            &&& !is_handshake(h) && s.reader is Some ==> d.woken.last() == s.reader.unwrap()
        }),
{
    let d = deliver(s, h, wire);
    if !is_handshake(h) {
        assert(d.buffer.take(s.buffer.len() as int) =~= s.buffer);
        if is_acknowledgement(h) {
            assert(s.woken + Seq::<Waker>::empty() =~= s.woken);
            if s.writer is Some {
                let w = s.writer.unwrap();
                assert(d.woken[s.woken.len() as int] == w);
            }
        } else {
            assert(s.woken + Seq::<Waker>::empty() =~= s.woken);
        }
    }
}

/// A read removes exactly the bytes it hands out: with bytes held, the first
/// `buf_len` of them followed by what is left make up what was held, and the
/// parked reader stays; with nothing held, nothing changes but `waker` is parked
/// as the reader. The id, readiness, writer and woken record never change.
pub proof fn lemma_read_consumes_exactly(s: StreamView, buf_len: nat, waker: Waker)
    requires
        s.buffer.len() == 0 || s.buffer.len() >= buf_len,
    ensures
        ({
            let a = after_read(s, buf_len, waker);
            &&& s.buffer.len() > 0 ==> s.buffer.take(buf_len as int) + a.buffer == s.buffer
            &&& s.buffer.len() > 0 ==> a.buffer.len() == s.buffer.len() - buf_len
            &&& s.buffer.len() > 0 ==> a.reader == s.reader
            &&& s.buffer.len() == 0 ==> a.buffer == s.buffer && a.reader == Some(waker)
            &&& a.id == s.id && a.ready == s.ready && a.writer == s.writer && a.woken == s.woken
        }),
{
    if s.buffer.len() > 0 {
        assert(s.buffer.take(buf_len as int) + s.buffer.skip(buf_len as int) =~= s.buffer);
    }
}

/// A write attempt changes nothing on a ready stream; on one that is not ready it
/// only parks `waker` as the writer.
pub proof fn lemma_write_attempt(s: StreamView, waker: Waker)
    ensures
        s.ready ==> after_write(s, waker) == s,
        !s.ready ==> after_write(s, waker).writer == Some(waker),
        after_write(s, waker).id == s.id,
        after_write(s, waker).buffer == s.buffer,
        after_write(s, waker).ready == s.ready,
        after_write(s, waker).reader == s.reader,
        after_write(s, waker).woken == s.woken,
{
}

/// The frame a write hands out is a data frame flagged `Syn`, for the writing
/// stream, announcing the payload's length (taken modulo 2^32).
pub proof fn lemma_data_header(id: u32, len: nat)
    ensures
        data_header(id, len).id == id,
        data_header(id, len).flag == Flag::Syn,
        data_header(id, len).frame_type == FrameType::Data,
        data_header(id, len).length == len as u32,
        len <= u32::MAX ==> data_header(id, len).length == len,
{
}

/// A frame read that completes hands out the bytes it removes: in the header
/// phase the header, then the payload, then what is left make up what was held,
/// and the payload is as long as the header announces; in the payload phase the
/// payload and what is left make up what was held. A read that waits leaves
/// nothing consumed but the header, and waits for the announced payload.
pub proof fn lemma_read_frame_consumes_exactly(buf: Seq<u8>, phase: Option<nat>)
    requires
        frame_readable(buf, phase),
    ensures
        ({
            let (out, left) = read_frame_outcome(buf, phase);
            &&& out matches Ok(p) ==> match phase {
                None => {
                    &&& buf.take(HEADER_LENGTH as int) + p + left == buf
                    &&& p.len() == decode_header(buf.take(HEADER_LENGTH as int)).length
                },
                Some(n) => p + left == buf && p.len() == n,
            }
            &&& out matches Err(q) ==> match phase {
                None => if buf.len() == 0 {
                    q is None && left == buf
                } else {
                    &&& q == Some(decode_header(buf.take(HEADER_LENGTH as int)).length as nat)
                    &&& buf.take(HEADER_LENGTH as int) == buf
                    &&& left.len() == 0
                },
                Some(n) => q == Some(n) && left == buf && buf.len() == 0,
            }
        }),
{
    let (out, left) = read_frame_outcome(buf, phase);
    match phase {
        None => {
            if buf.len() > 0 {
                let rest = buf.skip(HEADER_LENGTH as int);
                let len = decode_header(buf.take(HEADER_LENGTH as int)).length as nat;
                if rest.len() == 0 {
                    assert(buf.take(HEADER_LENGTH as int) =~= buf);
                } else {
                    assert(buf.take(HEADER_LENGTH as int) + rest.take(len as int) + rest.skip(
                        len as int,
                    ) =~= buf);
                }
            }
        },
        Some(n) => {
            if buf.len() > 0 {
                assert(buf.take(n as int) + buf.skip(n as int) =~= buf);
            }
        },
    }
}

/// When a frame read can be attempted: always with nothing held; in the header
/// phase never with part of a header held, and always when a whole frame is held;
/// in the payload phase exactly with nothing held or at least the payload held.
pub proof fn lemma_frame_readable(buf: Seq<u8>, n: nat, h: HeaderView, data: Seq<u8>, rest: Seq<u8>)
    requires
        data.len() == h.length,
    ensures
        buf.len() == 0 ==> frame_readable(buf, None) && frame_readable(buf, Some(n)),
        0 < buf.len() < HEADER_LENGTH ==> !frame_readable(buf, None),
        frame_readable(buf, Some(n)) <==> (buf.len() == 0 || buf.len() >= n),
        frame_readable(encode_header(h) + data + rest, None),
{
    lemma_read_frame_returns_payload(h, data, rest);
}

} // verus!
