//! The state a session keeps: the streams it knows by id, the counter it draws
//! fresh ids from, and the streams the peer opened that are not yet accepted.
//!
//! Servers use even stream ids and clients odd ones.
use vstd::prelude::*;

use std::collections::HashMap;
use std::task::Waker;

use crate::frame::Frame;
use crate::header::{
    decode_header, encode_header, lemma_header_roundtrip, FrameType, Flag, HeaderView, MuxHeader,
    HEADER_LENGTH,
};
use crate::stream::{
    lemma_deliver,
    after_read, after_write, deliver, frame_readable, is_acknowledgement, is_handshake, parked,
    phase_view, read_frame_outcome, wake_parked, ReadPhase, ReadStep, Stream,
    StreamView,
};

verus! {

broadcast use vstd::std_specs::hash::group_hash_axioms;

/// The side of a session, which decides the parity of the ids it opens.
#[derive(Debug, Clone, Copy, PartialEq, Eq, Structural)]
pub enum MuxMode {
    /// Opens even ids.
    Server,
    /// Opens odd ids.
    Client,
}

/// Whether `id` belongs to the side `mode`.
pub open spec fn owns(mode: MuxMode, id: int) -> bool {
    (id % 2 == 0) == (mode == MuxMode::Server)
}

/// The id that opening a stream of side `mode` draws when the counter stands at
/// `next`: the counter itself if its parity fits, else the one after it.
pub open spec fn drawn_id(next: int, mode: MuxMode) -> int {
    if owns(mode, next) {
        next
    } else {
        next + 1
    }
}

impl MuxMode {
    /// Whether `id` belongs to this side.
    pub fn valid(&self, id: u32) -> (b: bool)
        ensures
            b == owns(*self, id as int),
    {
        match self {
            MuxMode::Server => Self::is_server(id),
            MuxMode::Client => !Self::is_server(id),
        }
    }

    /// Whether `id` is a server id, that is even.
    pub fn is_server(id: u32) -> (b: bool)
        ensures
            b == (id % 2 == 0),
    {
        id % 2 == 0
    }

    /// The side that `id` belongs to.
    pub fn from_id(id: u32) -> (m: Self)
        ensures
            m == (if id % 2 == 0 {
                MuxMode::Server
            } else {
                MuxMode::Client
            }),
            owns(m, id as int),
    {
        if Self::is_server(id) {
            return MuxMode::Server;
        }
        return MuxMode::Client;
    }
}

/// Every id belongs to the side that `from_id` gives for it, and to no other.
pub proof fn lemma_id_has_one_owner(id: int)
    ensures
        owns(MuxMode::Server, id) != owns(MuxMode::Client, id),
{
}

/// An id drawn for a side belongs to that side, is not below the counter, and the
/// next id drawn after it, for either side, is larger: ids are never drawn twice.
pub proof fn lemma_drawn_ids_increase(next: int, first: MuxMode, second: MuxMode)
    ensures
        owns(first, drawn_id(next, first)),
        next <= drawn_id(next, first) <= next + 1,
        drawn_id(next, first) < drawn_id(drawn_id(next, first) + 1, second),
{
}

/// The header of the reply to a stream-opening request: the same header, flagged `Ack`.
pub open spec fn acknowledgement_of(h: HeaderView) -> HeaderView {
    HeaderView { flag: Flag::Ack, ..h }
}

/// The session after a frame with header `h` and wire bytes `wire` is delivered:
/// an unknown id is first registered as a fresh stream, queued to be accepted and
/// the parked acceptor woken; then the stream takes in the frame.
pub open spec fn route(s: SessionView, h: HeaderView, wire: Seq<u8>) -> SessionView {
    let id = h.id;
    let known = s.streams.contains_key(id);
    let before = if known {
        s.streams[id]
    } else {
        Stream::fresh(id)
    };
    SessionView {
        streams: s.streams.insert(id, deliver(before, h, wire)),
        inbound: if known {
            s.inbound
        } else {
            s.inbound.push(id)
        },
        woken: if known {
            s.woken
        } else {
            s.woken + parked(s.inbound_waker)
        },
        ..s
    }
}

/// The opening handshake: the reply to a stream-opening request decodes, on the
/// peer's side, to an acknowledgement of the same stream, which the stream takes
/// in and which marks it ready for writes.
pub proof fn lemma_handshake_opens_stream(h: HeaderView, s: StreamView)
    requires
        is_handshake(h),
    ensures
        ({
            let a = acknowledgement_of(h);
            &&& decode_header(encode_header(a)) == a
            &&& a.id == h.id
            &&& a.length == h.length
            &&& a.flag == Flag::Ack
            &&& a.frame_type == h.frame_type
            &&& is_acknowledgement(a)
            &&& !is_handshake(a)
            &&& deliver(s, a, encode_header(a)).ready
            &&& deliver(s, a, encode_header(a)).buffer == s.buffer + encode_header(a)
        }),
{
    lemma_header_roundtrip(acknowledgement_of(h));
}

/// The session after it handles a frame read from the connection: a
/// stream-opening request is only answered, any other frame is routed.
pub open spec fn receive(s: SessionView, h: HeaderView, wire: Seq<u8>) -> SessionView {
    if is_handshake(h) {
        s
    } else {
        route(s, h, wire)
    }
}

/// The session after it handles a sequence of frames, each a header with its wire
/// bytes, in order.
pub open spec fn receive_all(s: SessionView, frames: Seq<(HeaderView, Seq<u8>)>) -> SessionView
    decreases frames.len(),
{
    if frames.len() == 0 {
        s
    } else {
        receive(receive_all(s, frames.drop_last()), frames.last().0, frames.last().1)
    }
}

/// Whether one of `frames` is routed to the stream `id` (is for `id` and no
/// stream-opening request).
pub open spec fn routed_to(frames: Seq<(HeaderView, Seq<u8>)>, id: u32) -> bool {
    exists|i: int| 0 <= i < frames.len() && #[trigger] frames[i].0.id == id && !is_handshake(frames[i].0)
}

/// Whether one of `frames` acknowledges the stream `id`.
pub open spec fn acknowledged(frames: Seq<(HeaderView, Seq<u8>)>, id: u32) -> bool {
    exists|i: int| 0 <= i < frames.len() && #[trigger] frames[i].0.id == id && is_acknowledgement(frames[i].0)
}

/// What routing a frame does to the session. The frame's stream is known
/// afterwards and every other stream is untouched. A frame for a stream that is
/// already known leaves the accept queue and the woken record as they were; a
/// frame for an unknown stream appends its id to the accept queue and wakes the
/// parked acceptor. The stream then holds what it held before (nothing, if it was
/// unknown) followed by the frame's wire bytes, unless the frame is a
/// stream-opening request. The counter and the parked acceptor never change.
pub proof fn lemma_route(s: SessionView, h: HeaderView, wire: Seq<u8>)
    ensures
        ({
            let r = route(s, h, wire);
            let known = s.streams.contains_key(h.id);
            &&& r.streams.dom() == s.streams.dom().insert(h.id)
            &&& forall|j: u32| #[trigger]
                s.streams.contains_key(j) && j != h.id ==> r.streams[j] == s.streams[j]
            &&& known ==> r.inbound == s.inbound && r.woken == s.woken
            &&& !known ==> r.inbound == s.inbound.push(h.id)
            &&& !known ==> r.woken == s.woken + parked(s.inbound_waker)
            &&& known && !is_handshake(h) ==> r.streams[h.id].buffer == s.streams[h.id].buffer + wire
            &&& !known && !is_handshake(h) ==> r.streams[h.id].buffer == wire
            &&& !known ==> r.streams[h.id].id == h.id && r.streams[h.id].ready == is_acknowledgement(h)
            &&& known ==> r.streams[h.id].ready == (s.streams[h.id].ready || is_acknowledgement(h))
            &&& r.next_id == s.next_id
            &&& r.inbound_waker == s.inbound_waker
        }),
{
    let r = route(s, h, wire);
    let before = if s.streams.contains_key(h.id) {
        s.streams[h.id]
    } else {
        Stream::fresh(h.id)
    };
    lemma_deliver(before, h, wire);
    assert(r.streams.dom() =~= s.streams.dom().insert(h.id));
    if !s.streams.contains_key(h.id) && !is_handshake(h) {
        assert(Seq::<u8>::empty() + wire =~= wire);
    }
}

/// Handling a frame: a stream-opening request changes nothing; any other frame
/// is routed.
pub proof fn lemma_receive(s: SessionView, h: HeaderView, wire: Seq<u8>)
    ensures
        is_handshake(h) ==> receive(s, h, wire) == s,
        !is_handshake(h) ==> receive(s, h, wire) == route(s, h, wire),
{
}

/// Routing a frame keeps the session's invariant.
pub proof fn lemma_route_keeps_wf(s: SessionView, h: HeaderView, wire: Seq<u8>)
    requires
        session_wf(s),
    ensures
        session_wf(route(s, h, wire)),
{
    let r = route(s, h, wire);
    if !s.streams.contains_key(h.id) {
        assert forall|i: int| 0 <= i < r.inbound.len() implies r.streams.contains_key(
            #[trigger] r.inbound[i],
        ) by {
            if i < s.inbound.len() {
                assert(s.streams.contains_key(s.inbound[i]));
            }
        }
        assert forall|i: int, j: int|
            0 <= i < r.inbound.len() && 0 <= j < r.inbound.len() && i != j implies r.inbound[i]
            != r.inbound[j] by {
            if i < s.inbound.len() && j < s.inbound.len() {
                assert(s.inbound[i] != s.inbound[j]);
            } else if i < s.inbound.len() {
                assert(s.streams.contains_key(s.inbound[i]));
            } else {
                assert(s.streams.contains_key(s.inbound[j]));
            }
        }
    } else {
        assert forall|i: int| 0 <= i < r.inbound.len() implies r.streams.contains_key(
            #[trigger] r.inbound[i],
        ) by {
            assert(s.streams.contains_key(s.inbound[i]));
        }
    }
}

/// Handling any sequence of frames keeps the session's invariant and only appends
/// to the accept queue. A stream is known afterwards exactly when it was before or
/// some frame was routed to it; a stream that was unknown and had a frame routed to
/// it is queued to be accepted. A known stream is ready exactly when it was ready
/// before or one of the frames acknowledged it.
pub proof fn lemma_receive_all(s: SessionView, frames: Seq<(HeaderView, Seq<u8>)>)
    requires
        session_wf(s),
    ensures
        ({
            let r = receive_all(s, frames);
            &&& session_wf(r)
            &&& s.inbound.is_prefix_of(r.inbound)
            &&& forall|id: u32| #[trigger]
                r.streams.contains_key(id) <==> s.streams.contains_key(id) || routed_to(frames, id)
            &&& forall|id: u32|
                !s.streams.contains_key(id) && routed_to(frames, id) ==> #[trigger] r.inbound.contains(
                    id,
                )
            &&& forall|id: u32| #[trigger]
                r.inbound.contains(id) ==> s.inbound.contains(id) || (!s.streams.contains_key(id)
                    && routed_to(frames, id))
            &&& forall|id: u32| #[trigger]
                r.streams.contains_key(id) ==> (r.streams[id].ready <==> (s.streams.contains_key(id)
                    && s.streams[id].ready) || acknowledged(frames, id))
        }),
    decreases frames.len(),
{
    if frames.len() == 0 {
        assert(s.inbound.is_prefix_of(s.inbound)) by {
            assert(s.inbound =~= s.inbound.subrange(0, s.inbound.len() as int));
        }
        assert forall|id: u32| !routed_to(frames, id) by {}
        assert forall|id: u32| !acknowledged(frames, id) by {}
    } else {
        let init = frames.drop_last();
        let (h, wire) = frames.last();
        let last = frames.len() - 1;
        lemma_receive_all(s, init);
        let p = receive_all(s, init);
        let r = receive_all(s, frames);
        assert(r == receive(p, h, wire));
        assert forall|id: u32| #[trigger]
            routed_to(frames, id) <==> routed_to(init, id) || (h.id == id && !is_handshake(h)) by {
            if routed_to(init, id) {
                let i = choose|i: int| 0 <= i < init.len() && #[trigger] init[i].0.id == id
                    && !is_handshake(init[i].0);
                assert(frames[i] == init[i]);
            }
            if h.id == id && !is_handshake(h) {
                assert(frames[last].0.id == id);
            }
            if routed_to(frames, id) {
                let i = choose|i: int| 0 <= i < frames.len() && #[trigger] frames[i].0.id == id
                    && !is_handshake(frames[i].0);
                if i < last {
                    assert(init[i] == frames[i]);
                }
            }
        }
        assert forall|id: u32| #[trigger]
            acknowledged(frames, id) <==> acknowledged(init, id) || (h.id == id
                && is_acknowledgement(h)) by {
            if acknowledged(init, id) {
                let i = choose|i: int| 0 <= i < init.len() && #[trigger] init[i].0.id == id
                    && is_acknowledgement(init[i].0);
                assert(frames[i] == init[i]);
            }
            if h.id == id && is_acknowledgement(h) {
                assert(frames[last].0.id == id);
            }
            if acknowledged(frames, id) {
                let i = choose|i: int| 0 <= i < frames.len() && #[trigger] frames[i].0.id == id
                    && is_acknowledgement(frames[i].0);
                if i < last {
                    assert(init[i] == frames[i]);
                }
            }
        }
        assert forall|id: u32| #[trigger]
            r.inbound.contains(id) implies s.inbound.contains(id) || (!s.streams.contains_key(id)
                && routed_to(frames, id)) by {
            let k = choose|k: int| 0 <= k < r.inbound.len() && r.inbound[k] == id;
            if k < p.inbound.len() {
                assert(p.inbound[k] == r.inbound[k]) by {
                    if !is_handshake(h) {
                        lemma_route(p, h, wire);
                    }
                }
                assert(p.inbound.contains(id));
            } else {
                lemma_route(p, h, wire);
                assert(!is_handshake(h));
                assert(!p.streams.contains_key(h.id));
                assert(id == h.id);
            }
        }
        if !is_handshake(h) {
            lemma_route_keeps_wf(p, h, wire);
            if !p.streams.contains_key(h.id) {
                assert(s.inbound.is_prefix_of(r.inbound)) by {
                    assert(s.inbound =~= r.inbound.subrange(0, s.inbound.len() as int)) by {
                        assert(s.inbound =~= p.inbound.subrange(0, s.inbound.len() as int));
                    }
                }
                assert(r.inbound[r.inbound.len() - 1] == h.id);
            }
            assert forall|id: u32|
                !s.streams.contains_key(id) && routed_to(frames, id) implies #[trigger] r.inbound.contains(
                id,
            ) by {
                if routed_to(init, id) {
                    assert(p.inbound.contains(id));
                    let k = choose|k: int| 0 <= k < p.inbound.len() && p.inbound[k] == id;
                    assert(r.inbound.len() >= p.inbound.len());
                    assert(r.inbound[k] == p.inbound[k]);
                } else {
                    assert(!p.streams.contains_key(id));
                    assert(r.inbound[r.inbound.len() - 1] == id);
                }
            }
        } else {
            assert forall|id: u32|
                !s.streams.contains_key(id) && routed_to(frames, id) implies #[trigger] r.inbound.contains(
                id,
            ) by {
                assert(routed_to(init, id));
            }
        }
    }
}

/// An opened stream refuses writes until the peer acknowledges it: for a known
/// stream that is not ready, after the session handles any sequence of frames the
/// stream is still known and is ready (so `stream_poll_write` hands out a frame)
/// exactly when one of the frames acknowledged it.
pub proof fn lemma_writes_wait_for_ack(s: SessionView, id: u32, frames: Seq<(HeaderView, Seq<u8>)>)
    requires
        session_wf(s),
        s.streams.contains_key(id),
        !s.streams[id].ready,
    ensures
        receive_all(s, frames).streams.contains_key(id),
        receive_all(s, frames).streams[id].ready <==> acknowledged(frames, id),
{
    lemma_receive_all(s, frames);
    let r = receive_all(s, frames);
    assert(r.streams.contains_key(id));
}

/// A stream waiting to be accepted is handed out once: the id that the next accept
/// takes is no longer in the queue afterwards.
pub proof fn lemma_accepted_once(s: SessionView)
    requires
        session_wf(s),
        s.inbound.len() > 0,
    ensures
        !s.inbound.drop_last().contains(s.inbound.last()),
{
    if s.inbound.drop_last().contains(s.inbound.last()) {
        let k = choose|k: int| 0 <= k < s.inbound.drop_last().len() && s.inbound.drop_last()[k]
            == s.inbound.last();
        assert(s.inbound[k] == s.inbound[s.inbound.len() - 1]);
    }
}

/// What the session holds, as plain values.
pub struct SessionView {
    pub next_id: nat,
    pub streams: Map<u32, StreamView>,
    pub inbound: Seq<u32>,
    pub inbound_waker: Option<Waker>,
    /// The acceptors this session has woken, oldest first.
    pub woken: Seq<Waker>,
}

/// The routing state of a session.
pub struct MuxSession {
    next_id: usize,
    streams: HashMap<u32, Stream>,
    inbound_streams: Vec<u32>,
    inbound_waker: Option<Waker>,
    woken: Ghost<Seq<Waker>>,
}

/// The streams of a map, each by its view.
pub open spec fn stream_views(m: Map<u32, Stream>) -> Map<u32, StreamView> {
    m.map_values(|s: Stream| s@)
}

/// The session's invariant: every stream is filed under its own id, every stream
/// waiting to be accepted is known, and none waits twice.
pub open spec fn session_wf(v: SessionView) -> bool {
    &&& forall|id: u32| #[trigger] v.streams.contains_key(id) ==> v.streams[id].id == id
    &&& forall|i: int| 0 <= i < v.inbound.len() ==> v.streams.contains_key(#[trigger] v.inbound[i])
    &&& v.inbound.no_duplicates()
}

impl View for MuxSession {
    type V = SessionView;

    closed spec fn view(&self) -> SessionView {
        SessionView {
            next_id: self.next_id as nat,
            streams: stream_views(self.streams@),
            inbound: self.inbound_streams@,
            inbound_waker: self.inbound_waker,
            woken: self.woken@,
        }
    }
}

impl MuxSession {
    /// The session's invariant, `session_wf`, which every value of the type keeps.
    pub open spec fn wf(&self) -> bool {
        session_wf(self@)
    }

    #[verifier::type_invariant]
    spec fn keeps_wf(self) -> bool {
        self.wf()
    }

    /// Sets the streams and the accept queue aside, leaving both empty.
    fn take_routing(&mut self) -> (r: (HashMap<u32, Stream>, Vec<u32>))
        ensures
            stream_views(r.0@) == old(self)@.streams,
            r.1@ == old(self)@.inbound,
            session_wf(old(self)@),
            final(self)@ == (SessionView {
                streams: Map::empty(),
                inbound: Seq::empty(),
                ..old(self)@
            }),
    {
        proof {
            use_type_invariant(&*self);
        }
        let mut inbound = Vec::new();
        std::mem::swap(&mut self.inbound_streams, &mut inbound);
        let mut streams = HashMap::new();
        std::mem::swap(&mut self.streams, &mut streams);
        proof {
            assert(self@.streams =~= Map::<u32, StreamView>::empty());
        }
        (streams, inbound)
    }

    /// Puts streams and an accept queue back in place of empty ones.
    fn put_routing(&mut self, streams: HashMap<u32, Stream>, inbound: Vec<u32>)
        requires
            old(self)@.streams == Map::<u32, StreamView>::empty(),
            old(self)@.inbound == Seq::<u32>::empty(),
            session_wf(
                SessionView { streams: stream_views(streams@), inbound: inbound@, ..old(self)@ },
            ),
        ensures
            final(self)@ == (SessionView {
                streams: stream_views(streams@),
                inbound: inbound@,
                ..old(self)@
            }),
    {
        let mut streams = streams;
        std::mem::swap(&mut self.streams, &mut streams);
        let mut inbound = inbound;
        std::mem::swap(&mut self.inbound_streams, &mut inbound);
    }

    /// Takes the stream `id` out, with the other streams and the accept queue set
    /// aside, leaving both empty.
    fn take_stream(&mut self, id: u32) -> (r: (Stream, HashMap<u32, Stream>, Vec<u32>))
        requires
            old(self)@.streams.contains_key(id),
        ensures
            session_wf(old(self)@),
            r.0@ == old(self)@.streams[id],
            stream_views(r.1@) == old(self)@.streams.remove(id),
            r.2@ == old(self)@.inbound,
            final(self)@ == (SessionView {
                streams: Map::empty(),
                inbound: Seq::empty(),
                ..old(self)@
            }),
    {
        let (mut streams, inbound) = self.take_routing();
        proof {
            assert(stream_views(streams@).dom() =~= streams@.dom());
        }
        let stream = streams.remove(&id).unwrap();
        proof {
            assert(stream_views(streams@) =~= old(self)@.streams.remove(id));
        }
        (stream, streams, inbound)
    }

    /// Puts a stream taken out by `take_stream` back under its id, with the other
    /// streams and the accept queue as they were in `pre`.
    fn put_stream(
        &mut self,
        id: u32,
        stream: Stream,
        streams: HashMap<u32, Stream>,
        inbound: Vec<u32>,
        Ghost(pre): Ghost<SessionView>,
    )
        requires
            old(self)@.streams == Map::<u32, StreamView>::empty(),
            old(self)@.inbound == Seq::<u32>::empty(),
            session_wf(pre),
            pre.streams.contains_key(id),
            stream_views(streams@) == pre.streams.remove(id),
            inbound@ == pre.inbound,
            stream@.id == id,
        ensures
            final(self)@ == (SessionView {
                streams: pre.streams.insert(id, stream@),
                inbound: pre.inbound,
                ..old(self)@
            }),
    {
        let mut streams = streams;
        let ghost m0 = streams@;
        let ghost sv = stream@;
        streams.insert(id, stream);
        proof {
            assert(stream_views(streams@) =~= stream_views(m0).insert(id, sv));
            assert(pre.streams.remove(id).insert(id, sv) =~= pre.streams.insert(id, sv));
            assert(stream_views(streams@) =~= pre.streams.insert(id, stream@));
            assert forall|i: int| 0 <= i < inbound@.len() implies stream_views(
                streams@,
            ).contains_key(#[trigger] inbound@[i]) by {
                assert(pre.streams.contains_key(pre.inbound[i]));
            }
        }
        self.put_routing(streams, inbound);
    }

    /// A session with no streams, whose counter starts at 1.
    pub fn new() -> (s: Self)
        ensures
            s.wf(),
            s@.next_id == 1,
            s@.streams == Map::<u32, StreamView>::empty(),
            s@.inbound == Seq::<u32>::empty(),
            s@.inbound_waker is None,
            s@.woken == Seq::<Waker>::empty(),
    {
        let s = MuxSession {
            next_id: 1,
            streams: HashMap::new(),
            inbound_streams: Vec::new(),
            inbound_waker: None,
            woken: Ghost(Seq::empty()),
        };
        proof {
            assert(s@.streams =~= Map::<u32, StreamView>::empty());
        }
        s
    }

    /// The counter that fresh ids are drawn from.
    pub fn next_id(&self) -> (n: usize)
        ensures
            n == self@.next_id,
    {
        self.next_id
    }

    /// The number of streams the session knows.
    pub fn stream_count(&self) -> (n: usize)
        ensures
            n == self@.streams.len(),
    {
        proof {
            assert(self.streams@.dom() =~= self@.streams.dom());
            assert(self@.streams.len() == self@.streams.dom().len());
            assert(self.streams@.len() == self.streams@.dom().len());
        }
        self.streams.len()
    }

    /// Registers a fresh stream: under `id` if given, else under an id drawn from the
    /// counter for the side `mode`. A stream already filed under that id is replaced.
    pub fn open_internal(&mut self, mode: MuxMode, id: Option<u32>) -> (r: u32)
        requires
            id is None ==> old(self)@.next_id < usize::MAX && (owns(mode, old(self)@.next_id as int)
                || old(self)@.next_id + 1 < usize::MAX),
        ensures
            final(self).wf(),
            match id {
                Some(i) => r == i && final(self)@.next_id == old(self)@.next_id,
                None => {
                    &&& r == drawn_id(old(self)@.next_id as int, mode) as u32
                    &&& final(self)@.next_id == drawn_id(old(self)@.next_id as int, mode) + 1
                },
            },
            owns(mode, r as int) || id is Some,
            final(self)@.streams == old(self)@.streams.insert(r, Stream::fresh(r)),
            final(self)@.inbound == old(self)@.inbound,
            final(self)@.inbound_waker == old(self)@.inbound_waker,
            final(self)@.woken == old(self)@.woken,
    {
        proof {
            use_type_invariant(&*self);
        }
        let final_id: u32 = match id {
            Some(i) => i,
            None => {
                let first = self.next_id;
                proof {
                    assert(session_wf(SessionView { next_id: (first + 1) as nat, ..self@ }));
                }
                self.next_id = first + 1;
                if mode.valid(first as u32) {
                    proof {
                        assert((first as u32) % 2 == first % 2) by (bit_vector);
                    }
                    first as u32
                } else {
                    let second = self.next_id;
                    proof {
                        assert((first as u32) % 2 == first % 2) by (bit_vector);
                        assert((second as u32) % 2 == second % 2) by (bit_vector);
                    }
                    proof {
                        assert(session_wf(SessionView { next_id: (second + 1) as nat, ..self@ }));
                    }
                    self.next_id = second + 1;
                    second as u32
                }
            },
        };
        let (mut streams, inbound) = self.take_routing();
        let ghost pre = old(self)@;
        streams.insert(final_id, Stream::new(final_id));
        proof {
            assert(stream_views(streams@) =~= pre.streams.insert(final_id, Stream::fresh(final_id)));
            assert forall|i: int| 0 <= i < inbound@.len() implies stream_views(
                streams@,
            ).contains_key(#[trigger] inbound@[i]) by {
                assert(pre.streams.contains_key(pre.inbound[i]));
            }
        }
        self.put_routing(streams, inbound);
        final_id
    }

    /// Opens a stream of side `mode` under a fresh id. Returns the id and the
    /// stream-opening request to send to the peer.
    pub fn open(&mut self, mode: MuxMode) -> (r: (u32, Frame))
        requires
            old(self)@.next_id < usize::MAX && (owns(mode, old(self)@.next_id as int)
                || old(self)@.next_id + 1 < usize::MAX),
        ensures
            final(self).wf(),
            r.0 == drawn_id(old(self)@.next_id as int, mode) as u32,
            owns(mode, r.0 as int),
            final(self)@.next_id == drawn_id(old(self)@.next_id as int, mode) + 1,
            final(self)@.streams == old(self)@.streams.insert(r.0, Stream::fresh(r.0)),
            final(self)@.inbound == old(self)@.inbound,
            final(self)@.inbound_waker == old(self)@.inbound_waker,
            final(self)@.woken == old(self)@.woken,
            r.1.header@ == (HeaderView {
                id: r.0,
                length: 0,
                flag: Flag::Syn,
                frame_type: FrameType::Data,
            }),
            r.1.data@ == Seq::<u8>::empty(),
    {
        let id = self.open_internal(mode, None);
        let frame = Frame {
            header: MuxHeader::new(id, 0, Some(Flag::Syn), Some(FrameType::Data)),
            data: Vec::new(),
        };
        (id, frame)
    }

    /// Delivers a frame received from the peer to its stream. A frame for an
    /// unknown id first registers a fresh stream under that id, queues the id to be
    /// accepted and wakes a parked acceptor. Returns what the stream's
    /// `write_to_buffer` returns.
    pub fn inbound_write(&mut self, frame: Frame) -> (n: usize)
        ensures
            final(self).wf(),
            n == (if is_handshake(frame.header@) {
                0
            } else {
                frame.data@.len()
            }),
            final(self)@ == route(old(self)@, frame.header@, frame.wire()),
            old(self)@.streams.contains_key(frame.header@.id) ==> final(self)@.inbound == old(
                self,
            )@.inbound && final(self)@.woken == old(self)@.woken,
            !old(self)@.streams.contains_key(frame.header@.id) ==> final(self)@.inbound == old(
                self,
            )@.inbound.push(frame.header@.id),
            final(self)@.streams.contains_key(frame.header@.id),
    {
        proof {
            use_type_invariant(&*self);
            lemma_route(old(self)@, frame.header@, frame.wire());
        }
        let id = frame.header().id();
        let ghost wire = frame.wire();
        let ghost h = frame.header@;
        let ghost target = route(old(self)@, h, wire);
        let ghost before = if old(self)@.streams.contains_key(id) {
            old(self)@.streams[id]
        } else {
            Stream::fresh(id)
        };
        if !self.contains_stream(id) {
            let mode = MuxMode::from_id(id);
            self.open_internal(mode, Some(id));
            let (streams, mut inbound) = self.take_routing();
            inbound.push(id);
            proof {
                let v = SessionView { streams: stream_views(streams@), inbound: inbound@, ..self@ };
                assert forall|i: int| 0 <= i < v.inbound.len() implies v.streams.contains_key(
                    #[trigger] v.inbound[i],
                ) by {
                    if i < v.inbound.len() - 1 {
                        assert(old(self)@.streams.contains_key(old(self)@.inbound[i]));
                    }
                }
                assert forall|i: int, j: int|
                    0 <= i < v.inbound.len() && 0 <= j < v.inbound.len() && i != j implies v.inbound[i]
                    != v.inbound[j] by {
                    if i < v.inbound.len() - 1 && j < v.inbound.len() - 1 {
                        assert(old(self)@.inbound[i] != old(self)@.inbound[j]);
                    } else if i < v.inbound.len() - 1 {
                        assert(old(self)@.streams.contains_key(old(self)@.inbound[i]));
                    } else {
                        assert(old(self)@.streams.contains_key(old(self)@.inbound[j]));
                    }
                }
            }
            self.put_routing(streams, inbound);
            let mut woken = self.woken;
            wake_parked(&self.inbound_waker, &mut woken);
            self.woken = woken;
        }
        let ghost mid = self@;
        proof {
            assert(mid.streams.contains_key(id));
            assert(mid.streams[id] == before);
            assert(mid.inbound == target.inbound);
            assert(mid.woken == target.woken);
        }
        let (mut stream, streams, inbound) = self.take_stream(id);
        let n = stream.write_to_buffer(frame);
        self.put_stream(id, stream, streams, inbound, Ghost(mid));
        proof {
            assert(self@.streams =~= target.streams);
        }
        n
    }

    /// Takes the most recently queued stream the peer opened, if any; with none
    /// queued, parks `waker` as the acceptor.
    pub fn poll_inbound_streams(&mut self, waker: Waker) -> (r: Option<u32>)
        ensures
            final(self).wf(),
            r is Some <==> old(self)@.inbound.len() > 0,
            match r {
                Some(id) => {
                    &&& id == old(self)@.inbound.last()
                    &&& final(self)@.streams.contains_key(id)
                    &&& !final(self)@.inbound.contains(id)
                    &&& final(self)@ == (SessionView {
                        inbound: old(self)@.inbound.drop_last(),
                        ..old(self)@
                    })
                },
                None => final(self)@ == (SessionView { inbound_waker: Some(waker), ..old(self)@ }),
            },
    {
        proof {
            use_type_invariant(&*self);
        }
        let (streams, mut inbound) = self.take_routing();
        let popped = inbound.pop();
        proof {
            assert forall|i: int| 0 <= i < inbound@.len() implies stream_views(
                streams@,
            ).contains_key(#[trigger] inbound@[i]) by {
                assert(old(self)@.streams.contains_key(old(self)@.inbound[i]));
            }
            if popped is Some {
                assert(inbound@ =~= old(self)@.inbound.drop_last());
                assert(old(self)@.streams.contains_key(
                    old(self)@.inbound[old(self)@.inbound.len() - 1],
                ));
            }
        }
        self.put_routing(streams, inbound);
        match popped {
            Some(id) => Some(id),
            None => {
                self.inbound_waker = Some(waker);
                None
            },
        }
    }

    /// Handles a frame read from the connection. A stream-opening request is
    /// answered: the reply, the same frame flagged `Ack`, is returned as wire bytes
    /// to write back, and nothing else changes. Any other frame is delivered to its
    /// stream.
    pub fn handle_inbound(&mut self, frame: Frame) -> (reply: Option<Vec<u8>>)
        ensures
            final(self).wf(),
            is_handshake(frame.header@) ==> {
                &&& reply matches Some(bytes) && bytes@ == encode_header(
                    acknowledgement_of(frame.header@),
                ) + frame.data@
            },
            !is_handshake(frame.header@) ==> reply is None,
            final(self)@ == receive(old(self)@, frame.header@, frame.wire()),
    {
        proof {
            use_type_invariant(&*self);
        }
        if frame.header().len() == 0 && frame.is_syn() {
            let mut frame = frame;
            frame.set_flag(Flag::Ack);
            Some(frame.as_bytes())
        } else {
            self.inbound_write(frame);
            None
        }
    }

    /// Whether a stream is filed under `id`.
    pub fn contains_stream(&self, id: u32) -> (b: bool)
        ensures
            b == self@.streams.contains_key(id),
    {
        proof {
            assert(self@.streams.dom() =~= self.streams@.dom());
        }
        self.streams.contains_key(&id)
    }

    /// The number of bytes received and not yet read on the stream `id`, if it is known.
    pub fn stream_buffered(&self, id: u32) -> (r: Option<usize>)
        ensures
            r is Some <==> self@.streams.contains_key(id),
            r matches Some(n) ==> n == self@.streams[id].buffer.len(),
    {
        proof {
            assert(self@.streams.dom() =~= self.streams@.dom());
        }
        match self.streams.get(&id) {
            Some(s) => Some(s.buffered()),
            None => None,
        }
    }

    /// One read attempt on the stream `id`, as `Stream::poll_read`.
    pub fn stream_poll_read(&mut self, id: u32, buf_len: usize, waker: Waker) -> (r: Option<
        (Vec<u8>, usize),
    >)
        requires
            old(self)@.streams.contains_key(id),
            old(self)@.streams[id].buffer.len() == 0 || old(self)@.streams[id].buffer.len()
                >= buf_len,
        ensures
            final(self).wf(),
            r is Some <==> old(self)@.streams[id].buffer.len() > 0,
            r matches Some((bytes, n)) ==> bytes@ == old(self)@.streams[id].buffer.take(
                buf_len as int,
            ) && n == old(self)@.streams[id].buffer.len(),
            final(self)@ == (SessionView {
                streams: old(self)@.streams.insert(
                    id,
                    after_read(old(self)@.streams[id], buf_len as nat, waker),
                ),
                ..old(self)@
            }),
    {
        let ghost pre = old(self)@;
        let (mut stream, streams, inbound) = self.take_stream(id);
        let r = stream.poll_read(buf_len, waker);
        self.put_stream(id, stream, streams, inbound, Ghost(pre));
        r
    }

    /// Whether a frame read in phase `phase` can be attempted on the stream `id`,
    /// if it is known: see `frame_readable`.
    pub fn stream_frame_readable(&self, id: u32, phase: ReadPhase) -> (r: Option<bool>)
        ensures
            r is Some <==> self@.streams.contains_key(id),
            r matches Some(b) ==> b == frame_readable(self@.streams[id].buffer, phase_view(phase)),
    {
        proof {
            assert(self@.streams.dom() =~= self.streams@.dom());
        }
        match self.streams.get(&id) {
            Some(s) => Some(s.frame_readable(phase)),
            None => None,
        }
    }

    /// One attempt to read a whole frame from the stream `id`, as `Stream::read_frame`.
    pub fn stream_read_frame(&mut self, id: u32, phase: ReadPhase, waker: Waker) -> (r: ReadStep)
        requires
            old(self)@.streams.contains_key(id),
            frame_readable(old(self)@.streams[id].buffer, phase_view(phase)),
        ensures
            final(self).wf(),
            ({
                let before = old(self)@.streams[id];
                let (out, left) = read_frame_outcome(before.buffer, phase_view(phase));
                &&& match r {
                    ReadStep::Done(payload) => out == Ok::<Seq<u8>, Option<nat>>(payload@),
                    ReadStep::Pending(p) => out == Err::<Seq<u8>, Option<nat>>(phase_view(p)),
                }
                &&& final(self)@ == (SessionView {
                    streams: old(self)@.streams.insert(
                        id,
                        StreamView {
                            buffer: left,
                            reader: if out is Err {
                                Some(waker)
                            } else {
                                before.reader
                            },
                            ..before
                        },
                    ),
                    ..old(self)@
                })
            }),
    {
        let ghost pre = old(self)@;
        let (mut stream, streams, inbound) = self.take_stream(id);
        let r = stream.read_frame(phase, waker);
        self.put_stream(id, stream, streams, inbound, Ghost(pre));
        r
    }

    /// One write attempt on the stream `id`, as `Stream::poll_write`.
    pub fn stream_poll_write(&mut self, id: u32, buf: &[u8], waker: Waker) -> (r: Option<
        (MuxHeader, Vec<u8>, usize),
    >)
        requires
            old(self)@.streams.contains_key(id),
            buf@.len() + HEADER_LENGTH <= usize::MAX,
        ensures
            final(self).wf(),
            r is Some <==> old(self)@.streams[id].ready,
            r matches Some((header, data, n)) ==> header@ == crate::stream::data_header(
                id,
                buf@.len(),
            ) && data@ == buf@ && n == buf@.len() + HEADER_LENGTH,
            final(self)@ == (SessionView {
                streams: old(self)@.streams.insert(
                    id,
                    after_write(old(self)@.streams[id], waker),
                ),
                ..old(self)@
            }),
    {
        let ghost pre = old(self)@;
        let (mut stream, streams, inbound) = self.take_stream(id);
        let r = stream.poll_write(buf, waker);
        self.put_stream(id, stream, streams, inbound, Ghost(pre));
        r
    }
}

} // verus!
