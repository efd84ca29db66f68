//! Request/reply messaging over two rings.
//!
//! A request is addressed to one fleet member and carries a correlation
//! identifier that a reply must echo. A [`Lane`] declares two ring kinds for one
//! domain: one for requests, one for replies. Each ring has one writer lane per
//! member. Typed codecs and handler registration belong above this raw byte
//! protocol.

use std::marker::PhantomData;

use bytes::Bytes;
use vstd::prelude::*;

pub mod client;
pub mod laws;
pub mod wire;

use crate::buf;
use crate::clock;
use crate::error::{Error, Result};
use crate::fleet::cursor::FleetLaneCursor;
use crate::fleet::model;
use crate::fleet::model::FleetView;
use crate::fleet::Fleet;
use crate::id::NetId64;
use crate::node::NodeId;
use crate::ring::cursor;
use crate::ring::registry::FamilyView;
use crate::ring::{Frame, FrameView, RingSpec, RingTopology};
use crate::OrbitTyped;
pub use client::{Call, Client};
pub use wire::Outcome;

verus! {

/// Message class of a request frame.
pub const FRAME_KIND_REQUEST: u8 = 1;

/// Message class of a reply frame.
pub const FRAME_KIND_REPLY: u8 = 1;

/// Physical request and reply lanes of one domain.
///
/// Individual methods of a domain are identified by their name inside the
/// request payload; they do not allocate more rings. Both rings have one lane per
/// member.
pub trait Lane: Send + Sync + 'static {
    const REQUEST_RING_KIND: u8;

    const REQUEST_RING_CAPACITY: usize;

    const REQUEST_RING_PAYLOAD: usize;

    const REPLY_RING_KIND: u8;

    const REPLY_RING_CAPACITY: usize;

    const REPLY_RING_PAYLOAD: usize;
}

/// The layout of the request ring of `L`.
pub open spec fn request_spec<L: Lane>() -> RingSpec {
    RingSpec {
        capacity: L::REQUEST_RING_CAPACITY,
        payload_capacity: L::REQUEST_RING_PAYLOAD,
        topology: RingTopology::PerNode,
    }
}

/// The layout of the reply ring of `L`.
pub open spec fn reply_spec<L: Lane>() -> RingSpec {
    RingSpec {
        capacity: L::REPLY_RING_CAPACITY,
        payload_capacity: L::REPLY_RING_PAYLOAD,
        topology: RingTopology::PerNode,
    }
}

/// Marker of the request ring of a domain.
pub struct RpcRequestRecord<L> {
    lane: PhantomData<L>,
}

impl<L> Clone for RpcRequestRecord<L> {
    fn clone(&self) -> (copy: Self) {
        RpcRequestRecord { lane: PhantomData }
    }
}

impl<L: Lane> OrbitTyped for RpcRequestRecord<L> {
    const KIND: u8 = L::REQUEST_RING_KIND;

    const CAPACITY: usize = L::REQUEST_RING_CAPACITY;

    const PAYLOAD_CAPACITY: usize = L::REQUEST_RING_PAYLOAD;

    const TOPOLOGY: RingTopology = RingTopology::PerNode;
}

/// Marker of the reply ring of a domain.
pub struct RpcReplyRecord<L> {
    lane: PhantomData<L>,
}

impl<L> Clone for RpcReplyRecord<L> {
    fn clone(&self) -> (copy: Self) {
        RpcReplyRecord { lane: PhantomData }
    }
}

impl<L: Lane> OrbitTyped for RpcReplyRecord<L> {
    const KIND: u8 = L::REPLY_RING_KIND;

    const CAPACITY: usize = L::REPLY_RING_CAPACITY;

    const PAYLOAD_CAPACITY: usize = L::REPLY_RING_PAYLOAD;

    const TOPOLOGY: RingTopology = RingTopology::PerNode;
}

/// Caller-owned position in one request stream.
#[derive(Clone, Debug, PartialEq, Eq)]
pub struct RequestCursor {
    inner: FleetLaneCursor,
}

impl View for RequestCursor {
    type V = Seq<u64>;

    closed spec fn view(&self) -> Seq<u64> {
        self.inner@
    }
}

/// Caller-owned position in one reply stream.
#[derive(Clone, Debug, PartialEq, Eq)]
pub struct ReplyCursor {
    inner: FleetLaneCursor,
}

impl View for ReplyCursor {
    type V = Seq<u64>;

    closed spec fn view(&self) -> Seq<u64> {
        self.inner@
    }
}

/// One decoded request.
#[derive(Clone, Debug, PartialEq, Eq)]
pub struct Incoming {
    /// Correlation identifier minted by the write of the request.
    pub id: NetId64,
    pub from: NodeId,
    pub target: NodeId,
    pub method: String,
    pub payload: Bytes,
    pub timestamp_ms: u64,
}

/// A request that arrived, as values.
#[verifier::ext_equal]
pub struct IncomingView {
    pub id: NetId64,
    pub from: u16,
    pub target: u16,
    pub method: Seq<char>,
    pub payload: Seq<u8>,
    pub timestamp_ms: u64,
}

impl View for Incoming {
    type V = IncomingView;

    open spec fn view(&self) -> IncomingView {
        IncomingView {
            id: self.id,
            from: self.from.spec_get(),
            target: self.target.spec_get(),
            method: self.method@,
            payload: buf::bytes_contents(self.payload),
            timestamp_ms: self.timestamp_ms,
        }
    }
}

/// One decoded reply.
#[derive(Clone, Debug, PartialEq, Eq)]
pub struct Response {
    pub id: NetId64,
    pub request_id: NetId64,
    pub from: NodeId,
    pub outcome: Outcome,
    pub payload: Bytes,
    pub timestamp_ms: u64,
}

/// A reply that arrived, as values.
#[verifier::ext_equal]
pub struct ResponseView {
    pub id: NetId64,
    pub request_id: NetId64,
    pub from: u16,
    pub outcome: Outcome,
    pub payload: Seq<u8>,
    pub timestamp_ms: u64,
}

impl View for Response {
    type V = ResponseView;

    open spec fn view(&self) -> ResponseView {
        ResponseView {
            id: self.id,
            request_id: self.request_id,
            from: self.from.spec_get(),
            outcome: self.outcome,
            payload: buf::bytes_contents(self.payload),
            timestamp_ms: self.timestamp_ms,
        }
    }
}

impl Response {
    /// Another handle on the same reply.
    pub fn copy(&self) -> (copy: Response)
        ensures
            copy@ == self@,
    {
        Response {
            id: self.id,
            request_id: self.request_id,
            from: self.from,
            outcome: self.outcome,
            payload: self.payload.clone(),
            timestamp_ms: self.timestamp_ms,
        }
    }
}

/// Result of advancing a request cursor.
#[derive(Clone, Debug, PartialEq, Eq)]
pub struct RequestPoll {
    pub requests: Vec<Incoming>,
    pub lagged: u64,
}

impl RequestPoll {
    pub fn is_empty(&self) -> (empty: bool)
        ensures
            empty == (self.requests@.len() == 0 && self.lagged == 0),
    {
        self.requests.len() == 0 && self.lagged == 0
    }
}

/// Result of advancing a reply cursor.
#[derive(Clone, Debug, PartialEq, Eq)]
pub struct ReplyPoll {
    pub replies: Vec<Response>,
    pub lagged: u64,
}

impl ReplyPoll {
    pub fn is_empty(&self) -> (empty: bool)
        ensures
            empty == (self.replies@.len() == 0 && self.lagged == 0),
    {
        self.replies.len() == 0 && self.lagged == 0
    }
}

/// The values of a list of requests.
pub open spec fn incoming_views(requests: Seq<Incoming>) -> Seq<IncomingView> {
    requests.map_values(|request: Incoming| request@)
}

/// The values of a list of replies.
pub open spec fn response_views(replies: Seq<Response>) -> Seq<ResponseView> {
    replies.map_values(|reply: Response| reply@)
}

/// The request that a frame carries.
pub open spec fn frame_request(frame: FrameView) -> Option<IncomingView> {
    if frame.kind != FRAME_KIND_REQUEST {
        None
    } else {
        match wire::request_of(frame.payload) {
            Some(request) => Some(
                IncomingView {
                    id: frame.id,
                    from: frame.id.spec_node(),
                    target: request.target,
                    method: request.method,
                    payload: request.payload,
                    timestamp_ms: frame.ver,
                },
            ),
            None => None,
        }
    }
}

/// The reply to a request of ring kind `request_kind` that a frame carries.
pub open spec fn frame_reply(frame: FrameView, request_kind: u8) -> Option<ResponseView> {
    if frame.kind != FRAME_KIND_REPLY {
        None
    } else {
        match wire::reply_of(frame.payload, request_kind) {
            Some(reply) => Some(
                ResponseView {
                    id: frame.id,
                    request_id: reply.request_id,
                    from: frame.id.spec_node(),
                    outcome: reply.outcome,
                    payload: reply.payload,
                    timestamp_ms: frame.ver,
                },
            ),
            None => None,
        }
    }
}

/// The requests among `frames` that are addressed to `node`, in order.
pub open spec fn requests_for(frames: Seq<FrameView>, node: u16) -> Seq<IncomingView>
    decreases frames.len(),
{
    if frames.len() == 0 {
        seq![]
    } else {
        let before = requests_for(frames.drop_last(), node);
        match frame_request(frames.last()) {
            Some(request) => if request.target == node {
                before.push(request)
            } else {
                before
            },
            None => before,
        }
    }
}

/// The replies among `frames`, in order.
pub open spec fn replies_in(frames: Seq<FrameView>, request_kind: u8) -> Seq<ResponseView>
    decreases frames.len(),
{
    if frames.len() == 0 {
        seq![]
    } else {
        let before = replies_in(frames.drop_last(), request_kind);
        match frame_reply(frames.last(), request_kind) {
            Some(reply) => before.push(reply),
            None => before,
        }
    }
}

/// `lost` plus the frames among `frames` that carry no request, saturating.
pub open spec fn requests_lagged(lost: u64, frames: Seq<FrameView>) -> u64
    decreases frames.len(),
{
    if frames.len() == 0 {
        lost
    } else {
        let before = requests_lagged(lost, frames.drop_last());
        if frame_request(frames.last()) is None {
            before.saturating_add(1)
        } else {
            before
        }
    }
}

/// `lost` plus the frames among `frames` that carry no reply, saturating.
pub open spec fn replies_lagged(lost: u64, frames: Seq<FrameView>, request_kind: u8) -> u64
    decreases frames.len(),
{
    if frames.len() == 0 {
        lost
    } else {
        let before = replies_lagged(lost, frames.drop_last(), request_kind);
        if frame_reply(frames.last(), request_kind) is None {
            before.saturating_add(1)
        } else {
            before
        }
    }
}

/// Decode polled frames and keep the requests addressed to `node_id`. Frames that
/// carry no request count as lag.
pub fn collect_requests(frames: &Vec<Frame>, lost: u64, node_id: NodeId) -> (poll: RequestPoll)
    ensures
        incoming_views(poll.requests@) == requests_for(
            cursor::poll::frame_views(frames@),
            node_id.spec_get(),
        ),
        poll.lagged == requests_lagged(lost, cursor::poll::frame_views(frames@)),
{
    let ghost views = cursor::poll::frame_views(frames@);
    let mut lagged: u64 = lost;
    let mut requests: Vec<Incoming> = Vec::new();
    let mut i: usize = 0;
    proof {
        assert(incoming_views(requests@) =~= seq![]);
        assert(views.take(0) =~= seq![]);
    }
    while i < frames.len()
        invariant
            i <= frames@.len(),
            views == cursor::poll::frame_views(frames@),
            incoming_views(requests@) == requests_for(views.take(i as int), node_id.spec_get()),
            lagged == requests_lagged(lost, views.take(i as int)),
        decreases frames@.len() - i,
    {
        let frame = &frames[i];
        let ghost before = requests@;
        proof {
            assert(views.take(i + 1).drop_last() =~= views.take(i as int));
            assert(views.take(i + 1).last() == frame@);
        }
        i = i + 1;
        if frame.kind != FRAME_KIND_REQUEST {
            lagged = lagged.saturating_add(1);
        } else {
            match wire::decode_request(&frame.payload) {
                Some(decoded) => {
                    if decoded.target.get() == node_id.get() {
                        requests.push(
                            Incoming {
                                id: frame.id,
                                from: NodeId::new(frame.id.node()),
                                target: decoded.target,
                                method: decoded.method,
                                payload: decoded.payload,
                                timestamp_ms: frame.ver,
                            },
                        );
                        proof {
                            assert(incoming_views(requests@) =~= incoming_views(before).push(
                                requests@.last()@,
                            ));
                        }
                    }
                },
                None => {
                    lagged = lagged.saturating_add(1);
                },
            }
        }
    }
    proof {
        assert(views.take(i as int) =~= views);
    }
    RequestPoll { requests, lagged }
}

/// Decode polled frames into the replies to requests of `L`. Frames that carry
/// none count as lag.
pub fn collect_replies<L: Lane>(frames: &Vec<Frame>, lost: u64) -> (poll: ReplyPoll)
    ensures
        response_views(poll.replies@) == replies_in(
            cursor::poll::frame_views(frames@),
            L::REQUEST_RING_KIND,
        ),
        poll.lagged == replies_lagged(
            lost,
            cursor::poll::frame_views(frames@),
            L::REQUEST_RING_KIND,
        ),
{
    let ghost views = cursor::poll::frame_views(frames@);
    let ghost kind = L::REQUEST_RING_KIND;
    let mut lagged: u64 = lost;
    let mut replies: Vec<Response> = Vec::new();
    let mut i: usize = 0;
    proof {
        assert(response_views(replies@) =~= seq![]);
        assert(views.take(0) =~= seq![]);
    }
    while i < frames.len()
        invariant
            i <= frames@.len(),
            kind == L::REQUEST_RING_KIND,
            views == cursor::poll::frame_views(frames@),
            response_views(replies@) == replies_in(views.take(i as int), kind),
            lagged == replies_lagged(lost, views.take(i as int), kind),
        decreases frames@.len() - i,
    {
        let frame = &frames[i];
        let ghost before = replies@;
        proof {
            assert(views.take(i + 1).drop_last() =~= views.take(i as int));
            assert(views.take(i + 1).last() == frame@);
        }
        i = i + 1;
        if frame.kind != FRAME_KIND_REPLY {
            lagged = lagged.saturating_add(1);
        } else {
            match wire::decode_reply::<L>(&frame.payload) {
                Some(decoded) => {
                    replies.push(
                        Response {
                            id: frame.id,
                            request_id: decoded.request_id,
                            from: NodeId::new(frame.id.node()),
                            outcome: decoded.outcome,
                            payload: decoded.payload,
                            timestamp_ms: frame.ver,
                        },
                    );
                    proof {
                        assert(response_views(replies@) =~= response_views(before).push(
                            replies@.last()@,
                        ));
                    }
                },
                None => {
                    lagged = lagged.saturating_add(1);
                },
            }
        }
    }
    proof {
        assert(views.take(i as int) =~= views);
    }
    ReplyPoll { replies, lagged }
}

/// What the publication of a request answers and leaves behind.
pub open spec fn request_answers<L: Lane>(
    before: FleetView,
    after: FleetView,
    result: Result<NetId64>,
    target: u16,
    method: Seq<char>,
    payload: Seq<u8>,
    timestamp_ms: u64,
) -> bool {
    let name = vstd::utf8::encode_utf8(method);
    let spec = request_spec::<L>();
    if wire::request_fits(name, payload, L::REQUEST_RING_PAYLOAD) {
        &&& result == Ok::<NetId64, Error>(
            NetId64::minted(
                L::REQUEST_RING_KIND,
                before.node,
                before.home(L::REQUEST_RING_KIND, spec).head(),
            ),
        )
        &&& after == before.published(
            L::REQUEST_RING_KIND,
            spec,
            FRAME_KIND_REQUEST,
            timestamp_ms,
            wire::request_bytes(target, name, payload),
        )
    } else {
        &&& result is Err
        &&& wire::is_frame_error(
            result->Err_0,
            "request"@,
            name.len(),
            payload.len(),
            L::REQUEST_RING_PAYLOAD,
        )
        &&& after == before
    }
}

/// What the publication of a reply answers and leaves behind.
pub open spec fn reply_answers<L: Lane>(
    before: FleetView,
    after: FleetView,
    result: Result<NetId64>,
    request_id: NetId64,
    outcome: Outcome,
    payload: Seq<u8>,
    timestamp_ms: u64,
) -> bool {
    let spec = reply_spec::<L>();
    if wire::reply_fits(payload, L::REPLY_RING_PAYLOAD) {
        &&& result == Ok::<NetId64, Error>(
            NetId64::minted(
                L::REPLY_RING_KIND,
                before.node,
                before.home(L::REPLY_RING_KIND, spec).head(),
            ),
        )
        &&& after == before.published(
            L::REPLY_RING_KIND,
            spec,
            FRAME_KIND_REPLY,
            timestamp_ms,
            wire::reply_bytes(request_id, outcome, payload),
        )
    } else {
        &&& result is Err
        &&& wire::is_frame_error(
            result->Err_0,
            "reply"@,
            0,
            payload.len(),
            L::REPLY_RING_PAYLOAD,
        )
        &&& after == before
    }
}

/// The fleet after both rings of a domain were cleared.
pub open spec fn rings_reset<L: Lane>(fleet: FleetView) -> FleetView {
    fleet.with_family(
        L::REQUEST_RING_KIND,
        FamilyView::fresh(L::REQUEST_RING_KIND, request_spec::<L>(), fleet.size),
    ).with_family(
        L::REPLY_RING_KIND,
        FamilyView::fresh(L::REPLY_RING_KIND, reply_spec::<L>(), fleet.size),
    )
}

/// Raw transport of one domain. It carries no state of its own: the rings belong
/// to the fleet that each operation is given.
pub struct Endpoint<L: Lane> {
    lane: PhantomData<L>,
}

impl<L: Lane> Clone for Endpoint<L> {
    fn clone(&self) -> (copy: Self) {
        Endpoint { lane: PhantomData }
    }
}

impl<L: Lane> Endpoint<L> {
    /// The transport of `L`. Requests and replies need rings of their own.
    pub fn new() -> (endpoint: Endpoint<L>)
        requires
            L::REQUEST_RING_KIND != L::REPLY_RING_KIND,
    {
        Endpoint { lane: PhantomData }
    }

    /// Whether a fleet can take a request and a reply of this domain.
    pub fn is_ready(&self, fleet: &Fleet) -> (yes: bool)
        requires
            fleet.wf(),
        ensures
            yes == (fleet@.has_room(L::REQUEST_RING_KIND, request_spec::<L>(), 1) && fleet@.has_room(
                L::REPLY_RING_KIND,
                reply_spec::<L>(),
                1,
            )),
    {
        fleet.has_room::<RpcRequestRecord<L>>(1) && fleet.has_room::<RpcReplyRecord<L>>(1)
    }

    /// The member on whose behalf requests are made.
    pub fn node_id(&self, fleet: &Fleet) -> (node_id: NodeId)
        ensures
            node_id.spec_get() == fleet@.node,
    {
        fleet.node_id()
    }

    /// Start after every request currently retained.
    pub fn request_cursor_at_head(&self, fleet: &Fleet) -> (cursor: RequestCursor)
        requires
            fleet.wf(),
            fleet@.compatible(L::REQUEST_RING_KIND, request_spec::<L>()),
        ensures
            cursor@ == lane_heads(fleet@, L::REQUEST_RING_KIND, request_spec::<L>()),
    {
        RequestCursor { inner: fleet.lane_cursor_at_head::<RpcRequestRecord<L>>() }
    }

    /// Replay the request history still retained.
    pub fn request_cursor_from_start(&self, fleet: &Fleet) -> (cursor: RequestCursor)
        requires
            fleet.wf(),
            fleet@.compatible(L::REQUEST_RING_KIND, request_spec::<L>()),
        ensures
            cursor@ == Seq::new(
                fleet@.family(L::REQUEST_RING_KIND, request_spec::<L>()).lanes.len(),
                |i: int| 0u64,
            ),
    {
        RequestCursor { inner: fleet.lane_cursor_from_start::<RpcRequestRecord<L>>() }
    }

    /// Start after every reply currently retained.
    pub fn reply_cursor_at_head(&self, fleet: &Fleet) -> (cursor: ReplyCursor)
        requires
            fleet.wf(),
            fleet@.compatible(L::REPLY_RING_KIND, reply_spec::<L>()),
        ensures
            cursor@ == lane_heads(fleet@, L::REPLY_RING_KIND, reply_spec::<L>()),
    {
        ReplyCursor { inner: fleet.lane_cursor_at_head::<RpcReplyRecord<L>>() }
    }

    /// Replay the reply history still retained.
    pub fn reply_cursor_from_start(&self, fleet: &Fleet) -> (cursor: ReplyCursor)
        requires
            fleet.wf(),
            fleet@.compatible(L::REPLY_RING_KIND, reply_spec::<L>()),
        ensures
            cursor@ == Seq::new(
                fleet@.family(L::REPLY_RING_KIND, reply_spec::<L>()).lanes.len(),
                |i: int| 0u64,
            ),
    {
        ReplyCursor { inner: fleet.lane_cursor_from_start::<RpcReplyRecord<L>>() }
    }

    /// Clear both rings during owner-controlled boot, while no member publishes.
    pub fn reset_rings(&self, fleet: &mut Fleet) -> (done: Result<()>)
        requires
            old(fleet).wf(),
            old(fleet)@.compatible(L::REQUEST_RING_KIND, request_spec::<L>()),
            old(fleet)@.compatible(L::REPLY_RING_KIND, reply_spec::<L>()),
            L::REQUEST_RING_KIND != L::REPLY_RING_KIND,
        ensures
            final(fleet).wf(),
            done is Ok,
            final(fleet)@ == rings_reset::<L>(old(fleet)@),
    {
        fleet.reset_ring::<RpcRequestRecord<L>>();
        fleet.reset_ring::<RpcReplyRecord<L>>();
        Ok(())
    }

    /// Publish one request addressed to a fleet member, stamped when the wall
    /// clock is read.
    pub fn publish_request(
        &self,
        fleet: &mut Fleet,
        target: NodeId,
        method: &str,
        payload: &[u8],
    ) -> (result: Result<NetId64>)
        requires
            old(fleet).wf(),
            wire::request_fits(
                vstd::utf8::encode_utf8(method@),
                payload@,
                L::REQUEST_RING_PAYLOAD,
            ) ==> old(fleet)@.has_room(L::REQUEST_RING_KIND, request_spec::<L>(), 1),
        ensures
            final(fleet).wf(),
            exists|timestamp_ms: u64| #[trigger]
                request_answers::<L>(
                    old(fleet)@,
                    final(fleet)@,
                    result,
                    target.spec_get(),
                    method@,
                    payload@,
                    timestamp_ms,
                ),
    {
        let timestamp_ms: u64 = clock::now_ms();
        self.publish_request_at(fleet, target, method, payload, timestamp_ms)
    }

    /// [`Endpoint::publish_request`] with an explicit clock.
    pub fn publish_request_at(
        &self,
        fleet: &mut Fleet,
        target: NodeId,
        method: &str,
        payload: &[u8],
        timestamp_ms: u64,
    ) -> (result: Result<NetId64>)
        requires
            old(fleet).wf(),
            wire::request_fits(
                vstd::utf8::encode_utf8(method@),
                payload@,
                L::REQUEST_RING_PAYLOAD,
            ) ==> old(fleet)@.has_room(L::REQUEST_RING_KIND, request_spec::<L>(), 1),
        ensures
            final(fleet).wf(),
            request_answers::<L>(
                old(fleet)@,
                final(fleet)@,
                result,
                target.spec_get(),
                method@,
                payload@,
                timestamp_ms,
            ),
    {
        match wire::encode_request::<L>(target, method.as_bytes(), payload) {
            Ok(frame) => Ok(
                fleet.publish::<RpcRequestRecord<L>>(FRAME_KIND_REQUEST, timestamp_ms, frame),
            ),
            Err(error) => Err(error),
        }
    }

    /// Publish a terminal reply for `request`.
    pub fn reply(&self, fleet: &mut Fleet, request: &Incoming, outcome: Outcome, payload: &[u8]) -> (result:
        Result<NetId64>)
        requires
            old(fleet).wf(),
            wire::reply_fits(payload@, L::REPLY_RING_PAYLOAD) ==> old(fleet)@.has_room(
                L::REPLY_RING_KIND,
                reply_spec::<L>(),
                1,
            ),
        ensures
            final(fleet).wf(),
            exists|timestamp_ms: u64| #[trigger]
                reply_answers::<L>(
                    old(fleet)@,
                    final(fleet)@,
                    result,
                    request.id,
                    outcome,
                    payload@,
                    timestamp_ms,
                ),
    {
        self.publish_reply(fleet, request.id, outcome, payload)
    }

    /// Publish a terminal reply for a known correlation identifier, stamped when
    /// the wall clock is read.
    pub fn publish_reply(
        &self,
        fleet: &mut Fleet,
        request_id: NetId64,
        outcome: Outcome,
        payload: &[u8],
    ) -> (result: Result<NetId64>)
        requires
            old(fleet).wf(),
            wire::reply_fits(payload@, L::REPLY_RING_PAYLOAD) ==> old(fleet)@.has_room(
                L::REPLY_RING_KIND,
                reply_spec::<L>(),
                1,
            ),
        ensures
            final(fleet).wf(),
            exists|timestamp_ms: u64| #[trigger]
                reply_answers::<L>(
                    old(fleet)@,
                    final(fleet)@,
                    result,
                    request_id,
                    outcome,
                    payload@,
                    timestamp_ms,
                ),
    {
        let timestamp_ms: u64 = clock::now_ms();
        self.publish_reply_at(fleet, request_id, outcome, payload, timestamp_ms)
    }

    /// [`Endpoint::publish_reply`] with an explicit clock.
    pub fn publish_reply_at(
        &self,
        fleet: &mut Fleet,
        request_id: NetId64,
        outcome: Outcome,
        payload: &[u8],
        timestamp_ms: u64,
    ) -> (result: Result<NetId64>)
        requires
            old(fleet).wf(),
            wire::reply_fits(payload@, L::REPLY_RING_PAYLOAD) ==> old(fleet)@.has_room(
                L::REPLY_RING_KIND,
                reply_spec::<L>(),
                1,
            ),
        ensures
            final(fleet).wf(),
            reply_answers::<L>(
                old(fleet)@,
                final(fleet)@,
                result,
                request_id,
                outcome,
                payload@,
                timestamp_ms,
            ),
    {
        match wire::encode_reply::<L>(request_id, outcome, payload) {
            Ok(frame) => Ok(
                fleet.publish::<RpcReplyRecord<L>>(FRAME_KIND_REPLY, timestamp_ms, frame),
            ),
            Err(error) => Err(error),
        }
    }

    /// Poll requests addressed to this member.
    ///
    /// The cursor advances past requests for other members as well; every member
    /// must therefore own an independent request cursor.
    pub fn poll_requests(&self, fleet: &Fleet, cursor: &mut RequestCursor) -> (poll: RequestPoll)
        requires
            fleet.wf(),
            fleet@.compatible(L::REQUEST_RING_KIND, request_spec::<L>()),
            old(cursor)@.len() == fleet@.family(
                L::REQUEST_RING_KIND,
                request_spec::<L>(),
            ).lanes.len(),
        ensures
            ({
                let lanes = fleet@.family(L::REQUEST_RING_KIND, request_spec::<L>()).lanes;
                let frames = model::lane_frames(lanes, old(cursor)@);
                let lost = model::lane_loss(lanes, old(cursor)@).spec_total();
                &&& incoming_views(poll.requests@) == requests_for(frames, fleet@.node)
                &&& poll.lagged == requests_lagged(lost, frames)
                &&& final(cursor)@ == model::lane_next(lanes, old(cursor)@)
            }),
    {
        let polled = fleet.poll_lanes::<RpcRequestRecord<L>>(&mut cursor.inner);
        collect_requests(&polled.frames, polled.loss.total(), fleet.node_id())
    }

    /// Poll every decoded reply across the members' reply lanes.
    pub fn poll_replies(&self, fleet: &Fleet, cursor: &mut ReplyCursor) -> (poll: ReplyPoll)
        requires
            fleet.wf(),
            fleet@.compatible(L::REPLY_RING_KIND, reply_spec::<L>()),
            old(cursor)@.len() == fleet@.family(L::REPLY_RING_KIND, reply_spec::<L>()).lanes.len(),
        ensures
            ({
                let lanes = fleet@.family(L::REPLY_RING_KIND, reply_spec::<L>()).lanes;
                let frames = model::lane_frames(lanes, old(cursor)@);
                let lost = model::lane_loss(lanes, old(cursor)@).spec_total();
                &&& response_views(poll.replies@) == replies_in(frames, L::REQUEST_RING_KIND)
                &&& poll.lagged == replies_lagged(lost, frames, L::REQUEST_RING_KIND)
                &&& final(cursor)@ == model::lane_next(lanes, old(cursor)@)
            }),
    {
        let polled = fleet.poll_lanes::<RpcReplyRecord<L>>(&mut cursor.inner);
        collect_replies::<L>(&polled.frames, polled.loss.total())
    }
}

/// The heads of all lanes of a kind.
pub open spec fn lane_heads(fleet: FleetView, kind: u8, spec: RingSpec) -> Seq<u64> {
    Seq::new(
        fleet.family(kind, spec).lanes.len(),
        |i: int| fleet.family(kind, spec).lanes[i].head() as u64,
    )
}

/// A list of requests is shown request by request, in the same order.
pub proof fn law_requests_are_shown_in_place(requests: Seq<Incoming>, i: int)
    ensures
        incoming_views(requests).len() == requests.len(),
        0 <= i < requests.len() ==> incoming_views(requests)[i] == requests[i]@,
{
}

/// A list of replies is shown reply by reply, in the same order.
pub proof fn law_replies_are_shown_in_place(replies: Seq<Response>, i: int)
    ensures
        response_views(replies).len() == replies.len(),
        0 <= i < replies.len() ==> response_views(replies)[i] == replies[i]@,
{
}

} // verus!
