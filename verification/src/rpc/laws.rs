//! What holds of every exchange of requests and replies.

use vstd::prelude::*;

use super::client;
use super::client::ClientView;
use super::wire;
use super::{IncomingView, Lane, Outcome, ResponseView, FRAME_KIND_REPLY, FRAME_KIND_REQUEST};
use crate::error::{Error, Result};
use crate::fleet::laws;
use crate::fleet::model;
use crate::fleet::model::FleetView;
use crate::id;
use crate::id::NetId64;
use crate::ring::FrameView;

verus! {

/// A request that fits is published under an identifier of its member, and reaches the
/// member it is addressed to, once, with everything that was sent and without lag; no
/// other member receives it.
pub proof fn law_a_request_reaches_its_target<L: Lane>(
    before: FleetView,
    after: FleetView,
    result: Result<NetId64>,
    target: u16,
    method: Seq<char>,
    payload: Seq<u8>,
    timestamp_ms: u64,
    node: u16,
)
    requires
        before.consistent(),
        before.has_room(L::REQUEST_RING_KIND, super::request_spec::<L>(), 1),
        forall|i: int|
            0 <= i < before.family(L::REQUEST_RING_KIND, super::request_spec::<L>()).lanes.len()
                ==> (#[trigger] before.family(
                L::REQUEST_RING_KIND,
                super::request_spec::<L>(),
            ).lanes[i]).head() < id::COUNTER_SPAN,
        wire::request_fits(vstd::utf8::encode_utf8(method), payload, L::REQUEST_RING_PAYLOAD),
        super::request_answers::<L>(
            before,
            after,
            result,
            target,
            method,
            payload,
            timestamp_ms,
        ),
    ensures
        result is Ok,
        result->Ok_0.spec_kind() == L::REQUEST_RING_KIND,
        result->Ok_0.spec_node() == before.node,
        ({
            let lanes = after.family(L::REQUEST_RING_KIND, super::request_spec::<L>()).lanes;
            let next = super::lane_heads(before, L::REQUEST_RING_KIND, super::request_spec::<L>());
            let frames = model::lane_frames(lanes, next);
            &&& super::requests_for(frames, node) == (if node == target {
                seq![
                    IncomingView {
                        id: result->Ok_0,
                        from: before.node,
                        target,
                        method,
                        payload,
                        timestamp_ms,
                    },
                ]
            } else {
                seq![]
            })
            &&& super::requests_lagged(model::lane_loss(lanes, next).spec_total(), frames) == 0
        }),
{
    let request_id = result->Ok_0;
    let kind = L::REQUEST_RING_KIND;
    let spec = super::request_spec::<L>();
    let name = vstd::utf8::encode_utf8(method);
    let data = wire::request_bytes(target, name, payload);
    wire::law_requests_round_trip(target, method, payload, L::REQUEST_RING_PAYLOAD);
    lemma_request_len(target, name, payload);
    laws::law_subscribers_receive_each_publish(
        before,
        kind,
        spec,
        FRAME_KIND_REQUEST,
        timestamp_ms,
        data,
    );
    model::lemma_family_consistent(before, kind, spec);
    id::lemma_minted_fields(kind, before.node, before.home(kind, spec).head());
    let frame = before.next_frame(kind, spec, FRAME_KIND_REQUEST, timestamp_ms, data);
    let frames = seq![frame];
    assert(frames.drop_last() =~= Seq::<FrameView>::empty());
    assert(frames.last() == frame);
    reveal_with_fuel(super::requests_for, 2);
    reveal_with_fuel(super::requests_lagged, 2);
    assert(super::requests_for(frames, node) =~= (if node == target {
        seq![
            IncomingView {
                id: request_id,
                from: before.node,
                target,
                method,
                payload,
                timestamp_ms,
            },
        ]
    } else {
        seq![]
    }));
}

proof fn lemma_request_len(target: u16, method: Seq<u8>, payload: Seq<u8>)
    requires
        method.len() <= u16::MAX,
        payload.len() <= u32::MAX,
    ensures
        wire::request_bytes(target, method, payload).len() == wire::REQUEST_HEADER_LEN
            + method.len() + payload.len(),
{
    crate::buf::lemma_byte_spans();
    crate::buf::lemma_le_round_trip(target as nat, 2);
    crate::buf::lemma_le_round_trip(method.len(), 2);
    crate::buf::lemma_le_round_trip(payload.len(), 4);
}

proof fn lemma_reply_len(request_id: NetId64, outcome: Outcome, payload: Seq<u8>)
    requires
        payload.len() <= u32::MAX,
    ensures
        wire::reply_bytes(request_id, outcome, payload).len() == wire::REPLY_HEADER_LEN
            + payload.len(),
{
    crate::buf::lemma_byte_spans();
    crate::buf::lemma_le_round_trip(request_id.spec_raw() as nat, 8);
    crate::buf::lemma_le_round_trip(payload.len(), 4);
}

/// A reply to a request of the domain that fits is published under an identifier of
/// its member, and arrives, once, with everything that was sent and without lag, under
/// the identifier of the request it answers.
pub proof fn law_a_reply_arrives<L: Lane>(
    before: FleetView,
    after: FleetView,
    result: Result<NetId64>,
    request_id: NetId64,
    outcome: Outcome,
    payload: Seq<u8>,
    timestamp_ms: u64,
)
    requires
        before.consistent(),
        before.has_room(L::REPLY_RING_KIND, super::reply_spec::<L>(), 1),
        forall|i: int|
            0 <= i < before.family(L::REPLY_RING_KIND, super::reply_spec::<L>()).lanes.len() ==> (
            #[trigger] before.family(L::REPLY_RING_KIND, super::reply_spec::<L>()).lanes[i]).head()
                < id::COUNTER_SPAN,
        request_id.spec_kind() == L::REQUEST_RING_KIND,
        wire::reply_fits(payload, L::REPLY_RING_PAYLOAD),
        super::reply_answers::<L>(
            before,
            after,
            result,
            request_id,
            outcome,
            payload,
            timestamp_ms,
        ),
    ensures
        result is Ok,
        result->Ok_0.spec_kind() == L::REPLY_RING_KIND,
        result->Ok_0.spec_node() == before.node,
        ({
            let lanes = after.family(L::REPLY_RING_KIND, super::reply_spec::<L>()).lanes;
            let next = super::lane_heads(before, L::REPLY_RING_KIND, super::reply_spec::<L>());
            let frames = model::lane_frames(lanes, next);
            let lost = model::lane_loss(lanes, next).spec_total();
            &&& super::replies_in(frames, L::REQUEST_RING_KIND) == seq![
                ResponseView {
                    id: result->Ok_0,
                    request_id,
                    from: before.node,
                    outcome,
                    payload,
                    timestamp_ms,
                },
            ]
            &&& super::replies_lagged(lost, frames, L::REQUEST_RING_KIND) == 0
        }),
{
    let reply_id = result->Ok_0;
    let kind = L::REPLY_RING_KIND;
    let spec = super::reply_spec::<L>();
    let data = wire::reply_bytes(request_id, outcome, payload);
    wire::law_replies_round_trip(
        request_id,
        outcome,
        payload,
        L::REPLY_RING_PAYLOAD,
        L::REQUEST_RING_KIND,
    );
    lemma_reply_len(request_id, outcome, payload);
    laws::law_subscribers_receive_each_publish(
        before,
        kind,
        spec,
        FRAME_KIND_REPLY,
        timestamp_ms,
        data,
    );
    model::lemma_family_consistent(before, kind, spec);
    id::lemma_minted_fields(kind, before.node, before.home(kind, spec).head());
    let frame = before.next_frame(kind, spec, FRAME_KIND_REPLY, timestamp_ms, data);
    let frames = seq![frame];
    assert(frames.drop_last() =~= Seq::<FrameView>::empty());
    assert(frames.last() == frame);
    reveal_with_fuel(super::replies_in, 2);
    reveal_with_fuel(super::replies_lagged, 2);
    assert(super::replies_in(frames, L::REQUEST_RING_KIND) =~= seq![
        ResponseView {
            id: reply_id,
            request_id,
            from: before.node,
            outcome,
            payload,
            timestamp_ms,
        },
    ]);
}

/// A member is only ever handed requests that are addressed to it.
pub proof fn law_requests_are_for_their_target(frames: Seq<FrameView>, node: u16, i: int)
    requires
        0 <= i < super::requests_for(frames, node).len(),
    ensures
        super::requests_for(frames, node)[i].target == node,
    decreases frames.len(),
{
    let before = super::requests_for(frames.drop_last(), node);
    if i < before.len() {
        law_requests_are_for_their_target(frames.drop_last(), node, i);
    }
}

/// Cleared rings are silent: after both rings were reset, polls from the start and from
/// the head hand out no request and no reply, and report no lag.
pub proof fn law_reset_rings_are_silent<L: Lane>(before: FleetView, after: FleetView, node: u16)
    requires
        L::REQUEST_RING_KIND != L::REPLY_RING_KIND,
        after == super::rings_reset::<L>(before),
    ensures
        ({
            let lanes = after.family(L::REQUEST_RING_KIND, super::request_spec::<L>()).lanes;
            let next = Seq::new(lanes.len(), |i: int| 0u64);
            let frames = model::lane_frames(lanes, next);
            let lost = model::lane_loss(lanes, next).spec_total();
            &&& super::requests_for(frames, node) == Seq::<IncomingView>::empty()
            &&& super::requests_lagged(lost, frames) == 0
            &&& next == super::lane_heads(
                after,
                L::REQUEST_RING_KIND,
                super::request_spec::<L>(),
            )
        }),
        ({
            let lanes = after.family(L::REPLY_RING_KIND, super::reply_spec::<L>()).lanes;
            let next = Seq::new(lanes.len(), |i: int| 0u64);
            let frames = model::lane_frames(lanes, next);
            let lost = model::lane_loss(lanes, next).spec_total();
            &&& super::replies_in(frames, L::REQUEST_RING_KIND) == Seq::<ResponseView>::empty()
            &&& super::replies_lagged(lost, frames, L::REQUEST_RING_KIND) == 0
            &&& next == super::lane_heads(after, L::REPLY_RING_KIND, super::reply_spec::<L>())
        }),
{
    let requests = after.family(L::REQUEST_RING_KIND, super::request_spec::<L>()).lanes;
    let replies = after.family(L::REPLY_RING_KIND, super::reply_spec::<L>()).lanes;
    laws::law_fresh_rings_give_nothing(
        L::REQUEST_RING_KIND,
        super::request_spec::<L>(),
        before.size,
        Seq::new(requests.len(), |i: int| 0u64),
    );
    laws::law_fresh_rings_give_nothing(
        L::REPLY_RING_KIND,
        super::reply_spec::<L>(),
        before.size,
        Seq::new(replies.len(), |i: int| 0u64),
    );
}

/// Requests are handed out frame by frame: of two stretches of frames, those of the
/// first come first, and none is lost or repeated; the lag adds up likewise.
pub proof fn law_requests_add_up(front: Seq<FrameView>, back: Seq<FrameView>, node: u16, lost: u64)
    ensures
        super::requests_for(Seq::<FrameView>::empty(), node) == Seq::<IncomingView>::empty(),
        super::requests_for(front + back, node) == super::requests_for(front, node)
            + super::requests_for(back, node),
        super::requests_lagged(lost, Seq::<FrameView>::empty()) == lost,
        super::requests_lagged(lost, front + back) == super::requests_lagged(
            super::requests_lagged(lost, front),
            back,
        ),
    decreases back.len(),
{
    if back.len() == 0 {
        assert(front + back =~= front);
        assert(super::requests_for(front, node) + super::requests_for(back, node)
            =~= super::requests_for(front, node));
    } else {
        assert((front + back).drop_last() =~= front + back.drop_last());
        assert((front + back).last() == back.last());
        law_requests_add_up(front, back.drop_last(), node, lost);
        assert(super::requests_for(front + back, node) =~= super::requests_for(front, node)
            + super::requests_for(back, node));
    }
}

/// Replies are handed out frame by frame: of two stretches of frames, those of the
/// first come first, and none is lost or repeated; the lag adds up likewise.
pub proof fn law_replies_add_up(
    front: Seq<FrameView>,
    back: Seq<FrameView>,
    request_kind: u8,
    lost: u64,
)
    ensures
        super::replies_in(Seq::<FrameView>::empty(), request_kind) == Seq::<ResponseView>::empty(),
        super::replies_in(front + back, request_kind) == super::replies_in(front, request_kind)
            + super::replies_in(back, request_kind),
        super::replies_lagged(lost, Seq::<FrameView>::empty(), request_kind) == lost,
        super::replies_lagged(lost, front + back, request_kind) == super::replies_lagged(
            super::replies_lagged(lost, front, request_kind),
            back,
            request_kind,
        ),
    decreases back.len(),
{
    if back.len() == 0 {
        assert(front + back =~= front);
        assert(super::replies_in(front, request_kind) + super::replies_in(back, request_kind)
            =~= super::replies_in(front, request_kind));
    } else {
        assert((front + back).drop_last() =~= front + back.drop_last());
        assert((front + back).last() == back.last());
        law_replies_add_up(front, back.drop_last(), request_kind, lost);
        assert(super::replies_in(front + back, request_kind) =~= super::replies_in(
            front,
            request_kind,
        ) + super::replies_in(back, request_kind));
    }
}

/// One frame carries one request: a frame of the request kind with the bytes of a
/// request that fits is handed to its target and to nobody else, with the identifier,
/// member and time of the frame, and is no lag. A frame of another kind, or one whose
/// bytes are no request, is handed to nobody and counts as one lost.
pub proof fn law_a_frame_carries_its_request(
    frame: FrameView,
    target: u16,
    method: Seq<char>,
    payload: Seq<u8>,
    capacity: usize,
    node: u16,
    lost: u64,
)
    requires
        wire::request_fits(vstd::utf8::encode_utf8(method), payload, capacity),
    ensures
        frame.kind == FRAME_KIND_REQUEST && frame.payload == wire::request_bytes(
            target,
            vstd::utf8::encode_utf8(method),
            payload,
        ) ==> {
            &&& super::requests_for(seq![frame], node) == (if node == target {
                seq![
                    IncomingView {
                        id: frame.id,
                        from: frame.id.spec_node(),
                        target,
                        method,
                        payload,
                        timestamp_ms: frame.ver,
                    },
                ]
            } else {
                seq![]
            })
            &&& super::requests_lagged(lost, seq![frame]) == lost
        },
        frame.kind != FRAME_KIND_REQUEST || wire::request_of(frame.payload) is None ==> {
            &&& super::requests_for(seq![frame], node) == Seq::<IncomingView>::empty()
            &&& super::requests_lagged(lost, seq![frame]) == (if lost == u64::MAX {
                lost
            } else {
                (lost + 1) as u64
            })
        },
{
    let frames = seq![frame];
    wire::law_requests_round_trip(target, method, payload, capacity);
    assert(frames.drop_last() =~= Seq::<FrameView>::empty());
    assert(frames.last() == frame);
    reveal_with_fuel(super::requests_for, 2);
    reveal_with_fuel(super::requests_lagged, 2);
    if frame.kind == FRAME_KIND_REQUEST && frame.payload == wire::request_bytes(
        target,
        vstd::utf8::encode_utf8(method),
        payload,
    ) && node == target {
        assert(super::requests_for(frames, node) =~= seq![
            IncomingView {
                id: frame.id,
                from: frame.id.spec_node(),
                target,
                method,
                payload,
                timestamp_ms: frame.ver,
            },
        ]);
    }
}

/// One frame carries one reply: a frame of the reply kind with the bytes of a reply to
/// a request of the domain is handed out whatever its outcome, with the identifier,
/// member and time of the frame, and is no lag. A frame of another kind, or one whose
/// bytes are no such reply, is not, and counts as one lost.
pub proof fn law_a_frame_carries_its_reply(
    frame: FrameView,
    request_id: NetId64,
    outcome: Outcome,
    payload: Seq<u8>,
    capacity: usize,
    lost: u64,
)
    requires
        wire::reply_fits(payload, capacity),
    ensures
        frame.kind == FRAME_KIND_REPLY && frame.payload == wire::reply_bytes(
            request_id,
            outcome,
            payload,
        ) ==> {
            &&& super::replies_in(seq![frame], request_id.spec_kind()) == seq![
                ResponseView {
                    id: frame.id,
                    request_id,
                    from: frame.id.spec_node(),
                    outcome,
                    payload,
                    timestamp_ms: frame.ver,
                },
            ]
            &&& super::replies_lagged(lost, seq![frame], request_id.spec_kind()) == lost
        },
        frame.kind != FRAME_KIND_REPLY || wire::reply_of(frame.payload, request_id.spec_kind()) is None
            ==> {
            &&& super::replies_in(seq![frame], request_id.spec_kind())
                == Seq::<ResponseView>::empty()
            &&& super::replies_lagged(lost, seq![frame], request_id.spec_kind()) == (if lost
                == u64::MAX {
                lost
            } else {
                (lost + 1) as u64
            })
        },
{
    let frames = seq![frame];
    wire::law_replies_round_trip(request_id, outcome, payload, capacity, request_id.spec_kind());
    assert(frames.drop_last() =~= Seq::<FrameView>::empty());
    assert(frames.last() == frame);
    reveal_with_fuel(super::replies_in, 2);
    reveal_with_fuel(super::replies_lagged, 2);
    if frame.kind == FRAME_KIND_REPLY && frame.payload == wire::reply_bytes(
        request_id,
        outcome,
        payload,
    ) {
        assert(super::replies_in(frames, request_id.spec_kind()) =~= seq![
            ResponseView {
                id: frame.id,
                request_id,
                from: frame.id.spec_node(),
                outcome,
                payload,
                timestamp_ms: frame.ver,
            },
        ]);
    }
}

/// A call is answered: once the member that was asked has replied, with whichever
/// outcome, a client that follows the replies and polls has exactly that reply for the
/// call. The call waits no longer, and every other call is as it was.
pub proof fn law_a_call_gets_its_answer<L: Lane>(
    client: ClientView,
    caller: u16,
    before: FleetView,
    after: FleetView,
    result: Result<NetId64>,
    request_id: NetId64,
    outcome: Outcome,
    payload: Seq<u8>,
    timestamp_ms: u64,
    other: u64,
)
    requires
        before.consistent(),
        before.has_room(L::REPLY_RING_KIND, super::reply_spec::<L>(), 1),
        forall|i: int|
            0 <= i < before.family(L::REPLY_RING_KIND, super::reply_spec::<L>()).lanes.len() ==> (
            #[trigger] before.family(L::REPLY_RING_KIND, super::reply_spec::<L>()).lanes[i]).head()
                < id::COUNTER_SPAN,
        client.cursor == super::lane_heads(before, L::REPLY_RING_KIND, super::reply_spec::<L>()),
        request_id.spec_kind() == L::REQUEST_RING_KIND,
        request_id.spec_node() == caller,
        wire::reply_fits(payload, L::REPLY_RING_PAYLOAD),
        super::reply_answers::<L>(
            before,
            after,
            result,
            request_id,
            outcome,
            payload,
            timestamp_ms,
        ),
    ensures
        ({
            let raw = request_id.spec_raw();
            let calling = client.started(raw, before.node);
            let lanes = after.family(L::REPLY_RING_KIND, super::reply_spec::<L>()).lanes;
            let frames = model::lane_frames(lanes, calling.cursor);
            let polled = (ClientView {
                cursor: model::lane_next(lanes, calling.cursor),
                ..calling
            }).settled_all(super::replies_in(frames, L::REQUEST_RING_KIND), caller);
            &&& !polled.pending.contains_key(raw)
            &&& polled.completed.contains_key(raw)
            &&& polled.completed[raw] == (ResponseView {
                id: result->Ok_0,
                request_id,
                from: before.node,
                outcome,
                payload,
                timestamp_ms,
            })
            &&& polled.cursor == super::lane_heads(
                after,
                L::REPLY_RING_KIND,
                super::reply_spec::<L>(),
            )
            &&& other != raw ==> {
                &&& polled.pending.contains_key(other) == client.pending.contains_key(other)
                &&& client.pending.contains_key(other) ==> polled.pending[other]
                    == client.pending[other]
                &&& polled.completed.contains_key(other) == client.completed.contains_key(other)
                &&& client.completed.contains_key(other) ==> polled.completed[other]
                    == client.completed[other]
            }
        }),
{
    let raw = request_id.spec_raw();
    let kind = L::REPLY_RING_KIND;
    let spec = super::reply_spec::<L>();
    let calling = client.started(raw, before.node);
    let lanes = after.family(kind, spec).lanes;
    let polling = ClientView { cursor: model::lane_next(lanes, calling.cursor), ..calling };
    let replies = super::replies_in(
        model::lane_frames(lanes, calling.cursor),
        L::REQUEST_RING_KIND,
    );
    law_a_reply_arrives::<L>(
        before,
        after,
        result,
        request_id,
        outcome,
        payload,
        timestamp_ms,
    );
    lemma_reply_len(request_id, outcome, payload);
    laws::law_polling_reaches_the_head(
        before,
        kind,
        spec,
        FRAME_KIND_REPLY,
        timestamp_ms,
        wire::reply_bytes(request_id, outcome, payload),
    );
    client::law_a_started_call_waits_for_its_target(client, raw, before.node, other);
    client::law_the_first_answer_of_the_target_completes_the_call(
        polling,
        replies,
        caller,
        before.node,
        0,
    );
    if other != raw {
        client::law_calls_without_an_answer_keep_waiting(polling, replies, caller, other);
    } else {
        client::law_calls_without_an_answer_keep_waiting(
            polling,
            replies,
            caller,
            if raw == 0 {
                1
            } else {
                0
            },
        );
    }
}

/// Clearing the rings of a domain leaves everything else alone: the rings of other kinds,
/// the contest table and the minted counters stay as they were, and both rings of the
/// domain are empty.
pub proof fn law_clearing_a_domain_spares_all_others<L: Lane>(fleet: FleetView, other: u8, i: int)
    requires
        L::REQUEST_RING_KIND != L::REPLY_RING_KIND,
    ensures
        ({
            let after = super::rings_reset::<L>(fleet);
            let requests = after.rings[L::REQUEST_RING_KIND];
            let replies = after.rings[L::REPLY_RING_KIND];
            &&& after.rings.contains_key(L::REQUEST_RING_KIND)
            &&& after.rings.contains_key(L::REPLY_RING_KIND)
            &&& 0 <= i < requests.lanes.len() ==> requests.lanes[i].log.len() == 0
            &&& 0 <= i < replies.lanes.len() ==> replies.lanes[i].log.len() == 0
            &&& other != L::REQUEST_RING_KIND && other != L::REPLY_RING_KIND ==> {
                &&& after.rings.contains_key(other) == fleet.rings.contains_key(other)
                &&& fleet.rings.contains_key(other) ==> after.rings[other] == fleet.rings[other]
            }
            &&& after.contest == fleet.contest
            &&& after.minted == fleet.minted
            &&& after.node == fleet.node
        }),
{
}

/// Requests and replies that do not fit are refused with their sizes, and nothing is
/// published: a request beyond nine header bytes, the method and the payload, a reply
/// beyond fourteen header bytes and the payload. Every other one is published.
pub proof fn law_oversized_frames_are_refused<L: Lane>(
    before: FleetView,
    requested: FleetView,
    replied: FleetView,
    request_result: Result<NetId64>,
    reply_result: Result<NetId64>,
    target: u16,
    method: Seq<char>,
    request_id: NetId64,
    outcome: Outcome,
    payload: Seq<u8>,
    timestamp_ms: u64,
)
    requires
        super::request_answers::<L>(
            before,
            requested,
            request_result,
            target,
            method,
            payload,
            timestamp_ms,
        ),
        super::reply_answers::<L>(
            before,
            replied,
            reply_result,
            request_id,
            outcome,
            payload,
            timestamp_ms,
        ),
        vstd::utf8::encode_utf8(method).len() < 0x1_0000,
        payload.len() < 0x1_0000_0000,
    ensures
        ({
            let name_len = vstd::utf8::encode_utf8(method).len();
            &&& 9 + name_len + payload.len() <= L::REQUEST_RING_PAYLOAD ==> request_result is Ok
            &&& 9 + name_len + payload.len() > L::REQUEST_RING_PAYLOAD ==> requested == before
                && request_result is Err && (request_result->Err_0 matches Error::RpcFrameTooLarge {
                frame,
                method_len,
                payload_len,
                max_payload,
            } && frame@ == "request"@ && method_len == name_len && payload_len == payload.len()
                && max_payload == L::REQUEST_RING_PAYLOAD)
            &&& 14 + payload.len() <= L::REPLY_RING_PAYLOAD ==> reply_result is Ok
            &&& 14 + payload.len() > L::REPLY_RING_PAYLOAD ==> replied == before
                && reply_result is Err && (reply_result->Err_0 matches Error::RpcFrameTooLarge {
                frame,
                method_len,
                payload_len,
                max_payload,
            } && frame@ == "reply"@ && method_len == 0 && payload_len == payload.len()
                && max_payload == L::REPLY_RING_PAYLOAD)
        }),
{
    wire::law_rpc_frames_are_bounded(
        vstd::utf8::encode_utf8(method),
        payload,
        L::REQUEST_RING_PAYLOAD,
    );
    wire::law_rpc_frames_are_bounded(
        vstd::utf8::encode_utf8(method),
        payload,
        L::REPLY_RING_PAYLOAD,
    );
}

} // verus!
