//! Correlation of replies with the calls of one process.

use std::collections::HashMap;

use vstd::prelude::*;

use super::{Endpoint, Lane, ReplyCursor, ReplyPoll, Response, ResponseView};
use crate::clock;
use crate::error::Result;
use crate::fleet::model;
use crate::fleet::Fleet;
use crate::id::NetId64;
use crate::node::NodeId;

verus! {

broadcast use vstd::std_specs::hash::group_hash_axioms;

/// The state of a client, as values: where its reply cursor stands, which member
/// each pending call waits for, and the replies that have arrived.
#[verifier::ext_equal]
pub struct ClientView {
    pub cursor: Seq<u64>,
    pub pending: Map<u64, u16>,
    pub completed: Map<u64, ResponseView>,
}

impl ClientView {
    /// Whether a reply completes a pending call of member `node`: it answers a
    /// request of that member, and it comes from the member that was asked.
    pub open spec fn matches(self, reply: ResponseView, node: u16) -> bool {
        let raw = reply.request_id.spec_raw();
        &&& reply.request_id.spec_node() == node
        &&& self.pending.contains_key(raw)
        &&& self.pending[raw] == reply.from
    }

    /// The client after it has seen one reply.
    pub open spec fn settled(self, reply: ResponseView, node: u16) -> ClientView {
        let raw = reply.request_id.spec_raw();
        if self.matches(reply, node) {
            ClientView {
                pending: self.pending.remove(raw),
                completed: self.completed.insert(raw, reply),
                ..self
            }
        } else {
            self
        }
    }

    /// The client after it has seen several replies, in order.
    pub open spec fn settled_all(self, replies: Seq<ResponseView>, node: u16) -> ClientView
        decreases replies.len(),
    {
        if replies.len() == 0 {
            self
        } else {
            self.settled_all(replies.drop_last(), node).settled(replies.last(), node)
        }
    }

    /// The client after a call was registered.
    pub open spec fn started(self, raw: u64, target: u16) -> ClientView {
        ClientView {
            pending: self.pending.insert(raw, target),
            completed: self.completed.remove(raw),
            ..self
        }
    }

    /// The client after the reply of a call was taken.
    pub open spec fn taken(self, raw: u64) -> ClientView {
        ClientView { completed: self.completed.remove(raw), ..self }
    }

    /// The client after a call was given up.
    pub open spec fn cancelled(self, raw: u64) -> ClientView {
        ClientView {
            pending: self.pending.remove(raw),
            completed: self.completed.remove(raw),
            ..self
        }
    }
}

/// Handle of one call.
#[derive(Debug)]
pub struct Call {
    request_id: NetId64,
}

impl Call {
    pub closed spec fn spec_request_id(&self) -> NetId64 {
        self.request_id
    }

    /// The correlation identifier of the call.
    #[verifier::when_used_as_spec(spec_request_id)]
    pub fn request_id(&self) -> (request_id: NetId64)
        ensures
            request_id == self.spec_request_id(),
    {
        self.request_id
    }
}

/// Correlates replies with in-process callers.
///
/// This type does not create a thread or depend on an async runtime. The
/// embedding runtime drives [`Client::poll_replies`] and takes each reply for its
/// call with [`Client::take_reply`].
pub struct Client<L: Lane> {
    rpc: Endpoint<L>,
    reply_cursor: ReplyCursor,
    pending: HashMap<u64, u16>,
    completed: HashMap<u64, Response>,
}

impl<L: Lane> View for Client<L> {
    type V = ClientView;

    closed spec fn view(&self) -> ClientView {
        ClientView {
            cursor: self.reply_cursor@,
            pending: self.pending@,
            completed: self.completed@.map_values(|reply: Response| reply@),
        }
    }
}

/// The identifier that a started call gives back.
pub open spec fn call_result(result: Result<Call>) -> Result<NetId64> {
    match result {
        Ok(call) => Ok(call.spec_request_id()),
        Err(error) => Err(error),
    }
}

impl<L: Lane> Client<L> {
    /// A client that follows replies from now on.
    pub fn new(rpc: Endpoint<L>, fleet: &Fleet) -> (client: Client<L>)
        requires
            fleet.wf(),
            fleet@.compatible(L::REPLY_RING_KIND, super::reply_spec::<L>()),
        ensures
            client@ == (ClientView {
                cursor: super::lane_heads(fleet@, L::REPLY_RING_KIND, super::reply_spec::<L>()),
                pending: Map::empty(),
                completed: Map::empty(),
            }),
    {
        let reply_cursor = rpc.reply_cursor_at_head(fleet);
        let client = Client {
            rpc,
            reply_cursor,
            pending: HashMap::new(),
            completed: HashMap::new(),
        };
        proof {
            assert(client@.completed =~= Map::empty());
        }
        client
    }

    /// Publish a request, stamped when the wall clock is read, and register the
    /// call that waits for its reply.
    pub fn start(&mut self, fleet: &mut Fleet, target: NodeId, method: &str, payload: &[u8]) -> (result:
        Result<Call>)
        requires
            old(fleet).wf(),
            super::wire::request_fits(
                vstd::utf8::encode_utf8(method@),
                payload@,
                L::REQUEST_RING_PAYLOAD,
            ) ==> old(fleet)@.has_room(L::REQUEST_RING_KIND, super::request_spec::<L>(), 1),
        ensures
            final(fleet).wf(),
            exists|timestamp_ms: u64| #[trigger]
                super::request_answers::<L>(
                    old(fleet)@,
                    final(fleet)@,
                    call_result(result),
                    target.spec_get(),
                    method@,
                    payload@,
                    timestamp_ms,
                ),
            final(self)@ == (match result {
                Ok(call) => old(self)@.started(
                    call.spec_request_id().spec_raw(),
                    target.spec_get(),
                ),
                Err(_) => old(self)@,
            }),
    {
        let timestamp_ms: u64 = clock::now_ms();
        self.start_at(fleet, target, method, payload, timestamp_ms)
    }

    /// [`Client::start`] with an explicit clock.
    pub fn start_at(
        &mut self,
        fleet: &mut Fleet,
        target: NodeId,
        method: &str,
        payload: &[u8],
        timestamp_ms: u64,
    ) -> (result: Result<Call>)
        requires
            old(fleet).wf(),
            super::wire::request_fits(
                vstd::utf8::encode_utf8(method@),
                payload@,
                L::REQUEST_RING_PAYLOAD,
            ) ==> old(fleet)@.has_room(L::REQUEST_RING_KIND, super::request_spec::<L>(), 1),
        ensures
            final(fleet).wf(),
            super::request_answers::<L>(
                old(fleet)@,
                final(fleet)@,
                call_result(result),
                target.spec_get(),
                method@,
                payload@,
                timestamp_ms,
            ),
            final(self)@ == (match result {
                Ok(call) => old(self)@.started(
                    call.spec_request_id().spec_raw(),
                    target.spec_get(),
                ),
                Err(_) => old(self)@,
            }),
    {
        match self.rpc.publish_request_at(fleet, target, method, payload, timestamp_ms) {
            Ok(request_id) => {
                let _ = self.pending.insert(request_id.raw(), target.get());
                let _ = self.completed.remove(&request_id.raw());
                proof {
                    assert(self@.completed =~= old(self)@.completed.remove(
                        request_id.spec_raw(),
                    ));
                }
                Ok(Call { request_id })
            },
            Err(error) => Err(error),
        }
    }

    /// Advance the reply lanes and complete every matching call.
    ///
    /// Replies for another member or another client remain in the returned poll
    /// as unmatched observations, but complete no local call.
    pub fn poll_replies(&mut self, fleet: &Fleet) -> (poll: ReplyPoll)
        requires
            fleet.wf(),
            fleet@.compatible(L::REPLY_RING_KIND, super::reply_spec::<L>()),
            old(self)@.cursor.len() == fleet@.family(
                L::REPLY_RING_KIND,
                super::reply_spec::<L>(),
            ).lanes.len(),
        ensures
            ({
                let lanes = fleet@.family(L::REPLY_RING_KIND, super::reply_spec::<L>()).lanes;
                let frames = model::lane_frames(lanes, old(self)@.cursor);
                let lost = model::lane_loss(lanes, old(self)@.cursor).spec_total();
                let replies = super::replies_in(frames, L::REQUEST_RING_KIND);
                &&& super::response_views(poll.replies@) == replies
                &&& poll.lagged == super::replies_lagged(lost, frames, L::REQUEST_RING_KIND)
                &&& final(self)@ == (ClientView {
                    cursor: model::lane_next(lanes, old(self)@.cursor),
                    ..old(self)@
                }).settled_all(replies, fleet@.node)
            }),
    {
        let poll = self.rpc.poll_replies(fleet, &mut self.reply_cursor);
        let node: u16 = fleet.node_id().get();
        let ghost start = self@;
        let ghost views = super::response_views(poll.replies@);
        let mut i: usize = 0;
        proof {
            assert(views.take(0) =~= seq![]);
        }
        while i < poll.replies.len()
            invariant
                i <= poll.replies@.len(),
                views == super::response_views(poll.replies@),
                node == fleet@.node,
                self@ == start.settled_all(views.take(i as int), node),
            decreases poll.replies@.len() - i,
        {
            let reply = &poll.replies[i];
            let ghost before = self@;
            let raw: u64 = reply.request_id.raw();
            proof {
                assert(views.take(i + 1).drop_last() =~= views.take(i as int));
                assert(views.take(i + 1).last() == reply@);
            }
            i = i + 1;
            if reply.request_id.node() == node {
                let expected = match self.pending.get(&raw) {
                    Some(target) => *target == reply.from.get(),
                    None => false,
                };
                if expected {
                    let _ = self.pending.remove(&raw);
                    let _ = self.completed.insert(raw, reply.copy());
                    proof {
                        assert(self@.completed =~= before.completed.insert(raw, reply@));
                        assert(self@ =~= before.settled(reply@, node));
                    }
                }
            }
        }
        proof {
            assert(views.take(i as int) =~= views);
        }
        poll
    }

    /// Number of calls that wait for a reply.
    pub fn pending_len(&self) -> (len: usize)
        ensures
            len == self@.pending.len(),
    {
        self.pending.len()
    }

    /// Take the reply of a call, once it has arrived.
    pub fn take_reply(&mut self, call: &Call) -> (reply: Option<Response>)
        ensures
            match reply {
                Some(reply) => {
                    &&& old(self)@.completed.contains_key(call.spec_request_id().spec_raw())
                    &&& reply@ == old(self)@.completed[call.spec_request_id().spec_raw()]
                    &&& final(self)@ == old(self)@.taken(call.spec_request_id().spec_raw())
                },
                None => {
                    &&& !old(self)@.completed.contains_key(call.spec_request_id().spec_raw())
                    &&& final(self)@ == old(self)@
                },
            },
    {
        let raw: u64 = call.request_id.raw();
        let reply = self.completed.remove(&raw);
        proof {
            assert(self@.completed =~= old(self)@.completed.remove(raw));
            if reply is None {
                assert(self@.completed =~= old(self)@.completed);
            }
        }
        reply
    }

    /// Give up a call: its correlation entry and a reply that nobody took are
    /// dropped.
    pub fn cancel(&mut self, call: Call)
        ensures
            final(self)@ == old(self)@.cancelled(call.spec_request_id().spec_raw()),
    {
        let raw: u64 = call.request_id.raw();
        let _ = self.pending.remove(&raw);
        let _ = self.completed.remove(&raw);
        proof {
            assert(self@.completed =~= old(self)@.completed.remove(raw));
        }
    }
}

/// A reply that completes a call ends its wait: the call is no longer pending, it
/// has that reply, and every other call is as it was.
pub proof fn law_a_reply_completes_its_call(client: ClientView, reply: ResponseView, node: u16, other: u64)
    requires
        client.matches(reply, node),
        other != reply.request_id.spec_raw(),
    ensures
        ({
            let after = client.settled(reply, node);
            let raw = reply.request_id.spec_raw();
            &&& !after.pending.contains_key(raw)
            &&& after.completed.contains_key(raw) && after.completed[raw] == reply
            &&& after.pending.contains_key(other) == client.pending.contains_key(other)
            &&& after.completed.contains_key(other) == client.completed.contains_key(other)
        }),
{
}

/// The first reply counts: once a call is completed, nothing that arrives later
/// changes its reply.
pub proof fn law_completed_calls_keep_their_reply(
    client: ClientView,
    replies: Seq<ResponseView>,
    node: u16,
    raw: u64,
)
    requires
        !client.pending.contains_key(raw),
    ensures
        !client.settled_all(replies, node).pending.contains_key(raw),
        client.settled_all(replies, node).completed.contains_key(raw)
            == client.completed.contains_key(raw),
        client.completed.contains_key(raw) ==> client.settled_all(replies, node).completed[raw]
            == client.completed[raw],
    decreases replies.len(),
{
    if replies.len() > 0 {
        law_completed_calls_keep_their_reply(client, replies.drop_last(), node, raw);
    }
}

/// An impostor completes nothing: replies that answer another member's requests,
/// or that come from a member that was not asked, leave the client as it was.
pub proof fn law_impostor_replies_complete_nothing(
    client: ClientView,
    replies: Seq<ResponseView>,
    node: u16,
)
    requires
        forall|i: int|
            0 <= i < replies.len() ==> {
                let reply = #[trigger] replies[i];
                reply.request_id.spec_node() != node || (client.pending.contains_key(
                    reply.request_id.spec_raw(),
                ) ==> client.pending[reply.request_id.spec_raw()] != reply.from)
            },
    ensures
        client.settled_all(replies, node) == client,
    decreases replies.len(),
{
    if replies.len() > 0 {
        assert forall|i: int| 0 <= i < replies.drop_last().len() implies {
            let reply = #[trigger] replies.drop_last()[i];
            reply.request_id.spec_node() != node || (client.pending.contains_key(
                reply.request_id.spec_raw(),
            ) ==> client.pending[reply.request_id.spec_raw()] != reply.from)
        } by {
            assert(replies.drop_last()[i] == replies[i]);
        }
        law_impostor_replies_complete_nothing(client, replies.drop_last(), node);
        assert(replies.last() == replies[replies.len() - 1]);
    }
}

/// Starting a call registers it: it waits for the member that was asked and has no
/// reply, and every other call is as it was.
pub proof fn law_a_started_call_waits_for_its_target(
    client: ClientView,
    raw: u64,
    target: u16,
    other: u64,
)
    ensures
        ({
            let after = client.started(raw, target);
            &&& after.pending.contains_key(raw) && after.pending[raw] == target
            &&& !after.completed.contains_key(raw)
            &&& after.cursor == client.cursor
            &&& other != raw ==> {
                &&& after.pending.contains_key(other) == client.pending.contains_key(other)
                &&& client.pending.contains_key(other) ==> after.pending[other]
                    == client.pending[other]
                &&& after.completed.contains_key(other) == client.completed.contains_key(other)
                &&& client.completed.contains_key(other) ==> after.completed[other]
                    == client.completed[other]
            }
        }),
{
}

/// Every answer counts, whatever it says: the first reply under the identifier of a
/// pending call that comes from the member that was asked completes the call, with
/// whichever outcome, bytes and time it carries, and the call waits no longer.
pub proof fn law_the_first_answer_of_the_target_completes_the_call(
    client: ClientView,
    replies: Seq<ResponseView>,
    node: u16,
    target: u16,
    at: int,
)
    requires
        0 <= at < replies.len(),
        replies[at].request_id.spec_node() == node,
        replies[at].from == target,
        client.pending.contains_key(replies[at].request_id.spec_raw()),
        client.pending[replies[at].request_id.spec_raw()] == target,
        forall|i: int|
            0 <= i < at && (#[trigger] replies[i]).request_id == replies[at].request_id
                ==> replies[i].from != target,
    ensures
        ({
            let raw = replies[at].request_id.spec_raw();
            let after = client.settled_all(replies, node);
            &&& !after.pending.contains_key(raw)
            &&& after.completed.contains_key(raw)
            &&& after.completed[raw] == replies[at]
        }),
    decreases replies.len(),
{
    let raw = replies[at].request_id.spec_raw();
    let front = replies.drop_last();
    assert(replies.last() == replies[replies.len() - 1]);
    if at < front.len() {
        assert(front[at] == replies[at]);
        assert forall|i: int|
            0 <= i < at && (#[trigger] front[i]).request_id == front[at].request_id implies
            front[i].from != target by {
            assert(front[i] == replies[i]);
        }
        law_the_first_answer_of_the_target_completes_the_call(client, front, node, target, at);
    } else {
        assert forall|i: int|
            0 <= i < front.len() && (#[trigger] front[i]).request_id.spec_raw() == raw implies
            front[i].from != target by {
            assert(front[i] == replies[i]);
            crate::id::lemma_raw_determines(front[i].request_id, replies[at].request_id);
        }
        law_calls_without_an_answer_keep_waiting(client, front, node, raw);
    }
}

/// Nothing else completes a call: where no reply under its identifier comes from the
/// member that it waits for, a call stays as it was. Neither a reply to another call
/// nor one from another member moves it.
pub proof fn law_calls_without_an_answer_keep_waiting(
    client: ClientView,
    replies: Seq<ResponseView>,
    node: u16,
    raw: u64,
)
    requires
        client.pending.contains_key(raw) ==> forall|i: int|
            0 <= i < replies.len() && (#[trigger] replies[i]).request_id.spec_raw() == raw
                ==> replies[i].from != client.pending[raw],
    ensures
        ({
            let after = client.settled_all(replies, node);
            &&& after.cursor == client.cursor
            &&& after.pending.contains_key(raw) == client.pending.contains_key(raw)
            &&& client.pending.contains_key(raw) ==> after.pending[raw] == client.pending[raw]
            &&& after.completed.contains_key(raw) == client.completed.contains_key(raw)
            &&& client.completed.contains_key(raw) ==> after.completed[raw]
                == client.completed[raw]
        }),
    decreases replies.len(),
{
    if replies.len() > 0 {
        let front = replies.drop_last();
        assert forall|i: int|
            0 <= i < front.len() && (#[trigger] front[i]).request_id.spec_raw() == raw
                && client.pending.contains_key(raw) implies front[i].from != client.pending[raw] by {
            assert(front[i] == replies[i]);
        }
        law_calls_without_an_answer_keep_waiting(client, front, node, raw);
        assert(replies.last() == replies[replies.len() - 1]);
    }
}

/// A reply is taken once: afterwards the call has none, whether it waits is as before,
/// and every other call keeps its own.
pub proof fn law_a_reply_is_taken_once(client: ClientView, raw: u64, other: u64)
    ensures
        ({
            let after = client.taken(raw);
            &&& !after.completed.contains_key(raw)
            &&& after.pending == client.pending
            &&& after.cursor == client.cursor
            &&& other != raw ==> {
                &&& after.completed.contains_key(other) == client.completed.contains_key(other)
                &&& client.completed.contains_key(other) ==> after.completed[other]
                    == client.completed[other]
            }
        }),
{
}

/// A call that was given up stays so: it waits for nothing and has no reply, and no reply
/// that arrives later completes it. Every other call is as it was.
pub proof fn law_a_cancelled_call_never_completes(
    client: ClientView,
    raw: u64,
    replies: Seq<ResponseView>,
    node: u16,
    other: u64,
)
    ensures
        ({
            let given_up = client.cancelled(raw);
            let after = given_up.settled_all(replies, node);
            &&& !given_up.pending.contains_key(raw) && !given_up.completed.contains_key(raw)
            &&& !after.pending.contains_key(raw) && !after.completed.contains_key(raw)
            &&& given_up.cursor == client.cursor
            &&& other != raw ==> {
                &&& given_up.pending.contains_key(other) == client.pending.contains_key(other)
                &&& client.pending.contains_key(other) ==> given_up.pending[other]
                    == client.pending[other]
                &&& given_up.completed.contains_key(other) == client.completed.contains_key(other)
                &&& client.completed.contains_key(other) ==> given_up.completed[other]
                    == client.completed[other]
            }
        }),
{
    law_completed_calls_keep_their_reply(client.cancelled(raw), replies, node, raw);
}

} // verus!
