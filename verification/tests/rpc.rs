//! Request/reply messaging.

use bytes::Bytes;
use orbit::rpc::wire::{decode_reply, decode_request, encode_reply, encode_request};
use orbit::rpc::{Client, Endpoint, Lane, Outcome};
use orbit::{Error, Fleet, NetId64, NodeId};

struct TestLane;

impl Lane for TestLane {
    const REQUEST_RING_KIND: u8 = 223;
    const REQUEST_RING_CAPACITY: usize = 16;
    const REQUEST_RING_PAYLOAD: usize = 256;
    const REPLY_RING_KIND: u8 = 224;
    const REPLY_RING_CAPACITY: usize = 16;
    const REPLY_RING_PAYLOAD: usize = 128;
}

fn member(fleet: Fleet, node: u16) -> Fleet {
    Fleet::attach(fleet.detach(), NodeId::new(node)).ok().expect("attach")
}

#[test]
fn handler_replies_complete_the_matching_send_futures() {
    let mut fleet = Fleet::join_as("rpc", 3, NodeId::new(0)).ok().expect("parent joins");
    let rpc = Endpoint::<TestLane>::new();
    rpc.reset_rings(&mut fleet).expect("reset rings");
    let mut client = Client::new(rpc.clone(), &fleet);
    let mut cursor = rpc.request_cursor_from_start(&fleet);

    let first = client
        .start(&mut fleet, NodeId::new(1), "test.echo", b"first")
        .expect("publish first request");
    let second = client
        .start(&mut fleet, NodeId::new(1), "test.echo", b"second")
        .expect("publish second request");
    assert_eq!(client.pending_len(), 2);

    // Knowing the correlation id is not enough: only the member addressed by the
    // request may complete the call.
    let mut fleet = member(fleet, 2);
    rpc.publish_reply(&mut fleet, first.request_id(), Outcome::Completed, b"reply:rogue")
        .expect("publish reply from wrong node");
    let mut fleet = member(fleet, 0);
    let third = client
        .start(&mut fleet, NodeId::new(1), "test.echo", b"third")
        .expect("send third request");
    client.poll_replies(&fleet);
    assert_eq!(client.pending_len(), 3);

    let mut fleet = member(fleet, 1);
    let poll = rpc.poll_requests(&fleet, &mut cursor);
    assert_eq!(poll.lagged, 0);
    let requests = poll.requests;
    assert_eq!(requests.len(), 3);
    for (request, payload) in requests.iter().zip([&b"first"[..], b"second", b"third"]) {
        assert_eq!(request.method, "test.echo");
        assert_eq!(&request.payload[..], payload);
        assert_eq!(request.from, NodeId::new(0));
        assert_eq!(request.target, NodeId::new(1));
    }

    // Reply in reverse order: correlation is by request id, not by order.
    rpc.reply(&mut fleet, &requests[2], Outcome::Completed, b"reply:third").expect("reply");
    rpc.reply(&mut fleet, &requests[1], Outcome::Completed, b"reply:second").expect("reply");
    rpc.reply(&mut fleet, &requests[0], Outcome::Completed, b"reply:first").expect("reply");

    let fleet = member(fleet, 0);
    client.poll_replies(&fleet);
    let first_reply = client.take_reply(&first).expect("first reply");
    let second_reply = client.take_reply(&second).expect("second reply");
    let third_reply = client.take_reply(&third).expect("third reply");

    assert_eq!(first_reply.outcome, Outcome::Completed);
    assert_eq!(first_reply.payload, "reply:first");
    assert_eq!(first_reply.from, NodeId::new(1));
    assert_eq!(second_reply.outcome, Outcome::Completed);
    assert_eq!(second_reply.payload, "reply:second");
    assert_eq!(third_reply.outcome, Outcome::Completed);
    assert_eq!(third_reply.payload, "reply:third");
    assert_eq!(client.pending_len(), 0);
    assert!(client.take_reply(&first).is_none());
}

#[test]
fn the_first_reply_of_a_call_stays() {
    let mut fleet = Fleet::join_as("rpc_twice", 2, NodeId::new(0)).ok().expect("fleet");
    let rpc = Endpoint::<TestLane>::new();
    let mut client = Client::new(rpc.clone(), &fleet);
    let call = client
        .start_at(&mut fleet, NodeId::new(1), "m", b"", 1)
        .expect("start");
    let mut fleet = member(fleet, 1);
    let id = call.request_id();
    rpc.publish_reply_at(&mut fleet, id, Outcome::Completed, b"first", 2).expect("reply");
    rpc.publish_reply_at(&mut fleet, id, Outcome::Failed, b"second", 3).expect("reply");
    let fleet = member(fleet, 0);
    assert_eq!(client.poll_replies(&fleet).replies.len(), 2);
    let reply = client.take_reply(&call).expect("the reply");
    assert_eq!(reply.payload, "first");
    assert_eq!(reply.outcome, Outcome::Completed);
}

#[test]
fn cancelled_calls_are_forgotten() {
    let mut fleet = Fleet::join_as("rpc_cancel", 2, NodeId::new(0)).ok().expect("fleet");
    let rpc = Endpoint::<TestLane>::new();
    let mut client = Client::new(rpc.clone(), &fleet);
    let call = client
        .start_at(&mut fleet, NodeId::new(1), "m", b"", 77)
        .expect("start");
    let request_id = call.request_id();
    client.cancel(call);
    assert_eq!(client.pending_len(), 0);

    let mut fleet = member(fleet, 1);
    rpc.publish_reply_at(&mut fleet, request_id, Outcome::Failed, b"too late", 78)
        .expect("reply");
    let fleet = member(fleet, 0);
    let poll = client.poll_replies(&fleet);
    assert_eq!(poll.replies.len(), 1);
    assert_eq!(poll.replies[0].outcome, Outcome::Failed);
    assert_eq!(poll.replies[0].timestamp_ms, 78);
    assert_eq!(client.pending_len(), 0);
}

#[test]
fn requests_are_for_their_target_only() {
    let mut fleet = Fleet::join_as("rpc_target", 3, NodeId::new(0)).ok().expect("fleet");
    let rpc = Endpoint::<TestLane>::new();
    assert!(rpc.is_ready(&fleet));
    let mut bystander = rpc.request_cursor_at_head(&fleet);
    let mut addressee = rpc.request_cursor_at_head(&fleet);
    let id = rpc
        .publish_request_at(&mut fleet, NodeId::new(2), "m", b"body", 55)
        .expect("request");
    let fleet = member(fleet, 1);
    assert!(rpc.poll_requests(&fleet, &mut bystander).is_empty());
    let fleet = member(fleet, 2);
    assert_eq!(rpc.node_id(&fleet), NodeId::new(2));
    let poll = rpc.poll_requests(&fleet, &mut addressee);
    assert_eq!(poll.requests.len(), 1);
    assert_eq!(poll.requests[0].id, id);
    assert_eq!(poll.requests[0].timestamp_ms, 55);
}

#[test]
fn a_slow_reader_learns_what_it_missed() {
    let mut fleet = Fleet::join_as("rpc_lag", 2, NodeId::new(0)).ok().expect("fleet");
    let rpc = Endpoint::<TestLane>::new();
    let mut cursor = rpc.request_cursor_from_start(&fleet);
    for _ in 0..18 {
        rpc.publish_request(&mut fleet, NodeId::new(1), "m", b"").expect("request");
    }
    let fleet = member(fleet, 1);
    let poll = rpc.poll_requests(&fleet, &mut cursor);
    assert_eq!(poll.lagged, 2);
    assert_eq!(poll.requests.len(), 16);
}

#[test]
fn frames_must_fit_their_lane() {
    let mut fleet = Fleet::join_as("rpc_large", 2, NodeId::new(0)).ok().expect("fleet");
    let rpc = Endpoint::<TestLane>::new();
    let error = rpc
        .publish_request(&mut fleet, NodeId::new(1), "m", &[0; 247])
        .expect_err("one byte too many");
    assert_eq!(
        error,
        Error::RpcFrameTooLarge {
            frame: "request",
            method_len: 1,
            payload_len: 247,
            max_payload: 256,
        }
    );
    assert_eq!(
        error.message(),
        "orbit RPC request frame too large: method_len=1 payload_len=247 max_payload=256"
    );
    assert!(rpc.publish_request(&mut fleet, NodeId::new(1), "m", &[0; 246]).is_ok());
    let id = NetId64::make(223, 0, 0);
    let error = rpc
        .publish_reply(&mut fleet, id, Outcome::Rejected, &[0; 115])
        .expect_err("one byte too many");
    assert_eq!(
        error.message(),
        "orbit RPC reply frame too large: method_len=0 payload_len=115 max_payload=128"
    );
}

#[test]
fn frames_are_laid_out_as_documented() {
    let request = encode_request::<TestLane>(NodeId::new(0x0102), b"echo", b"hi").expect("request");
    assert_eq!(&request[..], b"\x01\x02\x01\x04\x00\x02\x00\x00\x00echohi");
    let decoded = decode_request(&request).expect("a request");
    assert_eq!(decoded.target, NodeId::new(0x0102));
    assert_eq!(decoded.method, "echo");
    assert_eq!(&decoded.payload[..], b"hi");

    let id = NetId64::make(223, 1, 2);
    let reply = encode_reply::<TestLane>(id, Outcome::Rejected, b"no").expect("reply");
    assert_eq!(reply.len(), 16);
    assert_eq!(reply[0], 1);
    let decoded = decode_reply::<TestLane>(&reply).expect("a reply");
    assert_eq!(decoded.request_id, id);
    assert_eq!(decoded.outcome, Outcome::Rejected);
    assert_eq!(&decoded.payload[..], b"no");

    assert!(decode_request(&request.slice(0..request.len() - 1)).is_none());
    assert!(decode_reply::<TestLane>(&reply.slice(0..13)).is_none());
    let other = encode_reply::<TestLane>(NetId64::make(9, 1, 2), Outcome::Rejected, b"no").expect("reply");
    assert!(decode_reply::<TestLane>(&other).is_none());
    // A method that is no text.
    let bad = encode_request::<TestLane>(NodeId::new(1), b"\xff", b"").expect("request");
    assert!(decode_request(&bad).is_none());
    assert!(decode_request(&Bytes::new()).is_none());
}

#[test]
fn outcomes_have_their_own_bytes() {
    for (outcome, byte) in [(Outcome::Completed, 1), (Outcome::Rejected, 2), (Outcome::Failed, 3)] {
        assert_eq!(outcome.to_wire(), byte);
        assert_eq!(Outcome::from_wire(byte), Some(outcome));
    }
    assert_eq!(Outcome::from_wire(0), None);
    assert_eq!(Outcome::from_wire(4), None);
}

#[test]
fn reset_rings_are_silent() {
    let mut fleet = Fleet::join("rpc-silent", 1).expect("fleet");
    let endpoint = Endpoint::<TestLane>::new();
    let node = fleet.node_id();
    let request = endpoint.publish_request(&mut fleet, node, "echo", b"x").expect("request");
    let mut replies = endpoint.reply_cursor_at_head(&fleet);
    let reply = endpoint
        .publish_reply(&mut fleet, request, Outcome::Completed, b"y")
        .expect("reply");
    let poll = endpoint.poll_replies(&fleet, &mut replies);
    assert_eq!((poll.replies.len(), poll.lagged), (1, 0));
    assert_eq!(poll.replies[0].id, reply);
    assert_eq!(poll.replies[0].request_id, request);
    assert_eq!(poll.replies[0].outcome, Outcome::Completed);
    assert_eq!(&poll.replies[0].payload[..], b"y");

    endpoint.reset_rings(&mut fleet).expect("reset");
    let mut requests = endpoint.request_cursor_from_start(&fleet);
    let mut replies = endpoint.reply_cursor_from_start(&fleet);
    let poll = endpoint.poll_requests(&fleet, &mut requests);
    assert_eq!((poll.requests.len(), poll.lagged), (0, 0));
    let poll = endpoint.poll_replies(&fleet, &mut replies);
    assert_eq!((poll.replies.len(), poll.lagged), (0, 0));
}
