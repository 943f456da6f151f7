use vr_core::client::Client;
use vr_core::events::Event;
use vr_core::kv::{KvState, Op, Output, StateMachine};
use vr_core::message::Message;
use vr_core::proxy::{Proxy, State};
use vr_core::simulator::NodeId;

#[test]
fn put_get_del() {
    let mut kv = KvState::new();
    assert_eq!(kv.lookup(&"x".to_string()), None);
    assert_eq!(kv.apply(Op::Put("x".to_string(), 1)), Output::Done);
    assert_eq!(kv.lookup(&"x".to_string()), Some(1));
    assert_eq!(kv.apply(Op::Get("x".to_string())), Output::Value(Some(1)));
    assert_eq!(kv.apply(Op::Get("y".to_string())), Output::Value(None));
    // The same key again: the newer binding wins.
    assert_eq!(kv.apply(Op::Put("x".to_string(), 2)), Output::Done);
    assert_eq!(kv.lookup(&"x".to_string()), Some(2));
    assert_eq!(kv.apply(Op::Del("x".to_string())), Output::Done);
    assert_eq!(kv.lookup(&"x".to_string()), None);
    // Deleting an absent key is a quiet no-op.
    assert_eq!(kv.apply(Op::Del("x".to_string())), Output::Done);
}

#[test]
fn client_counts_replies_and_mirrors_pending_op() {
    let mut client = Client::new(NodeId(5), vec![0, 1, 2]);
    assert_eq!(client.request_number, 0);
    client.pending = Some(Op::Put("x".to_string(), 9));
    client.on_message(Event::Msg(Message::Reply {
        client_id: 5,
        view_number: 0,
        request_id: 0,
        result: Some(Output::Done),
    }));
    assert_eq!(client.request_number, 1);
    assert_eq!(client.replies_received, 1);
    assert_eq!(client.last_result, Some(Output::Done));
    assert_eq!(client.state.lookup(&"x".to_string()), Some(9));
    // Anything that is not a reply is ignored.
    client.on_message(Event::Msg(Message::Commit {
        op_number: 1,
        commit_number: 1,
        view_number: 0,
    }));
    assert_eq!(client.replies_received, 1);
}

#[test]
fn proxy_tracks_primary_and_request_numbers() {
    let mut proxy = Proxy::from_connect(
        vec!["a".to_string(), "b".to_string(), "c".to_string()],
        4,
        0,
        "client-1".to_string(),
    );
    // View 4 of three replicas: primary is index 4 mod 3 == 1.
    assert_eq!(proxy.primary_address(), Some(&"b".to_string()));
    assert_eq!(proxy.take_request_number(), 0);
    assert_eq!(proxy.take_request_number(), 1);
    assert_eq!(proxy.request_number, 2);
    let state = State::new(proxy);
    assert_eq!(state.state.len(), 0);
}
