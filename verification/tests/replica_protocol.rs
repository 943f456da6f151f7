use vr_core::effect::Effect;
use vr_core::kv::{KvState, Op, Output};
use vr_core::message::{ClientRequest, Message};
use vr_core::replica::{Replica, Status};

fn three_addresses() -> Vec<String> {
    vec!["a".to_string(), "b".to_string(), "c".to_string()]
}

fn request(op: Op, client_id: u64, request_number: u64) -> ClientRequest {
    ClientRequest { op, client_id, request_number, result: None }
}

fn put_x(v: u64) -> Op {
    Op::Put("x".to_string(), v)
}

#[test]
fn quorum_is_majority_of_configuration() {
    let r3: Replica<KvState> = Replica::new(three_addresses(), 0, KvState::new());
    assert_eq!(r3.get_quorum(), 2);
    let five: Vec<String> =
        vec!["a", "b", "c", "d", "e"].into_iter().map(|s| s.to_string()).collect();
    let r5: Replica<KvState> = Replica::new(five, 0, KvState::new());
    assert_eq!(r5.get_quorum(), 3);
}

#[test]
fn request_is_sequenced_and_replicated() {
    let mut primary: Replica<KvState> = Replica::new(three_addresses(), 0, KvState::new());
    let effects = primary.on_request(request(put_x(1), 7, 0), 0);
    assert_eq!(primary.op_number, 1);
    assert_eq!(primary.commit_number, 0);
    assert_eq!(effects.len(), 2);
    assert!(matches!(
        &effects[0],
        Effect::Broadcast { message: Message::Prepare { op_number: 1, commit_number: 0, .. }, .. }
    ));
    assert!(matches!(&effects[1], Effect::SetTimer { .. }));
}

#[test]
fn non_primary_rejects_request_with_error() {
    let mut backup: Replica<KvState> = Replica::new(three_addresses(), 1, KvState::new());
    let effects = backup.on_request(request(put_x(1), 7, 0), 0);
    assert_eq!(effects.len(), 1);
    assert!(matches!(
        &effects[0],
        Effect::Reply { client_id: 7, message: Message::Error { .. } }
    ));
    assert_eq!(backup.op_number, 0);
}

#[test]
fn commit_needs_quorum_of_distinct_acks() {
    let five: Vec<String> =
        vec!["a", "b", "c", "d", "e"].into_iter().map(|s| s.to_string()).collect();
    let mut primary: Replica<KvState> = Replica::new(five, 0, KvState::new());
    primary.on_request(request(put_x(1), 7, 0), 0);

    // One backup ack: 2 of 5 counting the primary — no commit.
    let effects = primary.on_prepare_ok(0, 1, 1, 0);
    assert_eq!(primary.commit_number, 0);
    assert_eq!(effects.len(), 0);

    // The same backup again: duplicates are no-ops.
    let effects = primary.on_prepare_ok(0, 1, 1, 0);
    assert_eq!(primary.commit_number, 0);
    assert_eq!(effects.len(), 0);

    // A second distinct backup: 3 of 5 — commit and reply.
    let effects = primary.on_prepare_ok(0, 2, 1, 0);
    assert_eq!(primary.commit_number, 1);
    assert_eq!(effects.len(), 1);
    assert!(matches!(
        &effects[0],
        Effect::Reply { client_id: 7, message: Message::Reply { result: Some(Output::Done), .. } }
    ));
}

#[test]
fn duplicate_request_returns_cached_result() {
    let mut primary: Replica<KvState> = Replica::new(three_addresses(), 0, KvState::new());
    primary.on_request(request(put_x(1), 7, 0), 0);
    primary.on_prepare_ok(0, 1, 1, 0);
    assert_eq!(primary.commit_number, 1);

    // Re-sending the same request number yields the same result again,
    // with no new log entry.
    for _ in 0..2 {
        let effects = primary.on_request(request(put_x(1), 7, 0), 50);
        assert_eq!(effects.len(), 1);
        assert!(matches!(
            &effects[0],
            Effect::Reply {
                client_id: 7,
                message: Message::Reply { request_id: 0, result: Some(Output::Done), .. },
            }
        ));
        assert_eq!(primary.op_number, 1);
        assert_eq!(primary.log.len(), 1);
    }
}

#[test]
fn out_of_order_request_numbers() {
    let mut primary: Replica<KvState> = Replica::new(three_addresses(), 0, KvState::new());

    // Request number 2 arrives first and is accepted.
    let effects = primary.on_request(request(put_x(2), 7, 2), 0);
    assert_eq!(effects.len(), 2);
    assert_eq!(primary.op_number, 1);
    primary.on_prepare_ok(0, 1, 1, 0);
    assert_eq!(primary.commit_number, 1);

    // The older request number 1 is then dropped silently.
    let effects = primary.on_request(request(put_x(1), 7, 1), 10);
    assert_eq!(effects.len(), 0);
    assert_eq!(primary.op_number, 1);
}

#[test]
fn backup_appends_in_order_and_acks() {
    let mut backup: Replica<KvState> = Replica::new(three_addresses(), 1, KvState::new());
    let effects = backup.on_prepare(0, 1, 0, request(put_x(1), 7, 0), 0);
    assert_eq!(backup.op_number, 1);
    assert!(matches!(
        &effects[0],
        Effect::Send { to: 0, message: Message::PrepareOk { op_number: 1, .. } }
    ));
    assert!(matches!(&effects[1], Effect::SetTimer { .. }));
}

#[test]
fn backup_drops_gap_without_ack() {
    let mut backup: Replica<KvState> = Replica::new(three_addresses(), 2, KvState::new());
    // Op 1 never arrived; op 2 must be neither appended nor acked.
    let effects = backup.on_prepare(0, 2, 0, request(put_x(2), 7, 1), 0);
    assert_eq!(effects.len(), 0);
    assert_eq!(backup.op_number, 0);
    assert_eq!(backup.log.len(), 0);
}

#[test]
fn duplicate_prepare_reacks_without_appending() {
    let mut backup: Replica<KvState> = Replica::new(three_addresses(), 1, KvState::new());
    backup.on_prepare(0, 1, 0, request(put_x(1), 7, 0), 0);
    // The same prepare again, now announcing commit 1: nothing is
    // appended, but the acknowledgement is re-sent, the commit point
    // advances, and the op is applied once.
    let effects = backup.on_prepare(0, 1, 1, request(put_x(1), 7, 0), 5);
    assert_eq!(backup.op_number, 1);
    assert_eq!(backup.log.len(), 1);
    assert_eq!(backup.commit_number, 1);
    assert!(matches!(
        &effects[0],
        Effect::Send { to: 0, message: Message::PrepareOk { op_number: 1, .. } }
    ));
    assert!(matches!(&effects[1], Effect::SetTimer { .. }));
    let applies: Vec<&Effect> =
        effects.iter().filter(|e| matches!(e, Effect::ApplyCommitted { .. })).collect();
    assert_eq!(applies.len(), 1);
}

#[test]
fn stale_view_prepare_is_dropped() {
    let mut backup: Replica<KvState> = Replica::new(three_addresses(), 1, KvState::new());
    let effects = backup.on_prepare(3, 1, 0, request(put_x(1), 7, 0), 0);
    assert_eq!(effects.len(), 0);
    assert_eq!(backup.op_number, 0);
}

#[test]
fn backup_applies_each_committed_op_once() {
    let mut backup: Replica<KvState> = Replica::new(three_addresses(), 1, KvState::new());
    backup.on_prepare(0, 1, 0, request(put_x(1), 7, 0), 0);
    let effects = backup.on_prepare(0, 2, 1, request(put_x(9), 7, 1), 10);
    // The second prepare announced commit 1: exactly one apply signal.
    let applies: Vec<&Effect> =
        effects.iter().filter(|e| matches!(e, Effect::ApplyCommitted { .. })).collect();
    assert_eq!(applies.len(), 1);
    assert!(matches!(applies[0], Effect::ApplyCommitted { op_number: 1 }));

    // Enacting it runs the state machine once; a replay is a no-op.
    assert_eq!(backup.apply_committed(1), Some(Output::Done));
    assert_eq!(backup.apply_committed(1), None);
    assert_eq!(backup.applied_number, 1);
    assert_eq!(backup.state_machine.lookup(&"x".to_string()), Some(1));
}

#[test]
fn agreement_backup_log_matches_primary() {
    let mut primary: Replica<KvState> = Replica::new(three_addresses(), 0, KvState::new());
    let mut backup: Replica<KvState> = Replica::new(three_addresses(), 1, KvState::new());

    for (i, op) in [put_x(1), Op::Get("x".to_string()), Op::Del("x".to_string())]
        .into_iter()
        .enumerate()
    {
        let effects = primary.on_request(request(op, 7, i as u64), 0);
        match &effects[0] {
            Effect::Broadcast {
                message: Message::Prepare { view_number, op_number, commit_number, request },
                ..
            } => {
                backup.on_prepare(
                    *view_number,
                    *op_number,
                    *commit_number,
                    request.clone(),
                    0,
                );
            },
            _ => panic!("expected a prepare broadcast"),
        }
    }
    assert_eq!(primary.log, backup.log);
    assert_eq!(primary.op_number, 3);
    assert_eq!(backup.op_number, 3);
}

#[test]
fn counters_are_monotone() {
    let mut primary: Replica<KvState> = Replica::new(three_addresses(), 0, KvState::new());
    let mut last = (primary.view_number, primary.op_number, primary.commit_number);
    primary.on_request(request(put_x(1), 7, 0), 0);
    let cur = (primary.view_number, primary.op_number, primary.commit_number);
    assert!(cur.0 >= last.0 && cur.1 >= last.1 && cur.2 >= last.2);
    last = cur;
    primary.on_prepare_ok(0, 1, 1, 0);
    let cur = (primary.view_number, primary.op_number, primary.commit_number);
    assert!(cur.0 >= last.0 && cur.1 >= last.1 && cur.2 >= last.2);
    last = cur;
    primary.on_request(request(put_x(2), 7, 1), 100);
    let cur = (primary.view_number, primary.op_number, primary.commit_number);
    assert!(cur.0 >= last.0 && cur.1 >= last.1 && cur.2 >= last.2);
}

#[test]
fn replica_outside_normal_drops_everything() {
    let mut primary: Replica<KvState> = Replica::new(three_addresses(), 0, KvState::new());
    primary.status = Status::ViewChange;
    let effects = primary.on_request(request(put_x(1), 7, 0), 0);
    assert_eq!(effects.len(), 0);
    assert_eq!(primary.op_number, 0);
    let effects = primary.on_prepare_ok(0, 1, 1, 0);
    assert_eq!(effects.len(), 0);
}

#[test]
fn get_returns_the_stored_value() {
    let mut primary: Replica<KvState> = Replica::new(three_addresses(), 0, KvState::new());
    primary.on_request(request(put_x(41), 7, 0), 0);
    primary.on_prepare_ok(0, 1, 1, 0);
    primary.on_request(request(Op::Get("x".to_string()), 7, 1), 10);
    let effects = primary.on_prepare_ok(0, 2, 2, 0);
    assert_eq!(effects.len(), 1);
    assert!(matches!(
        &effects[0],
        Effect::Reply {
            message: Message::Reply { result: Some(Output::Value(Some(41))), .. },
            ..
        }
    ));
}
