use vr_core::client::Client;
use vr_core::effect::TimerKind;
use vr_core::kv::{KvState, Op, Output};
use vr_core::message::Message;
use vr_core::replica::{Replica, Status};
use vr_core::simulator::{Link, NodeId, NodeKind, Simulator, SimulatorConfig, TraceEntry};

const CLIENT: u64 = 42;

fn flat_link() -> Link {
    Link { up: true, base_ms: 100, jitter_ms: 0, drop_pct: 0, dup_pct: 0 }
}

/// Three replicas "a","b","c" (ids 0,1,2; view 0, primary 0) and one
/// client wired to every replica.
fn cluster(config: SimulatorConfig, link: Link) -> Simulator {
    let mut sim = Simulator::new(Some(config));
    let addresses: Vec<String> = vec!["a".to_string(), "b".to_string(), "c".to_string()];
    for i in 0..3u64 {
        sim.add_replica(NodeId(i), Replica::new(addresses.clone(), i, KvState::new()));
    }
    sim.add_client(NodeId(CLIENT), Client::new(NodeId(CLIENT), vec![0, 1, 2]));
    for i in 0..3u64 {
        for j in 0..3u64 {
            if i != j {
                sim.set_link(NodeKind::Replica(NodeId(i)), NodeKind::Replica(NodeId(j)), link);
            }
        }
        sim.set_link(NodeKind::Client(NodeId(CLIENT)), NodeKind::Replica(NodeId(i)), link);
    }
    sim
}

fn no_timers() -> SimulatorConfig {
    SimulatorConfig { disable_timers: true, ..SimulatorConfig::default() }
}

fn primary_commit(sim: &Simulator) -> u64 {
    sim.replica_at(NodeId(0)).unwrap().commit_number
}

#[test]
fn happy_path_set() {
    let mut sim = cluster(no_timers(), flat_link());
    assert!(sim.start_client_request(NodeId(CLIENT), Op::Put("x".to_string(), 1)));
    sim.run_until(1000);

    // At t=100 the primary broadcast Prepare(op=1, commit=0).
    assert!(sim.trace.iter().any(|e| matches!(
        e,
        TraceEntry::Sent {
            at: 100,
            from: NodeKind::Replica(NodeId(0)),
            message: Message::Prepare { op_number: 1, commit_number: 0, .. },
            ..
        }
    )));
    // At t=200 backups 1 and 2 sent PrepareOk(op=1).
    for backup in [1u64, 2u64] {
        assert!(sim.trace.iter().any(|e| matches!(
            e,
            TraceEntry::Sent {
                at: 200,
                from: NodeKind::Replica(NodeId(b)),
                message: Message::PrepareOk { op_number: 1, .. },
                ..
            } if *b == backup
        )));
    }
    // At t=300 the primary committed, applied, and replied.
    assert!(sim.trace.iter().any(|e| matches!(
        e,
        TraceEntry::Sent {
            at: 300,
            to: NodeKind::Client(NodeId(CLIENT)),
            message: Message::Reply { request_id: 0, result: Some(Output::Done), .. },
            ..
        }
    )));
    assert_eq!(primary_commit(&sim), 1);
    let client = sim.client_at(NodeId(CLIENT)).unwrap();
    assert_eq!(client.replies_received, 1);
    assert_eq!(client.last_result, Some(Output::Done));
}

#[test]
fn backup_gap_blocks_ack_but_not_quorum() {
    let mut sim = cluster(no_timers(), flat_link());
    // Partition replica 2 away from the primary: it never sees op 1.
    sim.set_link(
        NodeKind::Replica(NodeId(0)),
        NodeKind::Replica(NodeId(2)),
        Link { up: false, ..flat_link() },
    );
    assert!(sim.start_client_request(NodeId(CLIENT), Op::Put("x".to_string(), 1)));
    sim.run_until(1000);

    // Quorum was reached through replica 1 alone.
    assert_eq!(primary_commit(&sim), 1);
    assert_eq!(sim.replica_at(NodeId(2)).unwrap().op_number, 0);

    // The link heals; the next prepare (op 2) reaches replica 2, which
    // detects the gap: it must neither append nor acknowledge op 2.
    sim.set_link(NodeKind::Replica(NodeId(0)), NodeKind::Replica(NodeId(2)), flat_link());
    assert!(sim.start_client_request(NodeId(CLIENT), Op::Put("y".to_string(), 2)));
    sim.run_until(3000);

    assert_eq!(primary_commit(&sim), 2);
    let straggler = sim.replica_at(NodeId(2)).unwrap();
    assert_eq!(straggler.op_number, 0);
    assert_eq!(straggler.log.len(), 0);
    assert!(!sim.trace.iter().any(|e| matches!(
        e,
        TraceEntry::Sent {
            from: NodeKind::Replica(NodeId(2)),
            message: Message::PrepareOk { op_number: 2, .. },
            ..
        }
    )));
}

#[test]
fn primary_idle_heartbeat() {
    let mut sim = cluster(SimulatorConfig::default(), flat_link());
    // No client requests at all; the primary's idle timer (1000 ms)
    // fires and it broadcasts a Commit heartbeat.
    sim.run_until(2500);

    assert!(sim.trace.iter().any(|e| matches!(
        e,
        TraceEntry::TimerFired { node: NodeId(0), kind: TimerKind::PrimaryIdleCommit, .. }
    )));
    assert!(sim.trace.iter().any(|e| matches!(
        e,
        TraceEntry::Sent {
            from: NodeKind::Replica(NodeId(0)),
            message: Message::Commit { op_number: 0, commit_number: 0, .. },
            ..
        }
    )));
    // The backups saw liveness and re-armed their watchdogs past the
    // initial 5000 ms deadline.
    for backup in [1u64, 2u64] {
        let r = sim.replica_at(NodeId(backup)).unwrap();
        assert_eq!(r.status, Status::Normal);
        assert!(r.next_backup_watchdog.unwrap() > 5000);
    }
}

#[test]
fn backup_watchdog_fires_into_view_change() {
    let mut sim = cluster(SimulatorConfig::default(), flat_link());
    // Partition the primary from replica 1: heartbeats no longer reach
    // it, so its watchdog (5000 ms) expires and it suspects the primary.
    sim.set_link(
        NodeKind::Replica(NodeId(0)),
        NodeKind::Replica(NodeId(1)),
        Link { up: false, ..flat_link() },
    );
    sim.run_until(6000);

    assert_eq!(sim.replica_at(NodeId(1)).unwrap().status, Status::ViewChange);
    // Replica 2 kept hearing the primary and stays Normal.
    assert_eq!(sim.replica_at(NodeId(2)).unwrap().status, Status::Normal);
}

fn noisy_run(seed: u64) -> Vec<TraceEntry> {
    let config = SimulatorConfig { seed, ..SimulatorConfig::default() };
    let noisy = Link { up: true, base_ms: 50, jitter_ms: 30, drop_pct: 20, dup_pct: 10 };
    let mut sim = cluster(config, noisy);
    assert!(sim.start_client_request(NodeId(CLIENT), Op::Put("x".to_string(), 1)));
    sim.run_until(700);
    assert!(sim.start_client_request(NodeId(CLIENT), Op::Put("y".to_string(), 2)));
    sim.run_until(1400);
    assert!(sim.start_client_request(NodeId(CLIENT), Op::Del("x".to_string())));
    sim.run_until(4000);
    sim.trace
}

#[test]
fn same_seed_same_trace() {
    // A script replayed with the identical seed produces the identical
    // event trace, jitter, drops and duplicates included.
    let a = noisy_run(1234567);
    let b = noisy_run(1234567);
    assert_eq!(a, b);
    assert!(!a.is_empty());
}
