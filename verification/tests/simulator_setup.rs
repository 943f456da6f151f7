use vr_core::client::Client;
use vr_core::kv::KvState;
use vr_core::replica::Replica;
use vr_core::simulator::{Link, NodeId, NodeKind, Simulator};

fn setup_replica(id: u64, configuration: Vec<String>) -> Replica<KvState> {
    Replica::new(configuration, id, KvState::new())
}

fn set_link_between_replicas(sim: &mut Simulator, replicas: &[NodeId], link: Link) {
    for a in replicas {
        for b in replicas {
            if a != b {
                sim.set_link(NodeKind::Replica(*a), NodeKind::Replica(*b), link);
            }
        }
    }
}

fn setup_clients_and_replicas(sim: &mut Simulator, client_count: u64, replica_count: u64) {
    let replica_ids: Vec<u64> = (0..replica_count).collect();
    for i in 0..client_count {
        let client = Client::new(NodeId(i), replica_ids.clone());
        sim.add_client(NodeId(i), client);
    }

    let configuration: Vec<String> = (0..replica_count).map(|i| format!("{}", i)).collect();
    let mut replicas = Vec::new();
    for i in 0..replica_count {
        let replica = setup_replica(i, configuration.clone());
        let node_id = NodeId(i);
        replicas.push(node_id);
        sim.add_replica(node_id, replica);
    }

    let link = Link { base_ms: 100, jitter_ms: 10, drop_pct: 0, dup_pct: 0, up: true };

    for i in 0..client_count {
        sim.set_link(NodeKind::Client(NodeId(i)), NodeKind::Replica(replicas[0]), link);
    }

    set_link_between_replicas(sim, &replicas, link);
}

#[test]
fn test_setup_clients_and_replicas() {
    let mut sim = Simulator::new(None);
    setup_clients_and_replicas(&mut sim, 2, 3);

    let clients = sim.get_clients();
    let replicas = sim.get_replicas();
    let links = sim.get_links();

    assert_eq!(clients.len(), 2);
    assert_eq!(replicas.len(), 3);

    let mut client_links = 0;
    for client in &clients {
        let link_from_client = links.get(NodeKind::Client(*client), NodeKind::Replica(NodeId(0)));
        if link_from_client.is_some() {
            client_links += 1;
        }

        let link_to_client = links.get(NodeKind::Replica(NodeId(0)), NodeKind::Client(*client));
        if link_to_client.is_some() {
            client_links += 1;
        }
    }

    let mut replica_links = 0;
    for replica in &replicas {
        let others: Vec<NodeId> = replicas.iter().copied().filter(|r| r != replica).collect();
        let has_link_to_other_replicas = others
            .iter()
            .all(|r| links.get(NodeKind::Replica(*replica), NodeKind::Replica(*r)).is_some());
        if has_link_to_other_replicas {
            replica_links += 1;
        }

        let has_link_from_other_replicas = others
            .iter()
            .all(|r| links.get(NodeKind::Replica(*r), NodeKind::Replica(*replica)).is_some());
        if has_link_from_other_replicas {
            replica_links += 1;
        }
    }

    assert_eq!(client_links, 4);
    assert_eq!(replica_links, 6);
    assert_eq!(links.0.len(), 10);
}

#[test]
fn test_connect_client_to_replica() {
    let mut sim = Simulator::new(None);
    setup_clients_and_replicas(&mut sim, 2, 3);

    let _clients = sim.get_clients();
    let _replicas = sim.get_replicas();
}
