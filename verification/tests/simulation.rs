use rafty::cluster::{
    basic_cluster, basic_cluster_with_drop_rate, Cluster, ClusterEvent, ClusterMessage,
};
use rafty::communication::Channel;
use rafty::network::{FaultRate, NO_FAULT};
use rafty::node_id::NodeId;
use rafty::proto::{Message, ProtoMessage, ProtoMessageType};
use rafty::rng::DeterministicRng;
use rafty::role::Role;
use rafty::storage::Storage;
use rafty::wasm_cluster::{notice, WasmCluster};

#[test]
fn basic_clusters_have_seven_nodes() {
    let nodes = basic_cluster();
    assert_eq!(nodes.len(), 7);
    assert_eq!(nodes[6].id.get(), 7);
    assert_eq!(nodes[0].channel.channels[3].drop_rate, FaultRate(NO_FAULT));
    let lossy = basic_cluster_with_drop_rate(FaultRate(30));
    assert_eq!(lossy[2].channel.channels[0].drop_rate, FaultRate(30));
    assert!(lossy.iter().all(|n| (10..20).contains(&n.election_timeout)));
}

#[test]
fn nodes_leave_and_come_back_in_order() {
    let mut cluster = Cluster::new();
    let node = cluster.remove(3);
    assert_eq!(node.id.get(), 3);
    assert_eq!(cluster.nodes.len(), 6);
    cluster.add(node);
    let ids: Vec<u64> = cluster.nodes.iter().map(|n| n.id.get()).collect();
    assert_eq!(ids, (1..=7).collect::<Vec<u64>>());
}

#[test]
fn pausing_is_told_once() {
    let mut cluster = Cluster::new();
    cluster.pause_node(2);
    cluster.pause_node(2);
    assert!(cluster.is_node_paused(2));
    cluster.resume_node(2);
    cluster.resume_node(2);
    cluster.toggle_node(4);
    cluster.toggle_node(4);
    assert!(cluster.paused_nodes.is_empty());
    assert_eq!(
        cluster.take_events(),
        vec![
            ClusterEvent::NodePaused { node_id: 2 },
            ClusterEvent::NodeResumed { node_id: 2 },
            ClusterEvent::NodePaused { node_id: 4 },
            ClusterEvent::NodeResumed { node_id: 4 },
        ]
    );
    assert!(cluster.take_events().is_empty());
}

#[test]
fn recorded_messages_are_drained_once() {
    let mut cluster = Cluster::new();
    let msg = ClusterMessage::new(1, 2, "Heartbeat".to_string(), 3, 4);
    cluster.record_message(msg.clone());
    assert_eq!(
        cluster.take_events(),
        vec![ClusterEvent::MessageSent { from: 1, to: 2, msg_type: "Heartbeat".to_string() }]
    );
    assert_eq!(cluster.drain_messages(), vec![msg]);
    assert!(cluster.drain_messages().is_empty());
}

#[test]
fn paused_nodes_stand_still_and_are_not_heard() {
    let mut cluster = Cluster::from_config_with_rng(
        Cluster::initial_config(3),
        FaultRate(NO_FAULT),
        DeterministicRng::new(4),
    );
    cluster.get_mut(1).step(Message::StartCampaign).unwrap();
    cluster.pause_node(1);
    cluster.tick_active();
    // The request of the paused candidate was discarded.
    assert_eq!(cluster.get(2).voted_for, NodeId::from(0));
    assert_eq!(cluster.get(1).term, 1);
    for _ in 0..60 {
        cluster.tick_active();
    }
    assert_eq!(cluster.get(1).term, 1);
    let leaders = cluster.nodes.iter().filter(|n| matches!(n.role, Role::Leader(_))).count();
    assert_eq!(leaders, 1);
}

#[test]
fn filtered_steps_reach_the_chosen_nodes_only() {
    let mut cluster = Cluster::new();
    cluster.get_mut(1).step(Message::StartCampaign).unwrap();
    cluster.step_filter(|id| id == NodeId::from(2));
    assert_eq!(cluster.get(2).voted_for, NodeId::from(1));
    assert_eq!(cluster.get(3).voted_for, NodeId::from(0));
    assert_eq!(cluster.step(), 6);
    assert!(!cluster.all_nodes(|n| n.voted_for == NodeId::from(2)));
}

#[test]
fn lossy_clusters_deliver_what_is_left() {
    let c = WasmCluster::new(3, 30);
    assert_eq!(c.cluster.nodes[0].channel.channels[0].drop_rate, FaultRate(70));
    let none = WasmCluster::new(3, 255);
    assert_eq!(none.cluster.nodes[0].channel.channels[0].drop_rate, FaultRate(0));
    assert_eq!(none.get_tick_rate(), 500);
}

#[test]
fn a_broadcast_is_shown_for_each_recipient() {
    let mut c = WasmCluster::new(3, 0);
    let msg = ProtoMessage {
        msg_type: ProtoMessageType::RequestVote,
        from: 2,
        term: 5,
        ..Default::default()
    };
    c.note_message(&msg, 2, 77);
    let shown = c.get_new_messages();
    let ends: Vec<(u64, u64)> = shown.iter().map(|m| (m.from, m.to)).collect();
    assert_eq!(ends, vec![(2, 1), (2, 3)]);
    assert_eq!((shown[0].term, shown[0].timestamp), (5, 77));
    assert_eq!(notice(&shown[1]), "message:2:3:RequestVote");
    assert!(c.get_new_messages().is_empty());
}

#[test]
fn messages_wait_while_the_cluster_is_paused() {
    let mut c = WasmCluster::new(3, 0);
    c.pause_cluster();
    assert!(c.is_cluster_paused());
    let msg = ProtoMessage { from: 1, to: 3, ..Default::default() };
    c.note_message(&msg, 1, 0);
    c.note_message(&msg, 1, 0);
    let state = c.get_state();
    assert_eq!(state.nodes[2].pending_count, 2);
    assert_eq!(state.nodes[0].pending_count, 0);
    assert_eq!(state.messages.len(), 2);
    c.tick_node(3, 1);
    assert_eq!(c.get_state().nodes[2].pending_count, 0);
    c.note_message(&msg, 1, 0);
    c.toggle_cluster_paused();
    assert!(!c.is_cluster_paused());
    assert_eq!(c.get_state().nodes[2].pending_count, 0);
    c.toggle_cluster_paused();
    assert!(c.is_cluster_paused());
    c.resume_cluster();
    assert!(!c.is_cluster_paused());
}

#[test]
fn a_paused_cluster_does_not_tick() {
    let mut c = WasmCluster::new(3, 0);
    c.pause_cluster();
    c.trigger_election(1, 0);
    assert!(c.get_state().nodes.iter().all(|n| n.term == 0 && n.role == "Follower"));
    // One node alone can be moved on.
    for _ in 0..20 {
        c.tick_node(1, 0);
    }
    let state = c.get_state();
    assert_eq!(state.nodes[0].role, "Candidate");
    assert_eq!(state.nodes[1].term, 0);
    assert!(state.nodes[1].pending_count > 0);
}

#[test]
fn entries_are_submitted_to_the_leader_and_shown() {
    let mut c = WasmCluster::new(3, 0);
    assert!(!c.submit_entry("k", "v", 0));
    let mut tries = 0;
    while !c.get_state().nodes.iter().any(|n| n.role == "Leader") {
        c.trigger_election(1, 0);
        c.tick(0);
        c.tick(0);
        tries += 1;
        assert!(tries < 20, "no leader");
    }
    assert!(c.submit_entry("k\u{e9}y", "v", 9));
    for _ in 0..3 {
        c.tick(10);
    }
    let leader = c.get_state().nodes.iter().find(|n| n.role == "Leader").unwrap().id;
    let log = c.get_node_logs(leader).unwrap();
    let last = log.last().unwrap();
    assert_eq!(last.data, "k\u{e9}y:v");
    assert!(last.is_committed);
    assert_eq!(last.index, log.len() as u64);
    assert!(c.get_node_logs(9).is_none());
    // A paused leader is not asked.
    c.pause_node(leader);
    let state = c.get_state();
    assert_eq!(state.nodes[leader as usize - 1].role, "Crashed");
    assert!(state.nodes[leader as usize - 1].paused);
    assert!(!c.submit_entry("a", "b", 0));
    c.toggle_node(leader);
    assert!(c.submit_entry("a", "b", 0));
    c.resume_node(leader);
}

#[test]
fn bytes_that_are_no_text_are_shown_all_the_same() {
    let mut c = WasmCluster::new(1, 0);
    let entry = rafty::proto::Entry { term: 1, index: 1, data: vec![0x61, 0xff] };
    c.cluster.get_mut(1).storage.store.append(vec![entry]).unwrap();
    let log = c.get_node_logs(1).unwrap();
    assert_eq!(log[0].data, "a\u{fffd}");
    assert!(!log[0].is_committed);
}

#[test]
fn controls_remember_what_they_are_set_to() {
    let mut c = WasmCluster::new(2, 0);
    assert!(!c.set_tick_rate(250));
    assert_eq!(c.start(), 250);
    assert!(c.set_tick_rate(300));
    c.stop();
    assert!(!c.set_tick_rate(400));
    assert_eq!(c.get_tick_rate(), 400);
}

#[test]
fn a_reset_starts_over() {
    let mut c = WasmCluster::new(3, 50);
    c.start();
    c.pause_node(2);
    c.trigger_election(1, 0);
    c.pause_cluster();
    c.reset();
    assert!(!c.is_cluster_paused());
    let state = c.get_state();
    assert_eq!(state.nodes.len(), 3);
    assert!(state.nodes.iter().all(|n| n.term == 0 && n.role == "Follower" && !n.paused));
    assert!(state.messages.is_empty());
    assert_eq!(state.tick_rate_ms, 500);
    assert!(!c.is_running);
    assert_eq!(c.cluster.nodes[0].channel.channels[0].drop_rate, FaultRate(100));
    // What is sent then is shown again.
    c.trigger_election(1, 5);
    assert_eq!(c.get_new_messages().len(), 2);
}

#[test]
fn a_forced_election_starts_with_the_named_node() {
    let mut c = WasmCluster::new(4, 0);
    c.trigger_election(3, 8);
    let state = c.get_state();
    let roles: Vec<&str> = state.nodes.iter().map(|n| n.role.as_str()).collect();
    assert_eq!(roles, vec!["Follower", "Follower", "Candidate", "Follower"]);
    let ends: Vec<(u64, u64)> = state.messages.iter().map(|m| (m.from, m.to)).collect();
    assert_eq!(ends, vec![(3, 1), (3, 2), (3, 4)]);
    // A paused node does not campaign, nor one that is not there.
    c.pause_node(2);
    c.trigger_election(2, 9);
    c.trigger_election(7, 9);
    assert!(c.get_new_messages().is_empty());
    // With a leader another node can still be made to campaign.
    c.tick(10);
    c.tick(11);
    assert_eq!(c.get_state().nodes[2].role, "Leader");
    c.trigger_election(3, 12);
    assert!(c.get_new_messages().is_empty());
    c.trigger_election(1, 12);
    assert_eq!(c.get_state().nodes[0].role, "Candidate");
}

#[test]
fn started_clusters_are_connected() {
    let mut c = WasmCluster::new(4, 0);
    c.trigger_election(2, 0);
    c.reset();
    for from in 1..=4u64 {
        for to in 1..=4u64 {
            c.cluster.get_mut(from).channel.send(ProtoMessage {
                from,
                to,
                ..Default::default()
            });
        }
    }
    for to in 1..=4u64 {
        let node = c.cluster.get_mut(to);
        assert_eq!(node.channel.id, to - 1);
        for from in 1..=4u64 {
            let msg = node.channel.try_recv().unwrap();
            assert_eq!((msg.from, msg.to), (from, to));
        }
        assert!(node.channel.try_recv().is_none());
    }
}
