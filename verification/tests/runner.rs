use rafty::node_id::ValidNodeId;
use rafty::driver::ConfigChange;
use rafty::runner::{
    first_config, listen_address, peer_addresses, peers_of, restart_config, restart_steps,
    RestartStep,
};

#[test]
fn nodes_listen_next_to_each_other() {
    assert_eq!(listen_address(3), "127.0.0.1:9003");
    let all = peer_addresses(2);
    let text = |s: &str| Some(s.to_string());
    assert_eq!(all, vec![None, text("127.0.0.1:9001"), text("127.0.0.1:9002")]);
    assert_eq!(peers_of(&all, 1), vec![None, None, text("127.0.0.1:9002")]);
    assert_eq!(peers_of(&all, 7), all);
}

#[test]
fn a_restarted_node_knows_where_its_log_ends() {
    let id = ValidNodeId::new(2).unwrap();
    let first = first_config(id, 5);
    assert_eq!((first.id.get(), first.cluster_size), (2, 5));
    assert_eq!(first.ticks_between_heartbeats.get(), 2);
    assert!(first.last_applied_idx.is_none());
    let again = restart_config(id, 5, 8);
    assert_eq!(again.min_ticks_before_election.get(), 100);
    assert_eq!(again.max_ticks_before_election.get(), 200);
    assert_eq!(again.ticks_between_heartbeats.get(), 20);
    assert_eq!(again.last_applied_idx.unwrap().get(), 8);
    assert!(restart_config(id, 5, 0).last_applied_idx.is_none());
}

#[test]
fn a_cluster_is_restarted_in_order() {
    assert_eq!(
        restart_steps(2, 700),
        vec![
            RestartStep::Tell(ConfigChange::Shutdown(true)),
            RestartStep::Await(1),
            RestartStep::Await(2),
            RestartStep::Clear(1),
            RestartStep::Clear(2),
            RestartStep::Show,
            RestartStep::Start(1),
            RestartStep::Start(2),
            RestartStep::Tell(ConfigChange::TickInterval(700)),
        ]
    );
}
