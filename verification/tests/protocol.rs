use rafty::cluster::{handle_all, Cluster, TestNode};
use rafty::communication::Channel;
use rafty::error::Error;
use rafty::network::{FaultRate, FaultyChannel, NO_FAULT, ONLY_FAULT};
use rafty::node_id::{NodeId, ValidNodeId};
use rafty::proto::{
    Append, AppendResponse, Entry, Heartbeat, Message, ProtoMessage, ProtoMessageType, RequestVote,
    RequestVoteResponse,
};
use rafty::rng::{DefaultRng, DeterministicRng, RngProvider};
use rafty::role::Role;
use rafty::storage::Storage;
use std::collections::HashSet;
use std::sync::mpsc::channel;

fn three() -> Cluster<DeterministicRng> {
    Cluster::from_config_with_rng(
        Cluster::initial_config(3),
        FaultRate(NO_FAULT),
        DeterministicRng::new(11),
    )
}

/// A cluster of three whose first node was just elected in term 1.
fn elected() -> Cluster<DeterministicRng> {
    let mut cluster = three();
    cluster.get_mut(1).step(Message::StartCampaign).unwrap();
    while cluster.step() > 0 {}
    cluster
}

fn entry(term: u64, index: u64) -> Entry {
    Entry { term, index, data: vec![index as u8] }
}

fn append(term: u64, last_index: u64, last_term: u64, commit: u64, entries: Vec<Entry>) -> Message {
    Message::Append(Append {
        to: 2,
        from: 1,
        leader_term: term,
        leader_commit: commit,
        last_index,
        last_term,
        entries,
    })
}

fn inbox(node: &TestNode<DeterministicRng>) -> Vec<ProtoMessage> {
    let mut all = Vec::new();
    while let Ok(msg) = node.channel.recv.try_recv() {
        all.push(msg);
    }
    all
}

#[test]
fn a_new_leader_commits_an_entry_of_its_own() {
    let cluster = elected();
    let leader = cluster.get(1);
    assert!(matches!(leader.role, Role::Leader(_)));
    assert_eq!(leader.leader_id, NodeId::from(1));
    assert_eq!(leader.storage.store.last_index(), 1);
    assert_eq!(leader.storage.store.entries(1, 2).unwrap()[0].data, Vec::<u8>::new());
    assert_eq!(leader.storage.committed, 1);
    assert_eq!(cluster.get(2).storage.store.last_index(), 1);
    assert_eq!(cluster.get(2).storage.committed, 0);
}

#[test]
fn a_proposal_is_replicated_and_committed() {
    let mut cluster = elected();
    assert!(!cluster.get_mut(2).propose_entry(vec![1]));
    assert!(cluster.get_mut(1).propose_entry(vec![9]));
    while cluster.step() > 0 {}
    assert_eq!(cluster.get(1).storage.committed, 2);
    for id in 1..=3 {
        assert_eq!(cluster.get(id).storage.store.entries(2, 3).unwrap()[0].data, vec![9]);
    }
    // The others learn of it with the next heartbeat.
    cluster.get_mut(1).tick();
    while cluster.step() > 0 {}
    for id in 1..=3 {
        assert_eq!(cluster.get(id).storage.committed, 2);
    }
}

#[test]
fn a_submission_sends_the_new_entry_alone() {
    let mut cluster = elected();
    assert!(cluster.get_mut(1).submit_entry(vec![4]));
    let sent = inbox(cluster.get(2));
    assert_eq!(sent.len(), 1);
    assert_eq!(sent[0].msg_type, ProtoMessageType::AppendEntries);
    assert_eq!((sent[0].last_index, sent[0].last_term), (1, 1));
    assert_eq!(sent[0].entries, vec![Entry { term: 1, index: 2, data: vec![4] }]);
    assert!(!cluster.get_mut(3).submit_entry(vec![4]));
}

#[test]
fn votes_of_an_earlier_term_do_not_count() {
    let mut cluster = three();
    let node = cluster.get_mut(1);
    node.step(Message::StartCampaign).unwrap();
    node.step(Message::StartCampaign).unwrap();
    assert_eq!(node.term, 2);
    node.step(Message::RequestVoteResponse(RequestVoteResponse {
        to: 1,
        from: 2,
        voted_for: 1,
        term: 1,
    }))
    .unwrap();
    assert!(matches!(node.role, Role::Candidate(_)));
    node.step(Message::RequestVoteResponse(RequestVoteResponse {
        to: 1,
        from: 2,
        voted_for: 1,
        term: 2,
    }))
    .unwrap();
    assert!(matches!(node.role, Role::Leader(_)));
}

#[test]
fn a_lost_election_makes_a_follower() {
    let mut cluster = three();
    let node = cluster.get_mut(1);
    node.step(Message::StartCampaign).unwrap();
    for from in [2, 3] {
        node.step(Message::RequestVoteResponse(RequestVoteResponse {
            to: 1,
            from,
            voted_for: 3,
            term: 1,
        }))
        .unwrap();
    }
    assert!(matches!(node.role, Role::Follower(_)));
    assert_eq!(node.voted_for, NodeId::from(1));
}

#[test]
fn a_node_votes_once_in_a_term() {
    let mut cluster = three();
    let ask = |from: u64, term: u64| {
        Message::RequestVote(RequestVote {
            to: 0,
            from,
            candidate_term: term,
            last_index: 0,
            last_term: 0,
        })
    };
    let voter = cluster.get_mut(2);
    voter.step(ask(1, 5)).unwrap();
    voter.step(ask(3, 5)).unwrap();
    assert_eq!(voter.voted_for, NodeId::from(1));
    voter.step(ask(3, 4)).unwrap();
    assert_eq!((voter.term, voter.voted_for), (5, NodeId::from(1)));
    voter.step(ask(3, 6)).unwrap();
    assert_eq!((voter.term, voter.voted_for), (6, NodeId::from(3)));
    let answers: Vec<u64> = inbox(cluster.get(3)).iter().map(|m| m.voted_for).collect();
    assert_eq!(answers, vec![1, 0, 3]);
}

#[test]
fn a_candidate_that_hears_a_leader_keeps_its_vote() {
    let mut cluster = three();
    let node = cluster.get_mut(1);
    node.step(Message::StartCampaign).unwrap();
    node.step(Message::Heartbeat(Heartbeat {
        to: 0,
        from: 2,
        term: 1,
        commit: 0,
        last_index: 0,
        last_term: 0,
    }))
    .unwrap();
    assert!(matches!(node.role, Role::Follower(_)));
    assert_eq!((node.voted_for, node.leader_id), (NodeId::from(1), NodeId::from(2)));
}

#[test]
fn a_leader_beats_at_its_interval() {
    let mut config = Cluster::initial_config(3);
    config.ticks_between_heartbeats = rafty::nonzero::NonZeroU64::new(3).unwrap();
    let mut cluster =
        Cluster::from_config_with_rng(config, FaultRate(NO_FAULT), DeterministicRng::new(2))
            .with_leader(ValidNodeId::new(1).unwrap());
    let mut beats = Vec::new();
    for _ in 0..7 {
        cluster.get_mut(1).tick();
        beats.push(inbox(cluster.get(2)).len());
    }
    assert_eq!(beats, vec![0, 0, 1, 0, 0, 1, 0]);
}

#[test]
fn entries_that_leave_a_gap_are_an_error() {
    let mut cluster = three();
    let result = cluster.get_mut(2).step(append(1, 0, 0, 0, vec![entry(1, 2)]));
    assert_eq!(result, Err(Error::InvalidIdx(2)));
    assert!(inbox(cluster.get(1)).is_empty());
}

#[test]
fn an_append_restarts_the_wait_of_a_follower() {
    let mut cluster = three();
    let node = cluster.get_mut(2);
    for _ in 0..5 {
        node.tick();
    }
    node.step(append(1, 0, 0, 0, vec![])).unwrap();
    match &node.role {
        Role::Follower(state) => assert_eq!(state.ticks_since_last_msg, 0),
        _ => panic!("still a follower"),
    }
}

#[test]
fn only_matched_entries_are_committed() {
    let mut cluster = three();
    let node = cluster.get_mut(2);
    node.storage.store.append(vec![entry(1, 1), entry(1, 2), entry(1, 3)]).unwrap();
    // The leader vouches for the first entry only.
    node.step(append(2, 1, 1, 3, vec![])).unwrap();
    assert_eq!(node.storage.committed, 1);
    // What is committed is never taken back.
    node.step(append(2, 1, 1, 0, vec![])).unwrap();
    assert_eq!(node.storage.committed, 1);
    let replies = inbox(cluster.get(1));
    assert_eq!(replies.len(), 2);
    assert!(replies[0].success);
    assert_eq!(replies[0].last_index, 1);
}

#[test]
fn a_refusal_tells_where_the_log_ends() {
    let mut cluster = three();
    cluster.get_mut(2).storage.store.append(vec![entry(1, 1)]).unwrap();
    cluster.get_mut(2).step(append(1, 4, 1, 0, vec![])).unwrap();
    let replies = inbox(cluster.get(1));
    assert!(!replies[0].success);
    assert_eq!(replies[0].last_index, 1);
}

#[test]
fn a_failed_append_is_sent_again_from_further_back() {
    let mut cluster = elected();
    for _ in 0..2 {
        cluster.get_mut(1).propose_entry(vec![5]);
    }
    while cluster.step() > 0 {}
    cluster
        .get_mut(1)
        .step(Message::AppendResponse(AppendResponse {
            to: 1,
            from: 2,
            term: 1,
            success: false,
            last_index: 3,
        }))
        .unwrap();
    let sent = inbox(cluster.get(2));
    assert_eq!(sent.len(), 1);
    assert_eq!((sent[0].last_index, sent[0].entries.len()), (2, 1));
}

#[test]
fn messages_that_cannot_be_handled_are_dropped() {
    let mut cluster = elected();
    let leader = cluster.get_mut(1);
    assert!(!leader.is_ready_for(&Message::StartCampaign));
    assert!(leader.is_ready_to_tick());
    assert!(leader.is_ready_to_propose());
    // Nobody has the number nine.
    let stranger = ProtoMessage {
        msg_type: ProtoMessageType::RequestVote,
        from: 9,
        term: 7,
        ..Default::default()
    };
    assert!(leader.receive(stranger).is_none());
    assert_eq!(leader.term, 1);
    let known = ProtoMessage {
        msg_type: ProtoMessageType::RequestVote,
        from: 3,
        term: 7,
        last_index: 1,
        last_term: 1,
        ..Default::default()
    };
    assert_eq!(leader.receive(known), Some(Ok(())));
    assert_eq!((leader.term, leader.voted_for), (7, NodeId::from(3)));
}

#[test]
fn draws_stay_in_their_range() {
    let mut fresh = DefaultRng;
    let mut seeded = DeterministicRng::new(1);
    let mut seen = [false; 3];
    for _ in 0..200 {
        assert!((5..8).contains(&fresh.random_range(5, 8)));
        let n = seeded.random_range(5, 8);
        assert!((5..8).contains(&n));
        seen[(n - 5) as usize] = true;
    }
    assert_eq!(seen, [true; 3]);
}

#[test]
fn a_seed_gives_the_same_draws_again() {
    let draw = |seed: u64| -> Vec<u64> {
        let mut rng = DeterministicRng::new(seed);
        (0..20).map(|_| rng.random_range(0, 1_000_000)).collect()
    };
    assert_eq!(draw(7), draw(7));
    assert_ne!(draw(7), draw(8));
}

#[test]
fn clones_share_one_generator() {
    let mut a = DeterministicRng::new(7);
    let mut b = a.clone();
    let mut single = DeterministicRng::new(7);
    for _ in 0..10 {
        assert_eq!(a.random_range(0, 1_000_000), single.random_range(0, 1_000_000));
        assert_eq!(b.random_range(0, 1_000_000), single.random_range(0, 1_000_000));
    }
}

#[test]
fn rates_decide_what_gets_through() {
    let (tx, rx) = channel();
    let mut sure = FaultyChannel::new(&tx, FaultRate(NO_FAULT), DefaultRng);
    let mut never = FaultyChannel::new(&tx, FaultRate(ONLY_FAULT), DefaultRng);
    for i in 0..50 {
        never.send(ProtoMessage { term: 1000 + i, ..Default::default() });
        sure.send(ProtoMessage { term: i, ..Default::default() });
    }
    let got: Vec<u64> = rx.try_iter().map(|m| m.term).collect();
    assert_eq!(got, (0..50).collect::<Vec<u64>>());
    assert!(FaultRate(40).delivers(40));
    assert!(!FaultRate(40).delivers(41));
}

#[test]
fn channels_keep_what_is_observed() {
    let mut cluster = three();
    let c = &mut cluster.get_mut(1).channel;
    c.send(ProtoMessage { to: 2, term: 1, ..Default::default() });
    assert!(c.take_observed().is_empty());
    c.observe_messages();
    c.send(ProtoMessage { to: 2, term: 2, ..Default::default() });
    c.broadcast(ProtoMessage { term: 3, ..Default::default() });
    let terms: Vec<u64> = c.take_observed().iter().map(|m| m.term).collect();
    assert_eq!(terms, vec![2, 3, 3]);
    assert!(c.take_observed().is_empty());
    assert!(c.can_reach(3) && !c.can_reach(4) && !c.can_reach(0));
    assert!(c.try_recv().is_none());
    assert_eq!(cluster.get_mut(2).channel.try_recv().unwrap().term, 1);
}

#[test]
fn what_is_drawn_decides_what_gets_through() {
    let (tx, rx) = channel();
    let mut c = FaultyChannel::new(&tx, FaultRate(40), DefaultRng);
    for draw in [1, 40, 41, 100] {
        c.send_drawn(ProtoMessage { term: draw, ..Default::default() }, draw);
    }
    let got: Vec<u64> = rx.try_iter().map(|m| m.term).collect();
    assert_eq!(got, vec![1, 40]);
}

#[test]
fn arrivals_are_taken_by_those_they_are_for() {
    let mut cluster = three();
    let msg = |term: u64| {
        Some(ProtoMessage { msg_type: ProtoMessageType::Heartbeat, from: 1, term, ..Default::default() })
    };
    assert_eq!(cluster.take_arrivals(vec![None, msg(4), None]), 1);
    assert_eq!(cluster.nodes.iter().map(|n| n.term).collect::<Vec<u64>>(), vec![0, 4, 0]);
    cluster.take_arrivals_filter(vec![None, msg(5), msg(6)], |id| id.to_u64() == 3);
    assert_eq!(cluster.nodes.iter().map(|n| n.term).collect::<Vec<u64>>(), vec![0, 4, 6]);
}

#[test]
fn what_paused_nodes_sent_is_discarded() {
    let mut cluster = three();
    let msg = |from: u64, term: u64| {
        ProtoMessage { msg_type: ProtoMessageType::Heartbeat, from, term, ..Default::default() }
    };
    let paused = HashSet::from([3u64]);
    handle_all(cluster.get_mut(2), vec![msg(3, 9), msg(1, 2), msg(3, 8)], &paused);
    assert_eq!((cluster.get(2).term, cluster.get(2).leader_id.to_u64()), (2, 1));
}

#[test]
fn a_silent_follower_campaigns_again_and_again() {
    let mut cluster = three();
    let node = cluster.get_mut(1);
    let first = node.election_timeout;
    for _ in 1..first {
        node.tick();
        assert!(matches!(node.role, Role::Follower(_)) && node.term == 0);
    }
    node.tick();
    assert!(matches!(node.role, Role::Candidate(_)) && node.term == 1);
    let second = node.election_timeout;
    for _ in 1..second {
        node.tick();
        assert_eq!(node.term, 1);
    }
    node.tick();
    assert!(matches!(node.role, Role::Candidate(_)) && node.term == 2);
}

#[test]
fn a_vote_stays_spent_after_a_heartbeat() {
    let mut cluster = three();
    let node = cluster.get_mut(1);
    node.start_campaign();
    let term = node.term;
    node.step(Message::from(ProtoMessage {
        msg_type: ProtoMessageType::Heartbeat,
        from: 2,
        term,
        ..Default::default()
    }))
    .unwrap();
    assert!(matches!(node.role, Role::Follower(_)));
    node.step(Message::from(ProtoMessage {
        msg_type: ProtoMessageType::RequestVote,
        from: 3,
        term,
        ..Default::default()
    }))
    .unwrap();
    assert_eq!((node.voted_for.to_u64(), node.leader_id.to_u64()), (1, 2));
}
