use rafty::communication::Channel;
use rafty::driver::{recipients, ConfigChange, DriverChannel, DriverEvent, RaftDriver};
use rafty::node::Node;
use rafty::node_id::ValidNodeId;
use rafty::options::process_config;
use rafty::proto::{Heartbeat, Message, ProtoMessage, ProtoMessageType};
use rafty::rng::DeterministicRng;
use rafty::storage::MemStorage;
use std::sync::mpsc::{channel, Receiver, Sender};

type Driver = RaftDriver<MemStorage, DeterministicRng>;

fn driver(id: u64) -> (Driver, Receiver<ProtoMessage>, Sender<ProtoMessage>) {
    let (out_tx, out_rx) = channel();
    let (in_tx, in_rx) = channel();
    let valid = ValidNodeId::new(id).unwrap();
    let node = Node::new(
        valid,
        MemStorage::new(),
        DriverChannel::new(out_tx),
        DeterministicRng::new(5),
        process_config(valid, 2),
    );
    (RaftDriver::new(node, in_rx, 500), out_rx, in_tx)
}

#[test]
fn changes_are_applied_to_the_node_they_are_meant_for() {
    let (mut d, _out, _in) = driver(2);
    let pause = |target_id, paused| ConfigChange::Pause { target_id, paused };
    assert!(d.apply(pause(Some(3), true)).is_none());
    assert!(!d.paused);
    assert!(matches!(
        d.apply(pause(Some(2), true)),
        Some(DriverEvent::Paused { id: 2, paused: true })
    ));
    assert!(d.paused);
    assert!(!d.tick());
    assert!(matches!(
        d.apply(pause(None, false)),
        Some(DriverEvent::Paused { id: 2, paused: false })
    ));
    assert!(d.tick());
    assert!(matches!(
        d.apply(ConfigChange::TickInterval(250)),
        Some(DriverEvent::TickInterval { id: 2, interval_ms: 250 })
    ));
    assert_eq!(d.tick_interval, 250);
    assert!(matches!(
        d.apply(ConfigChange::Shutdown(true)),
        Some(DriverEvent::Shutdown { id: 2, shutdown: true })
    ));
    assert!(!d.tick());
}

#[test]
fn messages_are_handled_and_answered() {
    let (mut d, out, inbox) = driver(2);
    assert!(d.poll().is_none());
    let beat = Message::Heartbeat(Heartbeat {
        to: 0,
        from: 1,
        term: 4,
        commit: 0,
        last_index: 0,
        last_term: 0,
    })
    .into_proto();
    inbox.send(beat.clone()).unwrap();
    match d.poll() {
        Some(DriverEvent::MessageReceived(m)) => assert_eq!(m, beat),
        _ => panic!("a message should have come in"),
    }
    let reply = out.try_recv().unwrap();
    assert_eq!(reply.msg_type, ProtoMessageType::HeartbeatResponse);
    assert_eq!((reply.to, reply.from, reply.term), (1, 2, 4));
    match d.state_event() {
        DriverEvent::StateChanged { id, term, voted_for, leader_id, role } => {
            assert_eq!((id, term, voted_for, leader_id), (2, 4, 0, 1));
            assert_eq!(role, "Follower");
        }
        _ => panic!("the state should be told"),
    }
}

#[test]
fn messages_of_nobody_are_dropped() {
    let (mut d, out, inbox) = driver(2);
    inbox.send(ProtoMessage { term: 9, ..Default::default() }).unwrap();
    assert!(d.poll().is_some());
    assert_eq!(d.node.term, 0);
    assert!(out.try_recv().is_err());
}

#[test]
fn broadcasts_have_no_addressee() {
    let (tx, rx) = channel();
    let mut c = DriverChannel::new(tx);
    assert!(!c.can_reach(0));
    assert!(c.can_reach(7));
    c.broadcast(ProtoMessage::default());
    c.send(ProtoMessage { to: 3, ..Default::default() });
    assert_eq!(rx.try_recv().unwrap().to, 0);
    assert_eq!(rx.try_recv().unwrap().to, 3);
}

#[test]
fn messages_go_to_all_or_to_one() {
    let peers = vec![1, 3, 5];
    assert_eq!(recipients(0, &peers), peers);
    assert_eq!(recipients(3, &peers), vec![3]);
    assert!(recipients(2, &peers).is_empty());
}

#[test]
fn a_paused_driver_leaves_its_messages_where_they_are() {
    let (mut d, _out, inbox) = driver(2);
    inbox.send(ProtoMessage { from: 1, term: 3, ..Default::default() }).unwrap();
    d.apply(ConfigChange::Pause { target_id: None, paused: true });
    assert!(d.poll().is_none());
    assert_eq!(d.node.term, 0);
    d.apply(ConfigChange::Pause { target_id: None, paused: false });
    assert!(d.poll().is_some());
    assert_eq!(d.node.term, 3);
    inbox.send(ProtoMessage { from: 1, term: 4, ..Default::default() }).unwrap();
    d.apply(ConfigChange::Shutdown(true));
    assert!(d.poll().is_none());
    assert_eq!(d.node.term, 3);
}

#[test]
fn clones_write_to_the_same_queue() {
    let (tx, rx) = channel();
    let mut a = DriverChannel::new(tx);
    let mut b = a.clone();
    a.send(ProtoMessage { to: 1, ..Default::default() });
    b.send(ProtoMessage { to: 2, ..Default::default() });
    let to: Vec<u64> = rx.try_iter().map(|m| m.to).collect();
    assert_eq!(to, vec![1, 2]);
}
