use rafty::cluster::Cluster;
use rafty::communication::Channel;
use rafty::network::{FaultRate, NO_FAULT};
use rafty::proto::{Heartbeat, Message};

const TEST_CLUSTER_SIZE: u64 = 7;

/// Makes sure that node channels are correctly configured.
#[test]
fn inter_node_communication() {
    let heartbeat = |from: u64, to: u64| {
        Message::Heartbeat(Heartbeat {
            to,
            from,
            term: 0,
            last_term: 0,
            last_index: 0,
            commit: 0,
        })
        .into_proto()
    };
    let mut cluster = Cluster::from_config(Cluster::initial_config(TEST_CLUSTER_SIZE), FaultRate(NO_FAULT));

    for from in 1..=TEST_CLUSTER_SIZE {
        for to in 1..=TEST_CLUSTER_SIZE {
            cluster.nodes[from as usize - 1].channel.send(heartbeat(from, to));
        }
    }

    for node in &cluster.nodes {
        for _ in 0..TEST_CLUSTER_SIZE {
            node.channel.recv.try_recv().expect("Node should have received one message from every node");
        }
    }
}
