//! How the nodes of a cluster on one machine are set up and set up again.
use vstd::prelude::*;

use vstd::string::StringExecFns;

use crate::config::InitialConfig;
use crate::driver::ConfigChange;
use crate::node_id::ValidNodeId;
use crate::nonzero::{nonzero_of, NonZeroU64};
use crate::text::{decimal, decimal_of, law_decimal_round_trip};

verus! {

/// The port below the one of the first node.
pub const BASE_PORT: u64 = 9000;

/// The address at which node `id` listens.
pub open spec fn listen_address_of(id: u64) -> Seq<char> {
    "127.0.0.1:"@ + decimal_of((BASE_PORT + id) as nat)
}

/// The address at which node `id` listens.
pub fn listen_address(id: u64) -> (r: String)
    requires
        BASE_PORT + id <= u64::MAX,
    ensures
        r@ == listen_address_of(id),
{
    let mut s = "127.0.0.1:".to_owned();
    let port = decimal(BASE_PORT + id);
    s.append(port.as_str());
    s
}

/// The addresses as mathematical values.
pub open spec fn addresses_of(addresses: Seq<Option<String>>) -> Seq<Option<Seq<char>>> {
    Seq::new(
        addresses.len(),
        |i: int|
            match addresses[i] {
                Some(s) => Some(s@),
                None => None,
            },
    )
}

/// The addresses of a cluster of `size` nodes. Node `id` stands at position
/// `id`, and nothing at position 0.
pub fn peer_addresses(size: u64) -> (r: Vec<Option<String>>)
    requires
        BASE_PORT + size <= u64::MAX,
        size < usize::MAX,
    ensures
        addresses_of(r@) == Seq::new(
            (size + 1) as nat,
            |i: int|
                if i == 0 {
                    None
                } else {
                    Some(listen_address_of(i as u64))
                },
        ),
{
    let mut out: Vec<Option<String>> = Vec::new();
    out.push(None);
    let mut id: u64 = 0;
    while id < size
        invariant
            id <= size,
            BASE_PORT + size <= u64::MAX,
            out@.len() == id + 1,
            out@[0] is None,
            forall|j: int|
                1 <= j <= id ==> (#[trigger] out@[j] matches Some(s) && s@ == listen_address_of(
                    j as u64,
                )),
        decreases size - id,
    {
        id = id + 1;
        out.push(Some(listen_address(id)));
    }
    proof {
        let wanted = Seq::new(
            (size + 1) as nat,
            |i: int|
                if i == 0 {
                    None
                } else {
                    Some(listen_address_of(i as u64))
                },
        );
        let given = addresses_of(out@);
        assert forall|j: int| 0 <= j < wanted.len() implies #[trigger] given[j] == wanted[j] by {
            if j > 0 {
                assert(out@[j] is Some);
            }
        }
        assert(given =~= wanted);
    }
    out
}

/// The addresses of all nodes but node `id`.
pub fn peers_of(addresses: &Vec<Option<String>>, id: u64) -> (r: Vec<Option<String>>)
    ensures
        addresses_of(r@) == if id < addresses@.len() {
            addresses_of(addresses@).update(id as int, None)
        } else {
            addresses_of(addresses@)
        },
{
    let mut out: Vec<Option<String>> = Vec::new();
    let mut i: usize = 0;
    while i < addresses.len()
        invariant
            i <= addresses@.len(),
            out@.len() == i,
            forall|j: int|
                0 <= j < i ==> #[trigger] addresses_of(out@)[j] == if j == id {
                    None
                } else {
                    addresses_of(addresses@)[j]
                },
        decreases addresses@.len() - i,
    {
        let ghost before = out@;
        if i as u64 == id {
            out.push(None);
        } else {
            match &addresses[i] {
                Some(s) => out.push(Some(s.clone())),
                None => out.push(None),
            }
        }
        proof {
            assert forall|j: int| 0 <= j < i + 1 implies #[trigger] addresses_of(out@)[j] == if j
                == id {
                None
            } else {
                addresses_of(addresses@)[j]
            } by {
                if j < i {
                    assert(addresses_of(out@)[j] == addresses_of(before)[j]);
                }
            }
        }
        i = i + 1;
    }
    assert(addresses_of(out@) =~= if id < addresses@.len() {
        addresses_of(addresses@).update(id as int, None)
    } else {
        addresses_of(addresses@)
    });
    out
}

/// The configuration of node `id` as a cluster of `size` nodes first starts.
pub fn first_config(id: ValidNodeId, size: u64) -> (r: InitialConfig)
    ensures
        r.id == id,
        r.cluster_size == size,
        r.min_ticks_before_election@ == 10,
        r.max_ticks_before_election@ == 20,
        r.ticks_between_heartbeats@ == 2,
        r.last_applied_idx is None,
{
    InitialConfig {
        id,
        cluster_size: size,
        min_ticks_before_election: NonZeroU64::new(10).unwrap(),
        max_ticks_before_election: NonZeroU64::new(20).unwrap(),
        ticks_between_heartbeats: NonZeroU64::new(2).unwrap(),
        last_applied_idx: None,
    }
}

/// The configuration of node `id` of `size` nodes as it is started again with a
/// log that ends at `last_index`. It waits longer than one that first starts.
pub fn restart_config(id: ValidNodeId, size: u64, last_index: u64) -> (r: InitialConfig)
    ensures
        r.id == id,
        r.cluster_size == size,
        r.min_ticks_before_election@ == 100,
        r.max_ticks_before_election@ == 200,
        r.ticks_between_heartbeats@ == 20,
        r.last_applied_idx == nonzero_of(last_index),
        r.last_applied_idx is Some <==> last_index > 0,
        r.last_applied_idx matches Some(n) ==> n@ == last_index,
{
    InitialConfig {
        id,
        cluster_size: size,
        min_ticks_before_election: NonZeroU64::new(100).unwrap(),
        max_ticks_before_election: NonZeroU64::new(200).unwrap(),
        ticks_between_heartbeats: NonZeroU64::new(20).unwrap(),
        last_applied_idx: NonZeroU64::new(last_index),
    }
}

/// One thing to do when a whole cluster is started anew.
#[derive(Debug, Clone, Copy, PartialEq, Eq, Structural)]
pub enum RestartStep {
    /// Tell all drivers.
    Tell(ConfigChange),
    /// Wait until the driver of the node has ended.
    Await(u64),
    /// Empty the log of the node.
    Clear(u64),
    /// Show the cluster as it starts.
    Show,
    /// Start the node.
    Start(u64),
}

/// What is done with a node in one round of a restart.
pub open spec fn round(stage: int, id: u64) -> RestartStep {
    if stage == 0 {
        RestartStep::Await(id)
    } else if stage == 1 {
        RestartStep::Clear(id)
    } else {
        RestartStep::Start(id)
    }
}

/// One round of a restart: what is done with each node, in order.
pub open spec fn rounds(stage: int, size: u64) -> Seq<RestartStep> {
    Seq::new(size as nat, |i: int| round(stage, (i + 1) as u64))
}

/// How a cluster of `size` nodes is started anew: all drivers are told to shut
/// down and have ended before a log is emptied, all logs are empty before a
/// node is started, and the new drivers are told to tick at `tick_rate_ms`.
pub open spec fn restart_steps_of(size: u64, tick_rate_ms: u64) -> Seq<RestartStep> {
    seq![RestartStep::Tell(ConfigChange::Shutdown(true))] + rounds(0, size) + rounds(1, size)
        + seq![RestartStep::Show] + rounds(2, size) + seq![
        RestartStep::Tell(ConfigChange::TickInterval(tick_rate_ms)),
    ]
}

/// Adds one round of a restart.
fn add_round(steps: &mut Vec<RestartStep>, stage: u8, size: u64)
    requires
        stage <= 2,
    ensures
        final(steps)@ == old(steps)@ + rounds(stage as int, size),
{
    let ghost before = steps@;
    let mut id: u64 = 0;
    assert(before + rounds(stage as int, 0) =~= before);
    while id < size
        invariant
            id <= size,
            stage <= 2,
            steps@ == before + rounds(stage as int, id),
        decreases size - id,
    {
        id = id + 1;
        steps.push(
            if stage == 0 {
                RestartStep::Await(id)
            } else if stage == 1 {
                RestartStep::Clear(id)
            } else {
                RestartStep::Start(id)
            },
        );
        assert(before + rounds(stage as int, id) =~= (before + rounds(
            stage as int,
            (id - 1) as u64,
        )).push(round(stage as int, id)));
    }
}

/// How a cluster of `size` nodes is started anew.
pub fn restart_steps(size: u64, tick_rate_ms: u64) -> (r: Vec<RestartStep>)
    ensures
        r@ == restart_steps_of(size, tick_rate_ms),
{
    let mut steps: Vec<RestartStep> = Vec::new();
    steps.push(RestartStep::Tell(ConfigChange::Shutdown(true)));
    assert(steps@ =~= seq![RestartStep::Tell(ConfigChange::Shutdown(true))]);
    add_round(&mut steps, 0, size);
    add_round(&mut steps, 1, size);
    steps.push(RestartStep::Show);
    add_round(&mut steps, 2, size);
    steps.push(RestartStep::Tell(ConfigChange::TickInterval(tick_rate_ms)));
    assert(steps@ =~= restart_steps_of(size, tick_rate_ms));
    steps
}

/// A restart keeps its order: all drivers are told to shut down before anything
/// else, every driver has ended before a log is emptied, every log is empty
/// before a node is started, every node has its turn in each, and the rate
/// comes last.
pub proof fn law_restart_keeps_its_order(size: u64, tick_rate_ms: u64, id: u64)
    requires
        1 <= id <= size,
    ensures
        ({
            let steps = restart_steps_of(size, tick_rate_ms);
            let n = size as int;
            &&& steps.len() == 3 * n + 3
            &&& steps[0] == RestartStep::Tell(ConfigChange::Shutdown(true))
            &&& steps[id as int] == RestartStep::Await(id)
            &&& steps[n + id] == RestartStep::Clear(id)
            &&& steps[2 * n + 1] == RestartStep::Show
            &&& steps[2 * n + 1 + id] == RestartStep::Start(id)
            &&& steps[3 * n + 2] == RestartStep::Tell(ConfigChange::TickInterval(tick_rate_ms))
        }),
{
}

/// Different nodes listen at different addresses, all on the same machine and
/// each at the port that its id is above the base.
pub proof fn law_nodes_listen_apart(a: u64, b: u64)
    ensures
        listen_address_of(a).skip(10) == decimal_of((9000 + a) as nat),
        listen_address_of(a).take(10) == "127.0.0.1:"@,
        listen_address_of(a) == listen_address_of(b) ==> a == b,
{
    reveal_strlit("127.0.0.1:");
    assert(listen_address_of(a).skip(10) =~= decimal_of((9000 + a) as nat));
    assert(listen_address_of(b).skip(10) =~= decimal_of((9000 + b) as nat));
    assert(listen_address_of(a).take(10) =~= "127.0.0.1:"@);
    law_decimal_round_trip((9000 + a) as nat);
    law_decimal_round_trip((9000 + b) as nat);
}

} // verus!
