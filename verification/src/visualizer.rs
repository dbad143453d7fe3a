//! The state of a running cluster as its operator sees it, and what the
//! operator can do about it.
use vstd::prelude::*;

use vstd::string::StringExecFns;

use crate::driver::{ConfigChange, DriverEvent};
use crate::logger::{
    kind_name, kind_name_of, last_of, law_last_items_are_kept, push_capped, pushed_all_capped,
    pushed_capped,
};
use crate::text::{
    chars_of, decimal, decimal_of, law_decimals_are_digits, law_limit_is_kept,
    law_split_adds_a_piece, parse_u64, parsed_up_to, pieces_view, spells, split, split_of,
    starts_with,
};

verus! {

/// How many messages are kept.
pub const MAX_MESSAGES: usize = 300;

/// The fastest tick rate that an operator can set, in milliseconds.
pub const MIN_TICK_RATE_MS: u64 = 250;

/// The slowest tick rate that an operator can set, in milliseconds.
pub const MAX_TICK_RATE_MS: u64 = 1000;

/// What is shown of a node.
#[derive(Debug, Clone, PartialEq, Eq)]
pub struct NodeVisualState {
    pub id: u64,
    pub term: u64,
    pub voted_for: u64,
    pub leader_id: u64,
    pub role: String,
    pub paused: bool,
}

/// What is shown of a message.
#[derive(Debug, Clone, PartialEq, Eq)]
pub struct MessageVisualEvent {
    pub from: u64,
    pub to: u64,
    pub msg_type: String,
    pub term: u64,
    /// Milliseconds since the epoch.
    pub timestamp: u128,
}

/// What is shown of a cluster. Node `id` stands at position `id`.
#[derive(Debug, Clone, PartialEq, Eq)]
pub struct VisualState {
    pub nodes: Vec<Option<NodeVisualState>>,
    pub messages: Vec<MessageVisualEvent>,
    pub tick_rate_ms: u64,
}

/// What is shown of a node, as a mathematical value.
#[verifier::ext_equal]
pub struct NodeVisualView {
    pub id: u64,
    pub term: u64,
    pub voted_for: u64,
    pub leader_id: u64,
    pub role: Seq<char>,
    pub paused: bool,
}

/// What is shown of a message, as a mathematical value.
#[verifier::ext_equal]
pub struct MessageVisualView {
    pub from: u64,
    pub to: u64,
    pub msg_type: Seq<char>,
    pub term: u64,
    pub timestamp: u128,
}

/// What is shown of a cluster, as a mathematical value.
#[verifier::ext_equal]
pub struct VisualView {
    pub nodes: Seq<Option<NodeVisualView>>,
    pub messages: Seq<MessageVisualView>,
    pub tick_rate_ms: u64,
}

impl View for NodeVisualState {
    type V = NodeVisualView;

    open spec fn view(&self) -> NodeVisualView {
        NodeVisualView {
            id: self.id,
            term: self.term,
            voted_for: self.voted_for,
            leader_id: self.leader_id,
            role: self.role@,
            paused: self.paused,
        }
    }
}

impl View for MessageVisualEvent {
    type V = MessageVisualView;

    open spec fn view(&self) -> MessageVisualView {
        MessageVisualView {
            from: self.from,
            to: self.to,
            msg_type: self.msg_type@,
            term: self.term,
            timestamp: self.timestamp,
        }
    }
}

/// The nodes as mathematical values.
pub open spec fn nodes_view(nodes: Seq<Option<NodeVisualState>>) -> Seq<Option<NodeVisualView>> {
    Seq::new(
        nodes.len(),
        |i: int|
            match nodes[i] {
                Some(n) => Some(n@),
                None => None,
            },
    )
}

/// The messages as mathematical values.
pub open spec fn messages_view(messages: Seq<MessageVisualEvent>) -> Seq<MessageVisualView> {
    Seq::new(messages.len(), |i: int| messages[i]@)
}

impl View for VisualState {
    type V = VisualView;

    open spec fn view(&self) -> VisualView {
        VisualView {
            nodes: nodes_view(self.nodes@),
            messages: messages_view(self.messages@),
            tick_rate_ms: self.tick_rate_ms,
        }
    }
}

/// A node that just started.
pub open spec fn fresh_node(id: u64) -> NodeVisualView {
    NodeVisualView {
        id,
        term: 0,
        voted_for: 0,
        leader_id: 0,
        role: "Follower"@,
        paused: false,
    }
}

/// The nodes of a cluster that just started. Nothing stands at position 0.
pub open spec fn fresh_nodes(positions: nat) -> Seq<Option<NodeVisualView>> {
    Seq::new(
        positions,
        |i: int|
            if i == 0 {
                None
            } else {
                Some(fresh_node(i as u64))
            },
    )
}

impl VisualView {
    /// A node that crashed is shown so.
    pub open spec fn crash_shown(node: Option<NodeVisualView>, crashed: bool) -> Option<NodeVisualView> {
        match node {
            Some(n) if crashed && n.role != "Crashed"@ => Some(
                NodeVisualView { role: "Crashed"@, paused: true, ..n },
            ),
            _ => node,
        }
    }

    /// The nodes that `crashed` marks are shown as crashed.
    pub open spec fn with_crashes(self, crashed: Seq<bool>) -> VisualView {
        VisualView {
            nodes: Seq::new(
                self.nodes.len(),
                |i: int| Self::crash_shown(self.nodes[i], i < crashed.len() && crashed[i]),
            ),
            ..self
        }
    }

    /// The node at `id` replaced by `f` of it, where there is one.
    pub open spec fn with_node(self, id: u64, f: spec_fn(NodeVisualView) -> NodeVisualView) -> VisualView {
        if id < self.nodes.len() && self.nodes[id as int] is Some {
            VisualView {
                nodes: self.nodes.update(id as int, Some(f(self.nodes[id as int]->0))),
                ..self
            }
        } else {
            self
        }
    }

    /// What is shown once a driver told of `event`.
    pub open spec fn after(self, event: DriverEvent, timestamp: u128) -> VisualView {
        match event {
            DriverEvent::MessageSent(m) => VisualView {
                messages: pushed_capped(
                    self.messages,
                    MessageVisualView {
                        from: m.from,
                        to: m.to,
                        msg_type: kind_name_of(m.msg_type),
                        term: m.term,
                        timestamp,
                    },
                    MAX_MESSAGES as nat,
                ),
                ..self
            },
            DriverEvent::MessageReceived(_) => self,
            DriverEvent::StateChanged { id, term, voted_for, leader_id, role } => self.with_node(
                id,
                |n: NodeVisualView|
                    NodeVisualView { term, voted_for, leader_id, role: role@, ..n },
            ),
            DriverEvent::Shutdown { id, shutdown } => self,
            DriverEvent::Paused { id, paused } => self.with_node(
                id,
                |n: NodeVisualView| NodeVisualView { paused, ..n },
            ),
            DriverEvent::TickInterval { id, interval_ms } => VisualView {
                tick_rate_ms: interval_ms,
                ..self
            },
        }
    }
}

fn fresh(id: u64) -> (r: NodeVisualState)
    ensures
        r@ == fresh_node(id),
{
    NodeVisualState {
        id,
        term: 0,
        voted_for: 0,
        leader_id: 0,
        role: "Follower".to_owned(),
        paused: false,
    }
}

fn fresh_row(positions: usize) -> (r: Vec<Option<NodeVisualState>>)
    ensures
        nodes_view(r@) == fresh_nodes(positions as nat),
{
    let mut nodes: Vec<Option<NodeVisualState>> = Vec::new();
    let mut id: usize = 0;
    while id < positions
        invariant
            id <= positions,
            nodes@.len() == id,
            nodes_view(nodes@) == fresh_nodes(id as nat),
        decreases positions - id,
    {
        let ghost before = nodes@;
        if id == 0 {
            nodes.push(None);
        } else {
            nodes.push(Some(fresh(id as u64)));
        }
        id = id + 1;
        proof {
            let shown = nodes_view(nodes@);
            assert forall|j: int| 0 <= j < id implies #[trigger] shown[j] == fresh_nodes(
                id as nat,
            )[j] by {
                if j < id - 1 {
                    assert(shown[j] == nodes_view(before)[j]);
                    assert(fresh_nodes((id - 1) as nat)[j] == fresh_nodes(id as nat)[j]);
                }
            }
            assert(shown =~= fresh_nodes(id as nat));
        }
    }
    nodes
}

impl VisualState {
    /// What is shown of a cluster of `size` nodes that just started.
    pub fn new(size: usize) -> (r: VisualState)
        requires
            size < usize::MAX,
        ensures
            r@ == (VisualView {
                nodes: fresh_nodes((size + 1) as nat),
                messages: Seq::empty(),
                tick_rate_ms: 500,
            }),
    {
        let nodes = fresh_row(size + 1);
        let messages: Vec<MessageVisualEvent> = Vec::new();
        assert(messages_view(messages@) =~= Seq::empty());
        VisualState { nodes, messages, tick_rate_ms: 500 }
    }

    /// Shows what a driver told.
    pub fn on_event(&mut self, event: DriverEvent, timestamp: u128)
        ensures
            final(self)@ == old(self)@.after(event, timestamp),
    {
        let ghost before = *self;
        match event {
            DriverEvent::MessageSent(m) => {
                let shown = MessageVisualEvent {
                    from: m.from,
                    to: m.to,
                    msg_type: kind_name(m.msg_type).to_owned(),
                    term: m.term,
                    timestamp,
                };
                let ghost v = shown@;
                push_capped(&mut self.messages, shown, MAX_MESSAGES);
                assert(messages_view(self.messages@) =~= pushed_capped(
                    messages_view(before.messages@),
                    v,
                    MAX_MESSAGES as nat,
                ));
            },
            DriverEvent::MessageReceived(_) => {},
            DriverEvent::StateChanged { id, term, voted_for, leader_id, role } => {
                if id < self.nodes.len() as u64 {
                    let at: usize = id as usize;
                    if let Some(node) = &mut self.nodes[at] {
                        node.term = term;
                        node.voted_for = voted_for;
                        node.leader_id = leader_id;
                        node.role = role;
                    }
                }
                assert(self@.nodes =~= before@.after(event, timestamp).nodes);
            },
            DriverEvent::Shutdown { id: _, shutdown: _ } => {},
            DriverEvent::Paused { id, paused } => {
                if id < self.nodes.len() as u64 {
                    let at: usize = id as usize;
                    if let Some(node) = &mut self.nodes[at] {
                        node.paused = paused;
                    }
                }
                assert(self@.nodes =~= before@.after(event, timestamp).nodes);
            },
            DriverEvent::TickInterval { id: _, interval_ms } => {
                self.tick_rate_ms = interval_ms;
            },
        }
    }

    /// Shows which nodes crashed; `crashed` tells of the node at each position.
    pub fn update_crashed_nodes(&mut self, crashed: &Vec<bool>)
        ensures
            final(self)@ == old(self)@.with_crashes(crashed@),
    {
        let ghost before = *self;
        let n: usize = self.nodes.len();
        let mut id: usize = 0;
        while id < n
            invariant
                id <= n,
                n == before.nodes@.len(),
                self.nodes@.len() == n,
                self.messages == before.messages,
                self.tick_rate_ms == before.tick_rate_ms,
                forall|j: int| id <= j < n ==> #[trigger] self.nodes@[j] == before.nodes@[j],
                forall|j: int|
                    0 <= j < id ==> #[trigger] nodes_view(self.nodes@)[j]
                        == VisualView::crash_shown(
                        nodes_view(before.nodes@)[j],
                        j < crashed@.len() && crashed@[j],
                    ),
            decreases n - id,
        {
            let ghost so_far = self.nodes@;
            if id < crashed.len() && crashed[id] {
                if let Some(node) = &mut self.nodes[id] {
                    if !spells(&chars_of(node.role.as_str()), "Crashed") {
                        node.role = "Crashed".to_owned();
                        node.paused = true;
                    }
                }
            }
            proof {
                assert(so_far[id as int] == before.nodes@[id as int]);
                assert forall|j: int| 0 <= j < id + 1 implies #[trigger] nodes_view(self.nodes@)[j]
                    == VisualView::crash_shown(
                    nodes_view(before.nodes@)[j],
                    j < crashed@.len() && crashed@[j],
                ) by {
                    if j < id {
                        assert(nodes_view(so_far)[j] == nodes_view(self.nodes@)[j]);
                    }
                }
            }
            id = id + 1;
        }
        assert(self@.nodes =~= before@.with_crashes(crashed@).nodes);
    }

    /// The same state with no messages in it.
    pub fn without_messages(&self) -> (r: VisualState)
        ensures
            r@ == (VisualView { messages: Seq::empty(), ..self@ }),
    {
        let mut nodes: Vec<Option<NodeVisualState>> = Vec::new();
        let mut i: usize = 0;
        while i < self.nodes.len()
            invariant
                i <= self.nodes@.len(),
                nodes@.len() == i,
                forall|j: int|
                    0 <= j < i ==> #[trigger] nodes_view(nodes@)[j] == nodes_view(self.nodes@)[j],
            decreases self.nodes@.len() - i,
        {
            let copy = match &self.nodes[i] {
                Some(n) => Some(
                    NodeVisualState {
                        id: n.id,
                        term: n.term,
                        voted_for: n.voted_for,
                        leader_id: n.leader_id,
                        role: n.role.clone(),
                        paused: n.paused,
                    },
                ),
                None => None,
            };
            let ghost before = nodes@;
            nodes.push(copy);
            proof {
                assert forall|j: int| 0 <= j < i + 1 implies #[trigger] nodes_view(nodes@)[j]
                    == nodes_view(self.nodes@)[j] by {
                    if j < i {
                        assert(nodes_view(before)[j] == nodes_view(nodes@)[j]);
                    }
                }
            }
            i = i + 1;
        }
        assert(nodes_view(nodes@) =~= nodes_view(self.nodes@));
        let messages: Vec<MessageVisualEvent> = Vec::new();
        assert(messages_view(messages@) =~= Seq::empty());
        VisualState { nodes, messages, tick_rate_ms: self.tick_rate_ms }
    }

    /// Shows node `id` as just restarted.
    pub fn node_restarted(&mut self, id: u64)
        ensures
            final(self)@ == old(self)@.with_node(
                id,
                |n: NodeVisualView| NodeVisualView { paused: false, role: "Follower"@, ..n },
            ),
    {
        let ghost before = *self;
        if id < self.nodes.len() as u64 {
            let at: usize = id as usize;
            if let Some(node) = &mut self.nodes[at] {
                node.paused = false;
                node.role = "Follower".to_owned();
            }
        }
        assert(self@.nodes =~= before@.with_node(
            id,
            |n: NodeVisualView| NodeVisualView { paused: false, role: "Follower"@, ..n },
        ).nodes);
    }

    /// Shows all nodes as just started, and no messages.
    pub fn cluster_restarted(&mut self)
        ensures
            final(self)@ == (VisualView {
                nodes: fresh_nodes(old(self)@.nodes.len()),
                messages: Seq::empty(),
                tick_rate_ms: old(self)@.tick_rate_ms,
            }),
    {
        let n: usize = self.nodes.len();
        self.nodes = fresh_row(n);
        self.messages = Vec::new();
        assert(messages_view(self.messages@) =~= Seq::empty());
    }

    /// Pauses node `id`, or resumes it if it is paused, and says which. A node
    /// that is not shown counts as one that runs.
    fn toggle(&mut self, id: u64) -> (r: bool)
        requires
            id < old(self).nodes@.len(),
        ensures
            r == !(old(self)@.nodes[id as int] matches Some(n) && n.paused),
            final(self)@ == old(self)@.with_node(
                id,
                |n: NodeVisualView| NodeVisualView { paused: r, ..n },
            ),
    {
        let ghost before = *self;
        assert(self.nodes@.len() == self.nodes.len());
        let at: usize = id as usize;
        let mut paused = true;
        if let Some(node) = &mut self.nodes[at] {
            paused = !node.paused;
            node.paused = paused;
        }
        assert(self@.nodes =~= before@.with_node(
            id,
            |n: NodeVisualView| NodeVisualView { paused, ..n },
        ).nodes);
        paused
    }
}

/// What is asked of the one who keeps the state.
#[derive(Debug, Clone)]
pub enum Command {
    /// A driver told of something, at this time.
    Event(DriverEvent, u128),
    GetState,
    /// A client wants to be kept informed, of messages too or not.
    Register { send_all: bool },
    RestartCluster,
    SetTickRate(u64),
    ToggleOrRestartNode(u64),
    /// Those who want to be kept informed are due.
    Broadcast,
}

/// What is to be done about a command.
#[derive(Debug, Clone, Copy, PartialEq, Eq, Structural)]
pub enum Action {
    Nothing,
    /// Answer with the state.
    AnswerState,
    /// Send the state to a new client, with messages or without, and inform it
    /// from then on.
    Welcome { with_messages: bool },
    /// Stop and start all nodes, then show it.
    RestartCluster,
    /// Stop and start the node, then show it.
    RestartNode(u64),
    /// Tell the drivers.
    Tell(ConfigChange),
    /// Send the state to all clients.
    InformClients,
    /// There is no such node.
    Refuse,
}

/// The one who keeps the state of a cluster for its operator.
pub struct Visualizer {
    pub state: VisualState,
    /// Whether the clients are to be informed.
    pub dirty: bool,
}

impl Visualizer {
    /// Does what is asked, as far as it can be done here, and says what else
    /// is to be done. `crashed` tells of the node at each position whether it
    /// crashed.
    pub fn handle(&mut self, command: Command, crashed: &Vec<bool>) -> (r: Action)
        ensures
            match command {
                Command::Event(event, timestamp) => {
                    &&& r == Action::Nothing
                    &&& final(self).state@ == old(self).state@.after(event, timestamp)
                    &&& final(self).dirty
                },
                Command::GetState => {
                    &&& r == Action::AnswerState
                    &&& final(self).state@ == old(self).state@.with_crashes(crashed@)
                    &&& final(self).dirty == old(self).dirty
                },
                Command::Register { send_all } => {
                    &&& r == Action::Welcome { with_messages: send_all }
                    &&& *final(self) == *old(self)
                },
                Command::RestartCluster => {
                    &&& r == Action::RestartCluster
                    &&& final(self).state@ == old(self).state@
                    &&& final(self).dirty
                },
                Command::SetTickRate(ms) => {
                    &&& r == Action::Tell(ConfigChange::TickInterval(ms))
                    &&& final(self).state@ == (VisualView { tick_rate_ms: ms, ..old(self).state@ })
                    &&& final(self).dirty
                },
                Command::ToggleOrRestartNode(id) => {
                    if id < crashed@.len() && crashed@[id as int] {
                        &&& r == Action::RestartNode(id)
                        &&& final(self).state@ == old(self).state@
                        &&& final(self).dirty
                    } else if id < old(self).state@.nodes.len() {
                        let paused = !(old(self).state@.nodes[id as int] matches Some(n)
                            && n.paused);
                        &&& r == Action::Tell(ConfigChange::Pause { target_id: Some(id), paused })
                        &&& final(self).state@ == old(self).state@.with_node(
                            id,
                            |n: NodeVisualView| NodeVisualView { paused, ..n },
                        )
                        &&& final(self).dirty
                    } else {
                        &&& r == Action::Refuse
                        &&& *final(self) == *old(self)
                    }
                },
                Command::Broadcast => {
                    &&& !final(self).dirty
                    &&& r == if old(self).dirty {
                        Action::InformClients
                    } else {
                        Action::Nothing
                    }
                    &&& final(self).state@ == if old(self).dirty {
                        old(self).state@.with_crashes(crashed@)
                    } else {
                        old(self).state@
                    }
                },
            },
    {
        match command {
            Command::Event(event, timestamp) => {
                self.dirty = true;
                self.state.on_event(event, timestamp);
                Action::Nothing
            },
            Command::GetState => {
                self.state.update_crashed_nodes(crashed);
                Action::AnswerState
            },
            Command::Register { send_all } => Action::Welcome { with_messages: send_all },
            Command::RestartCluster => {
                self.dirty = true;
                Action::RestartCluster
            },
            Command::SetTickRate(ms) => {
                self.state.tick_rate_ms = ms;
                self.dirty = true;
                Action::Tell(ConfigChange::TickInterval(ms))
            },
            Command::ToggleOrRestartNode(id) => {
                if id < crashed.len() as u64 && crashed[id as usize] {
                    self.dirty = true;
                    Action::RestartNode(id)
                } else if id < self.state.nodes.len() as u64 {
                    let paused = self.state.toggle(id);
                    self.dirty = true;
                    Action::Tell(ConfigChange::Pause { target_id: Some(id), paused })
                } else {
                    Action::Refuse
                }
            },
            Command::Broadcast => {
                if self.dirty {
                    self.state.update_crashed_nodes(crashed);
                    self.dirty = false;
                    Action::InformClients
                } else {
                    Action::Nothing
                }
            },
        }
    }
}

/// To toggle a node that is shown twice is to leave it as it was.
pub proof fn law_toggle_node_twice(state: VisualView, id: u64)
    requires
        id < state.nodes.len(),
        state.nodes[id as int] is Some,
    ensures
        ({
            let p = state.nodes[id as int]->0.paused;
            let once = state.with_node(id, |n: NodeVisualView| NodeVisualView { paused: !p, ..n });
            once.with_node(id, |n: NodeVisualView| NodeVisualView { paused: p, ..n })
        }) == state,
{
    let p = state.nodes[id as int]->0.paused;
    let once = state.with_node(id, |n: NodeVisualView| NodeVisualView { paused: !p, ..n });
    let twice = once.with_node(id, |n: NodeVisualView| NodeVisualView { paused: p, ..n });
    assert(twice.nodes =~= state.nodes);
}

/// However much happens, no more than a fixed number of messages is kept.
pub proof fn law_messages_are_bounded(state: VisualView, event: DriverEvent, timestamp: u128)
    requires
        state.messages.len() <= MAX_MESSAGES,
    ensures
        state.after(event, timestamp).messages.len() <= MAX_MESSAGES,
{
}

/// What is shown of a message that was sent at a time.
pub open spec fn shown_message(event: DriverEvent, timestamp: u128) -> MessageVisualView
    recommends
        event is MessageSent,
{
    let m = event->MessageSent_0;
    MessageVisualView {
        from: m.from,
        to: m.to,
        msg_type: kind_name_of(m.msg_type),
        term: m.term,
        timestamp,
    }
}

/// The messages that were sent among `events`, in order.
pub open spec fn messages_in(events: Seq<(DriverEvent, u128)>) -> Seq<MessageVisualView>
    decreases events.len(),
{
    if events.len() == 0 {
        Seq::empty()
    } else if events.last().0 is MessageSent {
        messages_in(events.drop_last()).push(shown_message(events.last().0, events.last().1))
    } else {
        messages_in(events.drop_last())
    }
}

/// The state after all of `events`.
pub open spec fn after_events(state: VisualView, events: Seq<(DriverEvent, u128)>) -> VisualView
    decreases events.len(),
{
    if events.len() == 0 {
        state
    } else {
        after_events(state, events.drop_last()).after(events.last().0, events.last().1)
    }
}

proof fn lemma_messages_after(state: VisualView, events: Seq<(DriverEvent, u128)>)
    ensures
        after_events(state, events).messages == pushed_all_capped(
            state.messages,
            messages_in(events),
            MAX_MESSAGES as nat,
        ),
    decreases events.len(),
{
    if events.len() > 0 {
        lemma_messages_after(state, events.drop_last());
        if events.last().0 is MessageSent {
            let all = messages_in(events);
            assert(all.drop_last() =~= messages_in(events.drop_last()));
        }
    }
}

/// Whatever happens, the messages that are shown are the last that were sent,
/// oldest first, as many as are kept.
pub proof fn law_last_messages_are_shown(state: VisualView, events: Seq<(DriverEvent, u128)>)
    requires
        state.messages.len() <= MAX_MESSAGES,
    ensures
        after_events(state, events).messages == last_of(
            state.messages + messages_in(events),
            MAX_MESSAGES as nat,
        ),
{
    lemma_messages_after(state, events);
    law_last_items_are_kept(state.messages, messages_in(events), MAX_MESSAGES as nat);
}

/// What a path asks for.
#[derive(Debug, Clone, Copy, PartialEq, Eq, Structural)]
pub enum Route {
    /// To be kept informed, of messages too or not.
    Events { send_all: bool },
    Index,
    State,
    RestartCluster,
    SetTickRate,
    /// To pause, resume or restart a node, if it is named by a number.
    Node(Option<u64>),
}

/// The node that a path names in its fourth piece.
pub open spec fn node_in(path: Seq<char>) -> Option<u64> {
    let pieces = split_of(path, '/');
    if pieces.len() >= 4 && pieces[2] == "node"@ {
        match parsed_up_to(pieces[3], u64::MAX as nat) {
            Some(n) => Some(n as u64),
            None => None,
        }
    } else {
        None
    }
}

/// What a path asks for. A path that is not known asks for the index.
pub open spec fn route_of(path: Seq<char>) -> Route {
    if "/api/state/sse"@.is_prefix_of(path) {
        Route::Events { send_all: "/api/state/sse/all"@.is_prefix_of(path) }
    } else if path == "/"@ || path.len() == 0 {
        Route::Index
    } else if "/api/state"@.is_prefix_of(path) {
        Route::State
    } else if "/api/cluster/restart"@.is_prefix_of(path) {
        Route::RestartCluster
    } else if "/api/cluster/tick_rate"@.is_prefix_of(path) {
        Route::SetTickRate
    } else if "/api/node/"@.is_prefix_of(path) {
        Route::Node(node_in(path))
    } else {
        Route::Index
    }
}

/// What a path asks for.
pub fn route(path: &str) -> (r: Route)
    ensures
        r == route_of(path@),
{
    let chars = chars_of(path);
    if starts_with(&chars, "/api/state/sse") {
        Route::Events { send_all: starts_with(&chars, "/api/state/sse/all") }
    } else if spells(&chars, "/") || chars.len() == 0 {
        Route::Index
    } else if starts_with(&chars, "/api/state") {
        Route::State
    } else if starts_with(&chars, "/api/cluster/restart") {
        Route::RestartCluster
    } else if starts_with(&chars, "/api/cluster/tick_rate") {
        Route::SetTickRate
    } else if starts_with(&chars, "/api/node/") {
        let pieces = split(&chars, '/');
        let ghost p = pieces_view(pieces@);
        if pieces.len() >= 4 {
            assert(p[2] == pieces@[2]@ && p[3] == pieces@[3]@);
            if spells(&pieces[2], "node") {
                return Route::Node(parse_u64(&pieces[3]));
            }
        }
        Route::Node(None)
    } else {
        Route::Index
    }
}

/// The tick rate that a text names, if it is one that can be set.
pub open spec fn tick_rate_of(text: Option<Seq<char>>) -> Option<u64> {
    match text {
        Some(text) => match parsed_up_to(text, u64::MAX as nat) {
            Some(ms) if MIN_TICK_RATE_MS <= ms <= MAX_TICK_RATE_MS => Some(ms as u64),
            _ => None,
        },
        None => None,
    }
}

/// The tick rate that a text names, if it is one that can be set.
pub fn tick_rate(text: &Option<String>) -> (r: Option<u64>)
    ensures
        r == tick_rate_of(crate::options::text_view(*text)),
{
    match text {
        Some(text) => match parse_u64(&chars_of(text.as_str())) {
            Some(ms) => {
                if MIN_TICK_RATE_MS <= ms && ms <= MAX_TICK_RATE_MS {
                    Some(ms)
                } else {
                    None
                }
            },
            None => None,
        },
        None => None,
    }
}

/// What the keeper of the cluster's state is asked for a request for `route`,
/// with `rate` as the tick rate it names, if it is asked at all.
pub open spec fn command_of(route: Route, rate: Option<u64>) -> Option<Command> {
    match route {
        Route::Events { send_all } => Some(Command::Register { send_all }),
        Route::State => Some(Command::GetState),
        Route::RestartCluster => Some(Command::RestartCluster),
        Route::SetTickRate => match rate {
            Some(ms) => Some(Command::SetTickRate(ms)),
            None => None,
        },
        Route::Node(Some(id)) => Some(Command::ToggleOrRestartNode(id)),
        Route::Node(None) => None,
        Route::Index => None,
    }
}

/// What the keeper of the cluster's state is asked for a request for `route`.
pub fn command_for(route: Route, rate: Option<u64>) -> (r: Option<Command>)
    ensures
        r == command_of(route, rate),
{
    match route {
        Route::Events { send_all } => Some(Command::Register { send_all }),
        Route::State => Some(Command::GetState),
        Route::RestartCluster => Some(Command::RestartCluster),
        Route::SetTickRate => match rate {
            Some(ms) => Some(Command::SetTickRate(ms)),
            None => None,
        },
        Route::Node(Some(id)) => Some(Command::ToggleOrRestartNode(id)),
        Route::Node(None) => None,
        Route::Index => None,
    }
}

/// A request that asks the keeper of the cluster's state nothing, and does not
/// ask for the page, is refused.
pub proof fn law_unasked_is_refused(route: Route, rate: Option<u64>)
    requires
        command_of(route, rate) is None,
    ensures
        reply_of(route, rate, OutcomeView::Unsent) == if route is Index {
            ReplyView::Page
        } else {
            ReplyView::BadRequest
        },
{
}

/// What came of passing a request on to the keeper of the cluster's state.
#[derive(Debug, Clone, PartialEq, Eq)]
pub enum Outcome {
    /// The request could not be passed on.
    Unsent,
    /// There was no answer.
    Unanswered,
    /// The answer, as JSON.
    Answered(String),
}

/// How a request is answered.
#[derive(Debug, Clone, PartialEq, Eq)]
pub enum Reply {
    /// With the page.
    Page,
    /// With JSON.
    Json(String),
    /// With the start of a stream of events.
    Events(String),
    /// The request asks for something that cannot be done.
    BadRequest,
    /// The request could not be handled.
    ServerError,
}

/// An outcome as a mathematical value.
#[verifier::ext_equal]
pub enum OutcomeView {
    Unsent,
    Unanswered,
    Answered(Seq<char>),
}

/// A reply as a mathematical value.
#[verifier::ext_equal]
pub enum ReplyView {
    Page,
    Json(Seq<char>),
    Events(Seq<char>),
    BadRequest,
    ServerError,
}

impl View for Outcome {
    type V = OutcomeView;

    open spec fn view(&self) -> OutcomeView {
        match *self {
            Outcome::Unsent => OutcomeView::Unsent,
            Outcome::Unanswered => OutcomeView::Unanswered,
            Outcome::Answered(json) => OutcomeView::Answered(json@),
        }
    }
}

impl View for Reply {
    type V = ReplyView;

    open spec fn view(&self) -> ReplyView {
        match *self {
            Reply::Page => ReplyView::Page,
            Reply::Json(body) => ReplyView::Json(body@),
            Reply::Events(body) => ReplyView::Events(body@),
            Reply::BadRequest => ReplyView::BadRequest,
            Reply::ServerError => ReplyView::ServerError,
        }
    }
}

/// How a request is answered that asks for `route`, with `rate` as the tick
/// rate it names.
pub open spec fn reply_of(route: Route, rate: Option<u64>, outcome: OutcomeView) -> ReplyView {
    match route {
        Route::Index => ReplyView::Page,
        Route::Events { send_all } => match outcome {
            OutcomeView::Unsent => ReplyView::ServerError,
            OutcomeView::Unanswered => ReplyView::Events(Seq::empty()),
            OutcomeView::Answered(json) => ReplyView::Events("data: "@ + json + "\n\n"@),
        },
        Route::State => match outcome {
            OutcomeView::Answered(json) => ReplyView::Json(json),
            _ => ReplyView::ServerError,
        },
        Route::RestartCluster => match outcome {
            OutcomeView::Unsent => ReplyView::ServerError,
            _ => ReplyView::Json("{\"success\":true}"@),
        },
        Route::SetTickRate => match (rate, outcome) {
            (Some(ms), OutcomeView::Answered(_)) => ReplyView::Json(
                "{\"success\":true,\"tick_rate_ms\":"@ + decimal_of(ms as nat) + "}"@,
            ),
            _ => ReplyView::BadRequest,
        },
        Route::Node(id) => match (id, outcome) {
            (Some(_), OutcomeView::Answered(json)) => ReplyView::Json(json),
            _ => ReplyView::BadRequest,
        },
    }
}

/// How a request is answered that asks for `route`, with `rate` as the tick
/// rate it names.
pub fn reply(route: Route, rate: Option<u64>, outcome: Outcome) -> (r: Reply)
    ensures
        r@ == reply_of(route, rate, outcome@),
{
    match route {
        Route::Index => Reply::Page,
        Route::Events { send_all: _ } => match outcome {
            Outcome::Unsent => Reply::ServerError,
            Outcome::Unanswered => Reply::Events(String::new()),
            Outcome::Answered(json) => {
                let mut body = "data: ".to_owned();
                body.append(json.as_str());
                body.append("\n\n");
                Reply::Events(body)
            },
        },
        Route::State => match outcome {
            Outcome::Answered(json) => Reply::Json(json),
            _ => Reply::ServerError,
        },
        Route::RestartCluster => match outcome {
            Outcome::Unsent => Reply::ServerError,
            _ => Reply::Json("{\"success\":true}".to_owned()),
        },
        Route::SetTickRate => match (rate, outcome) {
            (Some(ms), Outcome::Answered(_)) => {
                let mut body = "{\"success\":true,\"tick_rate_ms\":".to_owned();
                let number = decimal(ms);
                body.append(number.as_str());
                body.append("}");
                Reply::Json(body)
            },
            _ => Reply::BadRequest,
        },
        Route::Node(id) => match (id, outcome) {
            (Some(_), Outcome::Answered(json)) => Reply::Json(json),
            _ => Reply::BadRequest,
        },
    }
}

/// A message that was sent is shown last, with its sender, its addressee, its
/// kind, its term and the time; no node is shown otherwise for it.
pub proof fn law_sent_message_is_shown(state: VisualView, event: DriverEvent, timestamp: u128)
    requires
        event is MessageSent,
        state.messages.len() <= MAX_MESSAGES,
    ensures
        ({
            let m = event->MessageSent_0;
            let after = state.after(event, timestamp);
            let shown = after.messages.last();
            &&& shown.from == m.from
            &&& shown.to == m.to
            &&& shown.term == m.term
            &&& shown.msg_type == kind_name_of(m.msg_type)
            &&& shown.timestamp == timestamp
            &&& after.messages.len() == if state.messages.len() < 300 {
                state.messages.len() + 1
            } else {
                300
            }
            &&& after.nodes == state.nodes
            &&& after.tick_rate_ms == state.tick_rate_ms
        }),
{
}

/// What a node has become is shown of that node and no other, and what does not
/// change about it stays.
pub proof fn law_state_is_shown_of_the_node_itself(
    state: VisualView,
    event: DriverEvent,
    timestamp: u128,
    other: int,
)
    requires
        event is StateChanged,
        0 <= other < state.nodes.len(),
    ensures
        ({
            let after = state.after(event, timestamp);
            let id = event->StateChanged_id;
            &&& after.nodes.len() == state.nodes.len()
            &&& after.messages == state.messages
            &&& after.tick_rate_ms == state.tick_rate_ms
            &&& other != id ==> after.nodes[other] == state.nodes[other]
            &&& other == id ==> (after.nodes[other] is Some <==> state.nodes[other] is Some)
            &&& other == id && state.nodes[other] is Some ==> {
                let n = after.nodes[other]->0;
                &&& n.id == state.nodes[other]->0.id
                &&& n.term == event->term
                &&& n.voted_for == event->voted_for
                &&& n.leader_id == event->leader_id
                &&& n.role == event->role@
                &&& n.paused == state.nodes[other]->0.paused
            }
        }),
{
}

/// Whether a node is paused is shown of that node and no other; the tick rate
/// that a driver tells is shown, and what is only received or ends shows
/// nothing.
pub proof fn law_other_events(
    state: VisualView,
    event: DriverEvent,
    timestamp: u128,
    other: int,
)
    requires
        event !is MessageSent,
        event !is StateChanged,
        0 <= other < state.nodes.len(),
    ensures
        ({
            let after = state.after(event, timestamp);
            &&& after.nodes.len() == state.nodes.len()
            &&& after.messages == state.messages
            &&& event is MessageReceived || event is Shutdown ==> after == state
            &&& event matches DriverEvent::TickInterval { interval_ms, .. } ==> {
                &&& after.tick_rate_ms == interval_ms
                &&& after.nodes == state.nodes
            }
            &&& event matches DriverEvent::Paused { id, paused } ==> {
                &&& after.tick_rate_ms == state.tick_rate_ms
                &&& other != id || state.nodes[other] is None ==> after.nodes[other]
                    == state.nodes[other]
                &&& other == id && state.nodes[other] is Some ==> after.nodes[other] == Some(
                    NodeVisualView { paused, ..state.nodes[other]->0 },
                )
            }
        }),
{
}

/// A node that crashed is shown as crashed and paused, and every other node as
/// it was; nothing else changes.
pub proof fn law_crashes_are_shown(state: VisualView, crashed: Seq<bool>, i: int)
    requires
        0 <= i < state.nodes.len(),
    ensures
        ({
            let after = state.with_crashes(crashed);
            let down = i < crashed.len() && crashed[i];
            &&& after.nodes.len() == state.nodes.len()
            &&& after.messages == state.messages
            &&& after.tick_rate_ms == state.tick_rate_ms
            &&& !down ==> after.nodes[i] == state.nodes[i]
            &&& state.nodes[i] is None ==> after.nodes[i] is None
            &&& down && state.nodes[i] is Some ==> {
                let was = state.nodes[i]->0;
                let is = after.nodes[i]->0;
                &&& after.nodes[i] is Some
                &&& is.role == "Crashed"@
                &&& is.id == was.id
                &&& is.term == was.term
                &&& is.voted_for == was.voted_for
                &&& is.leader_id == was.leader_id
                &&& was.role != "Crashed"@ ==> is.paused
                &&& was.role == "Crashed"@ ==> is.paused == was.paused
            }
        }),
{
}

/// Node by node, a cluster that starts is shown with nodes that follow nobody
/// and run, each under its own id, and with nothing in the first place.
pub proof fn law_new_clusters_are_shown_blank(positions: nat, i: int)
    requires
        0 <= i < positions <= u64::MAX,
    ensures
        fresh_nodes(positions).len() == positions,
        i == 0 ==> fresh_nodes(positions)[i] is None,
        i > 0 ==> {
            let n = fresh_nodes(positions)[i]->0;
            &&& fresh_nodes(positions)[i] is Some
            &&& n.id == i
            &&& n.term == 0
            &&& n.voted_for == 0
            &&& n.leader_id == 0
            &&& n.role == "Follower"@
            &&& !n.paused
        },
{
}

/// A tick rate can be set from a quarter of a second to a second, the bounds
/// too, and no other.
pub proof fn law_tick_rates_are_bounded(ms: nat)
    ensures
        250 <= ms <= 1000 ==> tick_rate_of(Some(decimal_of(ms))) == Some(ms as u64),
        ms < 250 || ms > 1000 ==> tick_rate_of(Some(decimal_of(ms))) is None,
        tick_rate_of(None) is None,
{
    law_limit_is_kept(ms, u64::MAX as nat);
}

/// Which path asks for what, whatever follows in it.
pub proof fn law_paths_are_known_by_their_start(rest: Seq<char>)
    ensures
        route_of("/api/state/sse/all"@ + rest) == (Route::Events { send_all: true }),
        rest.len() > 0 && rest[0] != '/' ==> route_of("/api/state/sse"@ + rest)
            == (Route::Events { send_all: false }),
        route_of("/api/state/sse"@) == (Route::Events { send_all: false }),
        rest.len() == 0 || rest[0] != '/' ==> route_of("/api/state"@ + rest) == Route::State,
        route_of("/api/cluster/restart"@ + rest) == Route::RestartCluster,
        route_of("/api/cluster/tick_rate"@ + rest) == Route::SetTickRate,
        route_of("/"@) == Route::Index,
        route_of(Seq::empty()) == Route::Index,
        rest.len() > 1 && rest[0] == '/' && rest[1] != 'a' ==> route_of(rest) == Route::Index,
{
    reveal_strlit("/api/state/sse/all");
    reveal_strlit("/api/state/sse");
    reveal_strlit("/api/state");
    reveal_strlit("/api/cluster/restart");
    reveal_strlit("/api/cluster/tick_rate");
    reveal_strlit("/api/node/");
    reveal_strlit("/");
    let all = "/api/state/sse/all"@;
    let sse = "/api/state/sse"@;
    let state = "/api/state"@;
    let restart = "/api/cluster/restart"@;
    let rate = "/api/cluster/tick_rate"@;
    let node = "/api/node/"@;
    let a = all + rest;
    assert(a.subrange(0, 14) =~= sse);
    assert(a.subrange(0, 18) =~= all);
    let b = sse + rest;
    assert(b.subrange(0, 14) =~= sse);
    if all.is_prefix_of(b) {
        assert(b[14] == all[14]);
    }
    assert(sse.subrange(0, 14) =~= sse);
    let c = state + rest;
    assert(c.subrange(0, 10) =~= state);
    if sse.is_prefix_of(c) {
        assert(c[10] == sse[10]);
    }
    if rest.len() > 0 {
        assert(c[10] == rest[0]);
    }
    let d = restart + rest;
    assert(d.subrange(0, 20) =~= restart);
    assert(d[5] == restart[5]);
    let e = rate + rest;
    assert(e.subrange(0, 22) =~= rate);
    assert(e[5] == rate[5]);
    assert(e[13] == rate[13]);
    if sse.is_prefix_of(d) {
        assert(d[5] == sse[5]);
    }
    if state.is_prefix_of(d) {
        assert(d[5] == state[5]);
    }
    if sse.is_prefix_of(e) {
        assert(e[5] == sse[5]);
    }
    if state.is_prefix_of(e) {
        assert(e[5] == state[5]);
    }
    if restart.is_prefix_of(e) {
        assert(e[13] == restart[13]);
    }
    if rest.len() > 1 && rest[0] == '/' && rest[1] != 'a' {
        if sse.is_prefix_of(rest) {
            assert(rest[1] == sse[1]);
        }
        if state.is_prefix_of(rest) {
            assert(rest[1] == state[1]);
        }
        if restart.is_prefix_of(rest) {
            assert(rest[1] == restart[1]);
        }
        if rate.is_prefix_of(rest) {
            assert(rest[1] == rate[1]);
        }
        if node.is_prefix_of(rest) {
            assert(rest[1] == node[1]);
        }
    }
}

/// A node is named in its path by its number.
pub proof fn law_nodes_are_named_by_their_paths(id: u64)
    ensures
        route_of("/api/node/"@ + decimal_of(id as nat)) == Route::Node(Some(id)),
        route_of("/api/node/"@ + decimal_of(id as nat) + "/toggle"@) == Route::Node(Some(id)),
{
    reveal_strlit("/api/state/sse");
    reveal_strlit("/api/state");
    reveal_strlit("/api/cluster/restart");
    reveal_strlit("/api/cluster/tick_rate");
    reveal_strlit("/api/node/");
    reveal_strlit("/");
    reveal_strlit("node");
    reveal_strlit("/toggle");
    let node = "/api/node/"@;
    let number = decimal_of(id as nat);
    law_limit_is_kept(id as nat, u64::MAX as nat);
    law_decimals_are_digits(id as nat);
    let toggle = seq!['t', 'o', 'g', 'g', 'l', 'e'];
    let path = node + number;
    let longer = path + "/toggle"@;
    assert(!number.contains('/')) by {
        assert forall|j: int| 0 <= j < number.len() implies number[j] != '/' by {}
    }
    let api = seq!['a', 'p', 'i'];
    assert(!api.contains('/'));
    assert(!"node"@.contains('/'));
    assert(!toggle.contains('/'));
    let s0 = Seq::<char>::empty();
    assert(!s0.contains('/'));
    law_split_adds_a_piece(s0, s0, '/');
    law_split_adds_a_piece(s0, api, '/');
    let s1 = s0.push('/') + api;
    law_split_adds_a_piece(s1, "node"@, '/');
    let s2 = s1.push('/') + "node"@;
    law_split_adds_a_piece(s2, number, '/');
    assert(s2.push('/') =~= node);
    law_split_adds_a_piece(path, toggle, '/');
    assert(path.push('/') + toggle =~= longer);
    assert(split_of(path, '/') == seq![s0].push(api).push("node"@).push(number));
    assert(path.subrange(0, 10) =~= node);
    assert(longer.subrange(0, 10) =~= node);
    assert(path[5] == node[5]);
    assert(longer[5] == node[5]);
    lemma_elsewhere(path);
    lemma_elsewhere(longer);
}

/// A path with an `n` where the others have another letter is none of them.
proof fn lemma_elsewhere(path: Seq<char>)
    requires
        path.len() > 10,
        path[5] == 'n',
    ensures
        !"/api/state/sse"@.is_prefix_of(path),
        !"/api/state"@.is_prefix_of(path),
        !"/api/cluster/restart"@.is_prefix_of(path),
        !"/api/cluster/tick_rate"@.is_prefix_of(path),
        path != "/"@,
{
    reveal_strlit("/api/state/sse");
    reveal_strlit("/api/state");
    reveal_strlit("/api/cluster/restart");
    reveal_strlit("/api/cluster/tick_rate");
    reveal_strlit("/");
    if "/api/state/sse"@.is_prefix_of(path) {
        assert(path[5] == "/api/state/sse"@[5]);
    }
    if "/api/state"@.is_prefix_of(path) {
        assert(path[5] == "/api/state"@[5]);
    }
    if "/api/cluster/restart"@.is_prefix_of(path) {
        assert(path[5] == "/api/cluster/restart"@[5]);
    }
    if "/api/cluster/tick_rate"@.is_prefix_of(path) {
        assert(path[5] == "/api/cluster/tick_rate"@[5]);
    }
}

/// What is asked of the one who keeps the state is what the request is for,
/// with what it names.
pub proof fn law_requests_ask_for_what_they_are_for(id: u64, ms: u64, all: bool, rate: Option<u64>)
    ensures
        command_of(Route::Events { send_all: all }, rate) == Some(
            Command::Register { send_all: all },
        ),
        command_of(Route::State, rate) == Some(Command::GetState),
        command_of(Route::RestartCluster, rate) == Some(Command::RestartCluster),
        command_of(Route::SetTickRate, Some(ms)) == Some(Command::SetTickRate(ms)),
        command_of(Route::SetTickRate, None) is None,
        command_of(Route::Node(Some(id)), rate) == Some(Command::ToggleOrRestartNode(id)),
        command_of(Route::Node(None), rate) is None,
        command_of(Route::Index, rate) is None,
{
}

/// An answer is passed on as it came, and where there is none that is said: the
/// server failed where it should have had one, and the request was bad where
/// what it named could not be done.
pub proof fn law_answers_are_passed_on(
    json: Seq<char>,
    id: u64,
    ms: u64,
    rate: Option<u64>,
    all: bool,
)
    ensures
        reply_of(Route::State, rate, OutcomeView::Answered(json)) == ReplyView::Json(json),
        reply_of(Route::State, rate, OutcomeView::Unanswered) is ServerError,
        reply_of(Route::State, rate, OutcomeView::Unsent) is ServerError,
        reply_of(Route::Node(Some(id)), rate, OutcomeView::Answered(json)) == ReplyView::Json(json),
        reply_of(Route::Node(Some(id)), rate, OutcomeView::Unanswered) is BadRequest,
        reply_of(Route::Node(None), rate, OutcomeView::Answered(json)) is BadRequest,
        reply_of(Route::RestartCluster, rate, OutcomeView::Unsent) is ServerError,
        reply_of(Route::RestartCluster, rate, OutcomeView::Unanswered) is Json,
        reply_of(Route::SetTickRate, Some(ms), OutcomeView::Answered(json)) is Json,
        reply_of(Route::SetTickRate, None, OutcomeView::Answered(json)) is BadRequest,
        reply_of(Route::SetTickRate, Some(ms), OutcomeView::Unanswered) is BadRequest,
        reply_of(Route::Events { send_all: all }, rate, OutcomeView::Unsent) is ServerError,
        reply_of(Route::Events { send_all: all }, rate, OutcomeView::Unanswered)
            == ReplyView::Events(Seq::empty()),
        reply_of(Route::Events { send_all: all }, rate, OutcomeView::Answered(json))
            == ReplyView::Events("data: "@ + json + "\n\n"@),
        reply_of(Route::Index, rate, OutcomeView::Answered(json)) is Page,
{
}

} // verus!
