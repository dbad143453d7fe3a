use rafty::driver::{ConfigChange, DriverEvent};
use rafty::proto::{ProtoMessage, ProtoMessageType};
use rafty::visualizer::{
    command_for, reply, route, tick_rate, Action, Command, Outcome, Reply, Route, VisualState,
    Visualizer, MAX_MESSAGES,
};

fn visualizer() -> Visualizer {
    Visualizer { state: VisualState::new(2), dirty: false }
}

#[test]
fn a_new_cluster_is_shown() {
    let v = visualizer();
    assert!(v.state.nodes[0].is_none());
    let node = v.state.nodes[2].as_ref().unwrap();
    assert_eq!((node.id, node.term, node.role.as_str(), node.paused), (2, 0, "Follower", false));
    assert_eq!(v.state.tick_rate_ms, 500);
}

#[test]
fn events_change_what_is_shown() {
    let mut v = visualizer();
    let none = vec![];
    let changed = DriverEvent::StateChanged {
        id: 1,
        term: 3,
        voted_for: 2,
        leader_id: 2,
        role: "Candidate".to_string(),
    };
    assert_eq!(v.handle(Command::Event(changed, 5), &none), Action::Nothing);
    assert!(v.dirty);
    let node = v.state.nodes[1].as_ref().unwrap();
    assert_eq!((node.term, node.voted_for, node.leader_id), (3, 2, 2));
    assert_eq!(node.role, "Candidate");
    v.handle(Command::Event(DriverEvent::Paused { id: 2, paused: true }, 6), &none);
    assert!(v.state.nodes[2].as_ref().unwrap().paused);
    v.handle(Command::Event(DriverEvent::Paused { id: 9, paused: true }, 6), &none);
    v.handle(Command::Event(DriverEvent::TickInterval { id: 1, interval_ms: 300 }, 7), &none);
    assert_eq!(v.state.tick_rate_ms, 300);
    let before = v.state.clone();
    v.handle(Command::Event(DriverEvent::Shutdown { id: 1, shutdown: true }, 8), &none);
    v.handle(Command::Event(DriverEvent::MessageReceived(ProtoMessage::default()), 9), &none);
    assert_eq!(v.state, before);
}

#[test]
fn only_the_last_messages_are_shown() {
    let mut v = visualizer();
    for i in 0..MAX_MESSAGES as u64 + 2 {
        let msg = ProtoMessage {
            msg_type: ProtoMessageType::HeartbeatResponse,
            from: 1,
            to: 2,
            term: i,
            ..Default::default()
        };
        v.handle(Command::Event(DriverEvent::MessageSent(msg), 10), &vec![]);
    }
    assert_eq!(v.state.messages.len(), MAX_MESSAGES);
    assert_eq!(v.state.messages[0].term, 2);
    assert_eq!(v.state.messages[0].msg_type, "HeartbeatResponse");
    assert_eq!(v.state.messages[0].timestamp, 10);
    let quiet = v.state.without_messages();
    assert!(quiet.messages.is_empty());
    assert_eq!(quiet.nodes, v.state.nodes);
}

#[test]
fn nodes_are_toggled_or_restarted() {
    let mut v = visualizer();
    let running = vec![false, false, false];
    assert_eq!(
        v.handle(Command::ToggleOrRestartNode(1), &running),
        Action::Tell(ConfigChange::Pause { target_id: Some(1), paused: true })
    );
    assert!(v.state.nodes[1].as_ref().unwrap().paused);
    assert_eq!(
        v.handle(Command::ToggleOrRestartNode(1), &running),
        Action::Tell(ConfigChange::Pause { target_id: Some(1), paused: false })
    );
    assert_eq!(
        v.handle(Command::ToggleOrRestartNode(0), &running),
        Action::Tell(ConfigChange::Pause { target_id: Some(0), paused: true })
    );
    assert_eq!(v.handle(Command::ToggleOrRestartNode(3), &running), Action::Refuse);
    let crashed = vec![false, false, true];
    assert_eq!(v.handle(Command::ToggleOrRestartNode(2), &crashed), Action::RestartNode(2));
}

#[test]
fn crashes_are_shown_when_the_state_is_asked_for() {
    let mut v = visualizer();
    let crashed = vec![false, true];
    assert_eq!(v.handle(Command::GetState, &crashed), Action::AnswerState);
    let node = v.state.nodes[1].as_ref().unwrap();
    assert_eq!((node.role.as_str(), node.paused), ("Crashed", true));
    assert_eq!(v.state.nodes[2].as_ref().unwrap().role, "Follower");
    v.state.node_restarted(1);
    let node = v.state.nodes[1].as_ref().unwrap();
    assert_eq!((node.role.as_str(), node.paused), ("Follower", false));
}

#[test]
fn clients_are_informed_of_changes_only() {
    let mut v = visualizer();
    let none = vec![];
    assert_eq!(v.handle(Command::Broadcast, &none), Action::Nothing);
    assert_eq!(
        v.handle(Command::SetTickRate(700), &none),
        Action::Tell(ConfigChange::TickInterval(700))
    );
    assert_eq!(v.handle(Command::Broadcast, &none), Action::InformClients);
    assert_eq!(v.handle(Command::Broadcast, &none), Action::Nothing);
    assert_eq!(
        v.handle(Command::Register { send_all: true }, &none),
        Action::Welcome { with_messages: true }
    );
    assert_eq!(v.handle(Command::RestartCluster, &none), Action::RestartCluster);
    v.state.cluster_restarted();
    assert_eq!(v.state.tick_rate_ms, 700);
    assert!(v.state.messages.is_empty());
    assert_eq!(v.state.nodes.len(), 3);
}

#[test]
fn paths_are_told_apart() {
    assert_eq!(route("/api/state/sse"), Route::Events { send_all: false });
    assert_eq!(route("/api/state/sse/all"), Route::Events { send_all: true });
    assert_eq!(route("/"), Route::Index);
    assert_eq!(route(""), Route::Index);
    assert_eq!(route("/api/state"), Route::State);
    assert_eq!(route("/api/cluster/restart"), Route::RestartCluster);
    assert_eq!(route("/api/cluster/tick_rate"), Route::SetTickRate);
    assert_eq!(route("/api/node/12/toggle"), Route::Node(Some(12)));
    assert_eq!(route("/api/node/x"), Route::Node(None));
    assert_eq!(route("/api/node/"), Route::Node(None));
    assert_eq!(route("/elsewhere"), Route::Index);
}

#[test]
fn tick_rates_have_bounds() {
    let rate = |s: &str| tick_rate(&Some(s.to_string()));
    assert_eq!(rate("250"), Some(250));
    assert_eq!(rate("1000"), Some(1000));
    assert_eq!(rate("249"), None);
    assert_eq!(rate("1001"), None);
    assert_eq!(rate("fast"), None);
    assert_eq!(tick_rate(&None), None);
}

#[test]
fn requests_are_answered_by_what_came_of_them() {
    let answered = |s: &str| Outcome::Answered(s.to_string());
    let json = |s: &str| Reply::Json(s.to_string());
    assert_eq!(reply(Route::Index, None, Outcome::Unsent), Reply::Page);
    let events = Route::Events { send_all: false };
    assert_eq!(reply(events, None, answered("{}")), Reply::Events("data: {}\n\n".to_string()));
    assert_eq!(reply(events, None, Outcome::Unanswered), Reply::Events(String::new()));
    assert_eq!(reply(events, None, Outcome::Unsent), Reply::ServerError);
    assert_eq!(reply(Route::State, None, answered("{}")), json("{}"));
    assert_eq!(reply(Route::State, None, Outcome::Unanswered), Reply::ServerError);
    assert_eq!(
        reply(Route::RestartCluster, None, Outcome::Unanswered),
        json("{\"success\":true}")
    );
    assert_eq!(reply(Route::RestartCluster, None, Outcome::Unsent), Reply::ServerError);
    assert_eq!(
        reply(Route::SetTickRate, Some(300), answered("true")),
        json("{\"success\":true,\"tick_rate_ms\":300}")
    );
    assert_eq!(reply(Route::SetTickRate, Some(300), Outcome::Unanswered), Reply::BadRequest);
    assert_eq!(reply(Route::SetTickRate, None, answered("true")), Reply::BadRequest);
    assert_eq!(reply(Route::Node(Some(1)), None, answered("{}")), json("{}"));
    assert_eq!(reply(Route::Node(Some(1)), None, Outcome::Unanswered), Reply::BadRequest);
    assert_eq!(reply(Route::Node(None), None, answered("{}")), Reply::BadRequest);
}

#[test]
fn requests_ask_for_what_their_path_says() {
    let asks = |route: Route, rate: Option<u64>| command_for(route, rate);
    assert!(matches!(
        asks(Route::Events { send_all: true }, None),
        Some(Command::Register { send_all: true })
    ));
    assert!(matches!(asks(Route::State, None), Some(Command::GetState)));
    assert!(matches!(asks(Route::RestartCluster, None), Some(Command::RestartCluster)));
    assert!(matches!(asks(Route::SetTickRate, Some(300)), Some(Command::SetTickRate(300))));
    assert!(asks(Route::SetTickRate, None).is_none());
    assert!(matches!(asks(Route::Node(Some(4)), None), Some(Command::ToggleOrRestartNode(4))));
    assert!(asks(Route::Node(None), None).is_none());
    assert!(asks(Route::Index, Some(300)).is_none());
}
