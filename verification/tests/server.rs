use rafty::cluster::Cluster;
use rafty::proto::{Entry, Message};
use rafty::role::Role;
use rafty::server::{
    about_to_campaign, answer, entry_text, not_found, proposal_from, read_proposal,
    read_request, read_request_bytes, Proposal, Request, SharedState, Watch,
};

#[test]
fn requests_are_told_apart() {
    assert_eq!(read_request("GET / HTTP/1.1\r\nHost: x\r\n\r\n"), Request::Dashboard);
    assert_eq!(read_request("GET /status HTTP/1.1\r\n\r\n"), Request::Status);
    assert_eq!(read_request("GET /other HTTP/1.1\r\n\r\n"), Request::NotFound);
    assert_eq!(read_request("POST / HTTP/1.1\r\n\r\n"), Request::NotFound);
    assert_eq!(read_request("GET"), Request::Ignored);
    assert_eq!(read_request(""), Request::Ignored);
}

#[test]
fn the_body_follows_the_first_empty_line() {
    let text = "POST /propose HTTP/1.1\r\nA: b\r\n\r\n{\"data\":\"x\"}\r\n\r\nmore";
    assert_eq!(
        read_request(text),
        Request::Propose("{\"data\":\"x\"}\r\n\r\nmore".to_string())
    );
    assert_eq!(read_request("POST /propose HTTP/1.1"), Request::Propose(String::new()));
}

#[test]
fn bytes_that_are_no_text_are_read_all_the_same() {
    let mut bytes = b"POST /propose HTTP/1.1\r\n\r\na".to_vec();
    bytes.push(0xff);
    assert_eq!(read_request_bytes(&bytes), Request::Propose("a\u{fffd}".to_string()));
}

#[test]
fn proposals_are_read_from_json() {
    assert_eq!(
        read_proposal("{\"data\": \"set \\u00e9\", \"x\": 1}"),
        Proposal::Accepted("set \u{e9}".as_bytes().to_vec())
    );
    assert_eq!(read_proposal("{\"data\": 5}"), Proposal::MissingData);
    assert_eq!(read_proposal("[1]"), Proposal::MissingData);
    assert_eq!(read_proposal("{\"data\": "), Proposal::InvalidJson);
    assert_eq!(read_proposal(""), Proposal::InvalidJson);
}

#[test]
fn proposals_follow_from_the_field() {
    assert_eq!(proposal_from(Some(Some("ab".to_string()))), Proposal::Accepted(vec![97, 98]));
    assert_eq!(proposal_from(Some(None)), Proposal::MissingData);
    assert_eq!(proposal_from(None), Proposal::InvalidJson);
    assert_eq!(Proposal::MissingData.error(), "Missing 'data' field");
    assert_eq!(Proposal::InvalidJson.error(), "Invalid JSON body");
    assert_eq!(Proposal::NotLeader.error(), "Not the leader");
    assert_eq!(Proposal::Accepted(vec![]).error(), "");
}

#[test]
fn answers_give_their_length_in_bytes() {
    assert_eq!(
        answer("text/html", "<\u{e9}>"),
        "HTTP/1.1 200 OK\r\nContent-Type: text/html\r\nContent-Length: 4\r\nConnection: close\r\n\r\n<\u{e9}>"
    );
    assert_eq!(
        not_found(),
        "HTTP/1.1 404 NOT FOUND\r\nContent-Length: 9\r\nConnection: close\r\n\r\nNot Found"
    );
}

#[test]
fn the_shown_state_follows_the_node() {
    let mut cluster = Cluster::new();
    let mut shown = SharedState::new(1);
    assert_eq!((shown.role.as_str(), shown.term), ("Follower", 1));
    // A follower refuses what is for the leader to record.
    let accepted = || Proposal::Accepted(vec![1, 2]);
    assert_eq!(shown.submit(accepted()), Proposal::NotLeader);
    assert!(shown.take_proposals().is_empty());
    let mut node = cluster.remove(1);
    let mut watch = Watch::new(node.term);
    assert!(watch.look(&node).former_role.is_none());

    for _ in 0..node.election_timeout - 1 {
        assert!(!about_to_campaign(&node));
        node.tick();
    }
    assert!(about_to_campaign(&node));
    node.tick();
    let news = watch.look(&node);
    assert_eq!(news.former_role, Some("Follower"));
    assert!(news.election_started);
    let again = watch.look(&node);
    assert_eq!(again.former_role, None);
    assert!(!again.election_started);

    shown.refresh(&node);
    assert_eq!((shown.role.as_str(), shown.term, shown.voted_for), ("Candidate", 1, 1));
    assert!(shown.log_entries.is_empty());
    assert_eq!(shown.submit(accepted()), Proposal::NotLeader);

    // The votes of the others make it leader, with an entry of its own.
    cluster.step();
    while let Ok(msg) = node.channel.recv.try_recv() {
        node.step(Message::from(msg)).unwrap();
    }
    assert!(matches!(node.role, Role::Leader(_)));
    assert!(!about_to_campaign(&node));
    shown.refresh(&node);
    assert_eq!((shown.role.as_str(), shown.leader_id, shown.log_entries.len()), ("Leader", 1, 1));
    assert_eq!(shown.submit(accepted()), accepted());
    assert_eq!(shown.submit(Proposal::MissingData), Proposal::MissingData);
    assert_eq!(shown.take_proposals(), vec![vec![1, 2]]);
    assert!(shown.take_proposals().is_empty());
}

#[test]
fn entries_are_shown_as_text() {
    let entry = |data: &[u8]| Entry { term: 1, index: 1, data: data.to_vec() };
    assert_eq!(entry_text(&entry(b"x=1")), "x=1");
    assert_eq!(entry_text(&entry(&[0x61, 0xff])), "a\u{fffd}");
}
