use rafty::node_id::ValidNodeId;
use rafty::options::{parse_peers, process_config, OptionError, Options};

fn args(texts: &[&str]) -> Vec<String> {
    texts.iter().map(|s| s.to_string()).collect()
}

#[test]
fn nothing_told_gives_the_defaults() {
    let o = Options::from_args(&args(&["node"])).unwrap();
    assert_eq!((o.id, o.tcp_port, o.http_port), (0, 9001, 8080));
    assert_eq!((o.peers.as_str(), o.log_level.as_str()), ("", "info"));
}

#[test]
fn arguments_are_taken_in_pairs() {
    let o = Options::from_args(&args(&[
        "node", "--id", "3", "--tcp-port", "7000", "--http-port", "7001", "--peers", "1=a:1",
        "--log-level", "debug", "--id", "4",
    ]))
    .unwrap();
    assert_eq!((o.id, o.tcp_port, o.http_port), (4, 7000, 7001));
    assert_eq!((o.peers.as_str(), o.log_level.as_str()), ("1=a:1", "debug"));
}

#[test]
fn wrong_arguments_are_named() {
    let fail = |texts: &[&str]| Options::from_args(&args(texts)).unwrap_err();
    assert_eq!(fail(&["node", "--id"]), OptionError::MissingValue(1));
    assert_eq!(fail(&["node", "--id", "x"]), OptionError::InvalidId(1));
    assert_eq!(fail(&["node", "--tcp-port", "65536"]), OptionError::InvalidTcpPort(1));
    assert_eq!(
        fail(&["node", "--id", "1", "--http-port", "-2"]),
        OptionError::InvalidHttpPort(3)
    );
    assert_eq!(fail(&["node", "--nope", "1"]), OptionError::Unknown(1));
}

#[test]
fn the_environment_has_the_last_word() {
    let some = |s: &str| Some(s.to_string());
    let o = Options::from_args(&args(&["node", "--id", "1"])).unwrap().with_environment(
        some("2"),
        some("not a port"),
        some("99"),
        some("5=b:2"),
        None,
    );
    assert_eq!((o.id, o.tcp_port, o.http_port), (2, 9001, 99));
    assert_eq!((o.peers.as_str(), o.log_level.as_str()), ("5=b:2", "info"));
}

#[test]
fn peers_are_pairs() {
    let peers = parse_peers("1=host1:9001,2=host2:9002,odd,1=last:1,a=b=c").unwrap();
    assert_eq!(peers.len(), 2);
    assert_eq!(peers[&1], "last:1");
    assert_eq!(peers[&2], "host2:9002");
    assert!(parse_peers("").unwrap().is_empty());
    assert!(parse_peers("x=host:1").is_none());
}

#[test]
fn a_process_counts_itself_into_its_cluster() {
    let c = process_config(ValidNodeId::new(2).unwrap(), 2);
    assert_eq!(c.cluster_size, 3);
    assert_eq!(c.id.get(), 2);
    assert_eq!(c.min_ticks_before_election.get(), 10);
    assert_eq!(c.max_ticks_before_election.get(), 20);
    assert_eq!(c.ticks_between_heartbeats.get(), 2);
}
