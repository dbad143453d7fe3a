use rafty::visualizer::Route;
use rafty::web::{query_value, route_in, tick_rate_in};

#[test]
fn urls_say_what_is_asked_for() {
    assert_eq!(route_in("http://localhost:8080/api/node/3/toggle?x=1"), Some(Route::Node(Some(3))));
    assert_eq!(route_in("http://localhost:8080/api/state"), Some(Route::State));
    assert_eq!(route_in("http://localhost:8080"), Some(Route::Index));
    assert_eq!(route_in("/api/state"), None);
}

#[test]
fn urls_name_a_tick_rate() {
    let url = |query: &str| format!("http://localhost/api/cluster/tick_rate{}", query);
    assert_eq!(tick_rate_in(&url("?value=300")), Some(300));
    assert_eq!(tick_rate_in(&url("?a=b&value=%34%30%30&value=500")), Some(400));
    assert_eq!(tick_rate_in(&url("?value=20")), None);
    assert_eq!(tick_rate_in(&url("?rate=300")), None);
    assert_eq!(tick_rate_in(&url("")), None);
    assert_eq!(tick_rate_in("?value=300"), None);
}

#[test]
fn the_first_value_counts() {
    let pair = |k: &str, v: &str| (k.to_string(), v.to_string());
    let pairs = vec![pair("a", "1"), pair("b", "2"), pair("a", "3")];
    assert_eq!(query_value(&pairs, "a"), Some("1".to_string()));
    assert_eq!(query_value(&pairs, "b"), Some("2".to_string()));
    assert_eq!(query_value(&pairs, "c"), None);
}
