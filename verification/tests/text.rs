use rafty::logger::{
    appended_text, format_proto_message, format_time, kind_name, log_line, push_capped, role_name,
    tagged, EventLevel, LogLevel, MAX_LOG_LINES,
};
use rafty::proto::{Entry, ProtoMessage, ProtoMessageType};
use rafty::role::{FollowerState, Role};
use rafty::text::{
    bytes_of, chars_of, decimal, find, first_line, parse_u64, parse_up_to, spells, split,
    starts_with, string_of, words,
};

fn texts(pieces: Vec<Vec<char>>) -> Vec<String> {
    pieces.iter().map(string_of).collect()
}

#[test]
fn numbers_are_written_and_read() {
    for n in [0, 7, 10, 99, 100, 12345, u64::MAX] {
        assert_eq!(decimal(n), n.to_string());
        assert_eq!(parse_u64(&chars_of(&decimal(n))), Some(n));
    }
}

#[test]
fn numbers_are_read_as_the_standard_library_reads_them() {
    for text in ["", "+", "-1", "+7", "007", "1 ", "12a", "18446744073709551616", "++1", "0"] {
        assert_eq!(parse_u64(&chars_of(text)), text.parse::<u64>().ok(), "{}", text);
        assert_eq!(
            parse_up_to(&chars_of(text), 65535).map(|n| n as u16),
            text.parse::<u16>().ok(),
            "{}",
            text
        );
    }
    assert_eq!(parse_up_to(&chars_of("65535"), 65535), Some(65535));
    assert_eq!(parse_up_to(&chars_of("65536"), 65535), None);
}

#[test]
fn texts_are_split_as_the_standard_library_splits_them() {
    for text in ["", ",", "a,b", ",a,,b,", "abc"] {
        let expected: Vec<String> = text.split(',').map(String::from).collect();
        assert_eq!(texts(split(&chars_of(text), ',')), expected);
    }
    for text in ["", "  ", "GET / HTTP/1.1", "\ta\u{a0}b\u{3000}c ", "x"] {
        let expected: Vec<String> = text.split_whitespace().map(String::from).collect();
        assert_eq!(texts(words(&chars_of(text))), expected);
    }
    for text in ["a\r\nb", "a\nb", "a\r", "\n", "a\rb\nc", "\r\n"] {
        let expected = text.lines().next().unwrap();
        let line = string_of(&first_line(&chars_of(text)));
        assert_eq!(line.trim_end_matches('\r'), expected.trim_end_matches('\r'), "{:?}", text);
    }
}

#[test]
fn texts_are_searched() {
    let chars = chars_of("abcabc");
    assert_eq!(find(&chars, "bc"), Some(1));
    assert_eq!(find(&chars, "abcabc"), Some(0));
    assert_eq!(find(&chars, "cc"), None);
    assert_eq!(find(&chars, ""), Some(0));
    assert!(starts_with(&chars, "abca"));
    assert!(!starts_with(&chars, "abcabca"));
    assert!(spells(&chars, "abcabc"));
    assert!(!spells(&chars, "abc"));
}

#[test]
fn texts_are_encoded() {
    assert_eq!(bytes_of("a\u{e9}\u{20ac}"), "a\u{e9}\u{20ac}".as_bytes());
}

#[test]
fn time_of_day_is_padded() {
    assert_eq!(format_time(0, 0), "00:00:00.000");
    assert_eq!(format_time(86400 + 3600 * 13 + 60 * 5 + 9, 42), "13:05:09.042");
    assert_eq!(format_time(86399, 999), "23:59:59.999");
}

#[test]
fn levels_show_what_they_should() {
    let shown = |l: LogLevel| {
        [l.shows(EventLevel::Basic), l.shows(EventLevel::Info), l.shows(EventLevel::Debug)]
    };
    assert_eq!(shown(LogLevel::Basic), [true, false, false]);
    assert_eq!(shown(LogLevel::Info), [true, true, false]);
    assert_eq!(shown(LogLevel::Debug), [true, true, true]);
    assert_eq!(LogLevel::from_text("DeBuG"), LogLevel::Debug);
    assert_eq!(LogLevel::from_text("BASIC"), LogLevel::Basic);
    assert_eq!(LogLevel::from_text("info"), LogLevel::Info);
    assert_eq!(LogLevel::from_text("debugging"), LogLevel::Info);
}

#[test]
fn reports_are_written_out() {
    assert_eq!(log_line("01:02:03.004", 7, "hello"), "[01:02:03.004] [Node 7] hello");
    assert_eq!(tagged(EventLevel::Info, "x"), "[INFO] x");
    assert_eq!(tagged(EventLevel::Basic, ""), "[BASIC] ");
    assert_eq!(tagged(EventLevel::Debug, "y"), "[DEBUG] y");
    let msg = ProtoMessage {
        msg_type: ProtoMessageType::AppendEntries,
        to: 2,
        from: 1,
        term: 4,
        commit: 3,
        entries: vec![Entry { term: 4, index: 1, data: vec![] }],
        ..Default::default()
    };
    assert_eq!(
        format_proto_message(&msg),
        "AppendEntries from 1 to 2 (term: 4, commit: 3, entries: 1)"
    );
    assert_eq!(
        appended_text(2, 5, 6, 3),
        "Appended 2 entries to log (indices 5..6, term 3)"
    );
    assert_eq!(kind_name(ProtoMessageType::RequestVoteResponse), "RequestVoteResponse");
    assert_eq!(role_name(&Role::Follower(FollowerState::default())), "Follower");
}

#[test]
fn heartbeats_matter_least() {
    assert_eq!(EventLevel::of_message(ProtoMessageType::Heartbeat), EventLevel::Debug);
    assert_eq!(EventLevel::of_message(ProtoMessageType::HeartbeatResponse), EventLevel::Debug);
    assert_eq!(EventLevel::of_message(ProtoMessageType::RequestVote), EventLevel::Info);
}

#[test]
fn only_the_last_reports_are_kept() {
    let mut lines: Vec<usize> = Vec::new();
    for i in 0..=MAX_LOG_LINES {
        push_capped(&mut lines, i, MAX_LOG_LINES);
    }
    assert_eq!(lines.len(), MAX_LOG_LINES);
    assert_eq!(lines[0], 1);
    assert_eq!(lines[MAX_LOG_LINES - 1], MAX_LOG_LINES);
}
