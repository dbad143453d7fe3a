use rafty::framing::{frame, frame_length};
use rafty::proto::{
    Append, AppendResponse, Entry, Heartbeat, Message, MessageType, ProtoMessage,
    ProtoMessageType, RequestVote, RequestVoteResponse,
};

fn all_messages() -> Vec<Message> {
    let beat = Heartbeat { to: 1, from: 2, term: 3, commit: 4, last_index: 5, last_term: 6 };
    vec![
        Message::Heartbeat(beat),
        Message::HeartbeatResponse(beat),
        Message::Append(Append {
            to: 1,
            from: 2,
            leader_term: 3,
            leader_commit: 4,
            last_index: 5,
            last_term: 6,
            entries: vec![Entry { term: 3, index: 6, data: vec![7, 8] }],
        }),
        Message::AppendResponse(AppendResponse {
            to: 1,
            from: 2,
            term: 3,
            success: true,
            last_index: 6,
        }),
        Message::RequestVote(RequestVote {
            to: 0,
            from: 2,
            candidate_term: 3,
            last_index: 5,
            last_term: 6,
        }),
        Message::RequestVoteResponse(RequestVoteResponse {
            to: 1,
            from: 2,
            voted_for: 1,
            term: 3,
        }),
    ]
}

#[test]
fn messages_survive_the_flat_form() {
    for (sent, expected) in all_messages().into_iter().zip(all_messages()) {
        assert_eq!(Message::from(sent.into_proto()), expected);
    }
}

#[test]
fn flat_form_leaves_irrelevant_fields_empty() {
    let flat = all_messages().remove(5).into_proto();
    let expected = ProtoMessage {
        msg_type: ProtoMessageType::RequestVoteResponse,
        to: 1,
        from: 2,
        term: 3,
        voted_for: 1,
        ..Default::default()
    };
    assert_eq!(flat, expected);
}

#[test]
fn only_start_campaign_is_local() {
    assert!(MessageType::StartCampaign.is_local_only());
    assert!(!MessageType::Heartbeat.is_local_only());
    assert!(!MessageType::RequestVoteResponse.is_local_only());
}

#[test]
fn kinds_have_their_numbers() {
    let kinds = [
        ProtoMessageType::Heartbeat,
        ProtoMessageType::HeartbeatResponse,
        ProtoMessageType::AppendEntries,
        ProtoMessageType::AppendEntriesResponse,
        ProtoMessageType::RequestVote,
        ProtoMessageType::RequestVoteResponse,
    ];
    for (number, kind) in kinds.iter().enumerate() {
        assert_eq!(kind.number(), number as i32);
        assert_eq!(ProtoMessageType::from_number(number as i32), *kind);
        assert_eq!(MessageType::from(*kind).to_proto(), *kind);
    }
    assert_eq!(ProtoMessageType::from_number(6), ProtoMessageType::Heartbeat);
    assert_eq!(ProtoMessageType::from_number(-1), ProtoMessageType::Heartbeat);
}

#[test]
fn frames_start_with_their_length() {
    let payload: Vec<u8> = (0..=255).chain(0..=3).map(|i: u16| i as u8).collect();
    let framed = frame(&payload);
    assert_eq!(&framed[..4], &[0, 0, 1, 4]);
    assert_eq!(&framed[4..], &payload[..]);
    assert_eq!(frame_length(&[0, 0, 1, 4]), 260);
    assert_eq!(frame(&vec![]), vec![0, 0, 0, 0]);
    assert_eq!(frame_length(&[0xff, 0xff, 0xff, 0xff]), u32::MAX);
    assert_eq!(frame_length(&[1, 2, 3, 4]), 0x01020304);
}
