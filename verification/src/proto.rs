use vstd::prelude::*;

verus! {

/// One entry of a log.
#[derive(Debug, PartialEq, Eq, Hash, Default)]
pub struct Entry {
    /// The term of the leader that created the entry.
    pub term: u64,
    /// The position of the entry in the log, counted from 1.
    pub index: u64,
    /// What the entry carries, uninterpreted.
    pub data: Vec<u8>,
}

/// An entry as a mathematical value.
#[verifier::ext_equal]
pub struct EntryView {
    pub term: u64,
    pub index: u64,
    pub data: Seq<u8>,
}

impl View for Entry {
    type V = EntryView;

    open spec fn view(&self) -> EntryView {
        EntryView { term: self.term, index: self.index, data: self.data@ }
    }
}

/// The entries as mathematical values.
pub open spec fn entries_view(entries: Seq<Entry>) -> Seq<EntryView> {
    Seq::new(entries.len(), |i: int| entries[i]@)
}

impl Clone for Entry {
    fn clone(&self) -> (r: Entry)
        ensures
            r@ == self@,
    {
        let data = self.data.clone();
        assert(data@ =~= self.data@);
        Entry { term: self.term, index: self.index, data }
    }
}

/// A copy of a run of entries.
pub fn clone_entries(entries: &Vec<Entry>) -> (r: Vec<Entry>)
    ensures
        entries_view(r@) == entries_view(entries@),
{
    let mut out: Vec<Entry> = Vec::with_capacity(entries.len());
    let mut i: usize = 0;
    while i < entries.len()
        invariant
            i <= entries.len(),
            out@.len() == i,
            forall|j: int| 0 <= j < out@.len() ==> (#[trigger] out@[j])@ == entries@[j]@,
        decreases entries.len() - i,
    {
        out.push(entries[i].clone());
        i = i + 1;
    }
    assert(entries_view(out@) =~= entries_view(entries@));
    out
}

/// The kinds of message that travel between nodes.
#[derive(Debug, Clone, Copy, PartialEq, Eq, Hash, Structural)]
pub enum ProtoMessageType {
    Heartbeat,
    HeartbeatResponse,
    AppendEntries,
    AppendEntriesResponse,
    RequestVote,
    RequestVoteResponse,
}

impl ProtoMessageType {
    /// The number by which a kind is known on the wire.
    pub open spec fn spec_number(self) -> i32 {
        match self {
            ProtoMessageType::Heartbeat => 0,
            ProtoMessageType::HeartbeatResponse => 1,
            ProtoMessageType::AppendEntries => 2,
            ProtoMessageType::AppendEntriesResponse => 3,
            ProtoMessageType::RequestVote => 4,
            ProtoMessageType::RequestVoteResponse => 5,
        }
    }

    /// The number by which this kind is known on the wire.
    pub fn number(self) -> (r: i32)
        ensures
            r == self.spec_number(),
    {
        match self {
            ProtoMessageType::Heartbeat => 0,
            ProtoMessageType::HeartbeatResponse => 1,
            ProtoMessageType::AppendEntries => 2,
            ProtoMessageType::AppendEntriesResponse => 3,
            ProtoMessageType::RequestVote => 4,
            ProtoMessageType::RequestVoteResponse => 5,
        }
    }

    /// The kind with this number. A number that no kind has reads as the
    /// first kind, `Heartbeat`.
    pub fn from_number(number: i32) -> (r: ProtoMessageType)
        ensures
            0 <= number <= 5 ==> r.spec_number() == number,
            !(0 <= number <= 5) ==> r == ProtoMessageType::Heartbeat,
    {
        if number == 1 {
            ProtoMessageType::HeartbeatResponse
        } else if number == 2 {
            ProtoMessageType::AppendEntries
        } else if number == 3 {
            ProtoMessageType::AppendEntriesResponse
        } else if number == 4 {
            ProtoMessageType::RequestVote
        } else if number == 5 {
            ProtoMessageType::RequestVoteResponse
        } else {
            ProtoMessageType::Heartbeat
        }
    }
}

/// The flat form in which every message travels. Which fields mean something
/// depends on `msg_type`; the others are zero, empty or false.
#[derive(Debug, PartialEq)]
pub struct ProtoMessage {
    pub msg_type: ProtoMessageType,
    pub to: u64,
    pub from: u64,
    pub term: u64,
    pub commit: u64,
    pub last_term: u64,
    pub last_index: u64,
    pub entries: Vec<Entry>,
    pub voted_for: u64,
    pub success: bool,
}

/// A flat message as a mathematical value.
#[verifier::ext_equal]
pub struct ProtoView {
    pub msg_type: ProtoMessageType,
    pub to: u64,
    pub from: u64,
    pub term: u64,
    pub commit: u64,
    pub last_term: u64,
    pub last_index: u64,
    pub entries: Seq<EntryView>,
    pub voted_for: u64,
    pub success: bool,
}

impl View for ProtoMessage {
    type V = ProtoView;

    open spec fn view(&self) -> ProtoView {
        ProtoView {
            msg_type: self.msg_type,
            to: self.to,
            from: self.from,
            term: self.term,
            commit: self.commit,
            last_term: self.last_term,
            last_index: self.last_index,
            entries: entries_view(self.entries@),
            voted_for: self.voted_for,
            success: self.success,
        }
    }
}

impl Default for ProtoMessage {
    /// A heartbeat with nothing in it.
    fn default() -> (r: ProtoMessage)
        ensures
            r@ == blank(ProtoMessageType::Heartbeat, 0, 0),
    {
        ProtoMessage::blank(ProtoMessageType::Heartbeat, 0, 0)
    }
}

impl Clone for ProtoMessage {
    fn clone(&self) -> (r: ProtoMessage)
        ensures
            r@ == self@,
    {
        ProtoMessage {
            msg_type: self.msg_type,
            to: self.to,
            from: self.from,
            term: self.term,
            commit: self.commit,
            last_term: self.last_term,
            last_index: self.last_index,
            entries: clone_entries(&self.entries),
            voted_for: self.voted_for,
            success: self.success,
        }
    }
}

/// Type-safe equivalent to `ProtoMessage`.
///
/// `ProtoMessage` is a flat type which contains lots of fields that are irrelevant in certain
/// situations (e.g. `voted_for` is only valid in a `RequestVoteResponse`), `Message` fixes
/// this by supplying only the fields relevant to each message variant.
#[derive(Debug, PartialEq)]
pub enum Message {
    Heartbeat(Heartbeat),
    HeartbeatResponse(Heartbeat),
    Append(Append),
    AppendResponse(AppendResponse),
    RequestVote(RequestVote),
    RequestVoteResponse(RequestVoteResponse),
    StartCampaign,
}

/// The kinds of message that a node handles.
#[derive(Debug, Clone, Copy, PartialEq, Eq, Hash, Structural)]
pub enum MessageType {
    Heartbeat,
    HeartbeatResponse,
    Append,
    AppendResponse,
    RequestVote,
    RequestVoteResponse,
    StartCampaign,
}

/// Sent by a leader to say that it is alive, and back by those that heard it.
#[derive(Debug, Clone, Copy, PartialEq, Eq, Structural)]
pub struct Heartbeat {
    pub to: u64,
    pub from: u64,
    pub term: u64,
    pub commit: u64,
    pub last_index: u64,
    pub last_term: u64,
}

/// Sent by a leader to replicate `entries`, which follow the entry
/// `last_index` of term `last_term`.
#[derive(Debug, PartialEq)]
pub struct Append {
    pub to: u64,
    pub from: u64,
    pub leader_term: u64,
    pub leader_commit: u64,
    pub last_index: u64,
    pub last_term: u64,
    pub entries: Vec<Entry>,
}

/// The answer to an `Append`. On success `last_index` is the last entry that
/// the two logs are known to share, on failure the last entry of the sender.
#[derive(Debug, Clone, Copy, PartialEq, Eq, Structural)]
pub struct AppendResponse {
    pub to: u64,
    pub from: u64,
    pub term: u64,
    pub success: bool,
    pub last_index: u64,
}

/// Sent by a candidate whose last entry is `last_index` of term `last_term`.
#[derive(Debug, Clone, Copy, PartialEq, Eq, Structural)]
pub struct RequestVote {
    pub to: u64,
    pub from: u64,
    pub candidate_term: u64,
    pub last_index: u64,
    pub last_term: u64,
}

/// The answer to a `RequestVote`: for whom the sender voted in `term`, 0 for nobody.
#[derive(Debug, Clone, Copy, PartialEq, Eq, Structural)]
pub struct RequestVoteResponse {
    pub to: u64,
    pub from: u64,
    pub voted_for: u64,
    pub term: u64,
}

/// An `Append` as a mathematical value.
#[verifier::ext_equal]
pub struct AppendView {
    pub to: u64,
    pub from: u64,
    pub leader_term: u64,
    pub leader_commit: u64,
    pub last_index: u64,
    pub last_term: u64,
    pub entries: Seq<EntryView>,
}

/// A message as a mathematical value.
#[verifier::ext_equal]
pub enum MessageView {
    Heartbeat(Heartbeat),
    HeartbeatResponse(Heartbeat),
    Append(AppendView),
    AppendResponse(AppendResponse),
    RequestVote(RequestVote),
    RequestVoteResponse(RequestVoteResponse),
    StartCampaign,
}

impl View for Append {
    type V = AppendView;

    open spec fn view(&self) -> AppendView {
        AppendView {
            to: self.to,
            from: self.from,
            leader_term: self.leader_term,
            leader_commit: self.leader_commit,
            last_index: self.last_index,
            last_term: self.last_term,
            entries: entries_view(self.entries@),
        }
    }
}

impl View for Message {
    type V = MessageView;

    open spec fn view(&self) -> MessageView {
        match *self {
            Message::Heartbeat(m) => MessageView::Heartbeat(m),
            Message::HeartbeatResponse(m) => MessageView::HeartbeatResponse(m),
            Message::Append(m) => MessageView::Append(m@),
            Message::AppendResponse(m) => MessageView::AppendResponse(m),
            Message::RequestVote(m) => MessageView::RequestVote(m),
            Message::RequestVoteResponse(m) => MessageView::RequestVoteResponse(m),
            Message::StartCampaign => MessageView::StartCampaign,
        }
    }
}

/// A flat message of which only the kind and the two ends are set.
pub open spec fn blank(msg_type: ProtoMessageType, to: u64, from: u64) -> ProtoView {
    ProtoView {
        msg_type,
        to,
        from,
        term: 0,
        commit: 0,
        last_term: 0,
        last_index: 0,
        entries: Seq::empty(),
        voted_for: 0,
        success: false,
    }
}

impl MessageView {
    /// The node that the message is addressed to, 0 where there is none.
    pub open spec fn to(self) -> u64 {
        match self {
            MessageView::Heartbeat(m) => m.to,
            MessageView::HeartbeatResponse(m) => m.to,
            MessageView::Append(m) => m.to,
            MessageView::AppendResponse(m) => m.to,
            MessageView::RequestVote(m) => m.to,
            MessageView::RequestVoteResponse(m) => m.to,
            MessageView::StartCampaign => 0,
        }
    }

    /// The node that the message comes from, 0 where there is none.
    pub open spec fn from(self) -> u64 {
        match self {
            MessageView::Heartbeat(m) => m.from,
            MessageView::HeartbeatResponse(m) => m.from,
            MessageView::Append(m) => m.from,
            MessageView::AppendResponse(m) => m.from,
            MessageView::RequestVote(m) => m.from,
            MessageView::RequestVoteResponse(m) => m.from,
            MessageView::StartCampaign => 0,
        }
    }

    /// The flat form of this message. A `StartCampaign` has none.
    pub open spec fn to_proto(self) -> ProtoView {
        match self {
            MessageView::Heartbeat(m) => ProtoView {
                term: m.term,
                commit: m.commit,
                last_term: m.last_term,
                last_index: m.last_index,
                ..blank(ProtoMessageType::Heartbeat, m.to, m.from)
            },
            MessageView::HeartbeatResponse(m) => ProtoView {
                term: m.term,
                commit: m.commit,
                last_term: m.last_term,
                last_index: m.last_index,
                ..blank(ProtoMessageType::HeartbeatResponse, m.to, m.from)
            },
            MessageView::Append(m) => ProtoView {
                term: m.leader_term,
                commit: m.leader_commit,
                last_term: m.last_term,
                last_index: m.last_index,
                entries: m.entries,
                ..blank(ProtoMessageType::AppendEntries, m.to, m.from)
            },
            MessageView::AppendResponse(m) => ProtoView {
                term: m.term,
                last_index: m.last_index,
                success: m.success,
                ..blank(ProtoMessageType::AppendEntriesResponse, m.to, m.from)
            },
            MessageView::RequestVote(m) => ProtoView {
                term: m.candidate_term,
                last_term: m.last_term,
                last_index: m.last_index,
                ..blank(ProtoMessageType::RequestVote, m.to, m.from)
            },
            MessageView::RequestVoteResponse(m) => ProtoView {
                term: m.term,
                voted_for: m.voted_for,
                ..blank(ProtoMessageType::RequestVoteResponse, m.to, m.from)
            },
            MessageView::StartCampaign => arbitrary(),
        }
    }
}

impl ProtoView {
    /// The message that this flat form stands for.
    pub open spec fn to_message(self) -> MessageView {
        match self.msg_type {
            ProtoMessageType::Heartbeat => MessageView::Heartbeat(self.heartbeat()),
            ProtoMessageType::HeartbeatResponse => MessageView::HeartbeatResponse(self.heartbeat()),
            ProtoMessageType::AppendEntries => MessageView::Append(
                AppendView {
                    to: self.to,
                    from: self.from,
                    leader_term: self.term,
                    leader_commit: self.commit,
                    last_index: self.last_index,
                    last_term: self.last_term,
                    entries: self.entries,
                },
            ),
            ProtoMessageType::AppendEntriesResponse => MessageView::AppendResponse(
                AppendResponse {
                    to: self.to,
                    from: self.from,
                    term: self.term,
                    success: self.success,
                    last_index: self.last_index,
                },
            ),
            ProtoMessageType::RequestVote => MessageView::RequestVote(
                RequestVote {
                    to: self.to,
                    from: self.from,
                    candidate_term: self.term,
                    last_index: self.last_index,
                    last_term: self.last_term,
                },
            ),
            ProtoMessageType::RequestVoteResponse => MessageView::RequestVoteResponse(
                RequestVoteResponse {
                    to: self.to,
                    from: self.from,
                    voted_for: self.voted_for,
                    term: self.term,
                },
            ),
        }
    }

    /// The fields that a heartbeat and its answer carry.
    pub open spec fn heartbeat(self) -> Heartbeat {
        Heartbeat {
            to: self.to,
            from: self.from,
            term: self.term,
            commit: self.commit,
            last_index: self.last_index,
            last_term: self.last_term,
        }
    }
}

impl ProtoMessage {
    fn blank(msg_type: ProtoMessageType, to: u64, from: u64) -> (r: ProtoMessage)
        ensures
            r@ == blank(msg_type, to, from),
    {
        let r = ProtoMessage {
            msg_type,
            to,
            from,
            term: 0,
            commit: 0,
            last_term: 0,
            last_index: 0,
            entries: Vec::new(),
            voted_for: 0,
            success: false,
        };
        assert(r@ =~= blank(msg_type, to, from));
        r
    }
}

impl Message {
    /// The flat form of this message, in which it can be sent. A
    /// `StartCampaign` should never be sent across the wire.
    pub fn into_proto(self) -> (r: ProtoMessage)
        requires
            self !is StartCampaign,
        ensures
            r@ == self@.to_proto(),
    {
        match self {
            Message::Heartbeat(m) => {
                let mut p = ProtoMessage::blank(ProtoMessageType::Heartbeat, m.to, m.from);
                p.term = m.term;
                p.commit = m.commit;
                p.last_term = m.last_term;
                p.last_index = m.last_index;
                p
            },
            Message::HeartbeatResponse(m) => {
                let mut p = ProtoMessage::blank(ProtoMessageType::HeartbeatResponse, m.to, m.from);
                p.term = m.term;
                p.commit = m.commit;
                p.last_term = m.last_term;
                p.last_index = m.last_index;
                p
            },
            Message::Append(m) => {
                let mut p = ProtoMessage::blank(ProtoMessageType::AppendEntries, m.to, m.from);
                p.term = m.leader_term;
                p.commit = m.leader_commit;
                p.last_term = m.last_term;
                p.last_index = m.last_index;
                p.entries = m.entries;
                p
            },
            Message::AppendResponse(m) => {
                let mut p = ProtoMessage::blank(
                    ProtoMessageType::AppendEntriesResponse,
                    m.to,
                    m.from,
                );
                p.term = m.term;
                p.last_index = m.last_index;
                p.success = m.success;
                p
            },
            Message::RequestVote(m) => {
                let mut p = ProtoMessage::blank(ProtoMessageType::RequestVote, m.to, m.from);
                p.term = m.candidate_term;
                p.last_term = m.last_term;
                p.last_index = m.last_index;
                p
            },
            Message::RequestVoteResponse(m) => {
                let mut p = ProtoMessage::blank(ProtoMessageType::RequestVoteResponse, m.to, m.from);
                p.term = m.term;
                p.voted_for = m.voted_for;
                p
            },
            Message::StartCampaign => ProtoMessage::blank(ProtoMessageType::Heartbeat, 0, 0),
        }
    }
}

impl From<ProtoMessage> for Message {
    fn from(value: ProtoMessage) -> Message {
        let to: u64 = value.to;
        let from: u64 = value.from;
        let term: u64 = value.term;
        let commit: u64 = value.commit;
        let last_index: u64 = value.last_index;
        let last_term: u64 = value.last_term;
        match value.msg_type {
            ProtoMessageType::Heartbeat => Message::Heartbeat(
                Heartbeat { to, from, term, commit, last_index, last_term },
            ),
            ProtoMessageType::HeartbeatResponse => Message::HeartbeatResponse(
                Heartbeat { to, from, term, commit, last_index, last_term },
            ),
            ProtoMessageType::AppendEntries => Message::Append(
                Append {
                    to,
                    from,
                    leader_term: term,
                    leader_commit: commit,
                    last_index,
                    last_term,
                    entries: value.entries,
                },
            ),
            ProtoMessageType::AppendEntriesResponse => Message::AppendResponse(
                AppendResponse { to, from, term, success: value.success, last_index },
            ),
            ProtoMessageType::RequestVote => Message::RequestVote(
                RequestVote { to, from, candidate_term: term, last_index, last_term },
            ),
            ProtoMessageType::RequestVoteResponse => Message::RequestVoteResponse(
                RequestVoteResponse { to, from, voted_for: value.voted_for, term },
            ),
        }
    }
}

impl vstd::std_specs::convert::FromSpecImpl<ProtoMessage> for Message {
    open spec fn obeys_from_spec() -> bool {
        true
    }

    /// The message whose value is that of the flat form read as a message, and
    /// which holds the very entries of the flat form.
    open spec fn from_spec(value: ProtoMessage) -> Message {
        match value@.to_message() {
            MessageView::Heartbeat(m) => Message::Heartbeat(m),
            MessageView::HeartbeatResponse(m) => Message::HeartbeatResponse(m),
            MessageView::Append(m) => Message::Append(
                Append {
                    to: m.to,
                    from: m.from,
                    leader_term: m.leader_term,
                    leader_commit: m.leader_commit,
                    last_index: m.last_index,
                    last_term: m.last_term,
                    entries: value.entries,
                },
            ),
            MessageView::AppendResponse(m) => Message::AppendResponse(m),
            MessageView::RequestVote(m) => Message::RequestVote(m),
            MessageView::RequestVoteResponse(m) => Message::RequestVoteResponse(m),
            MessageView::StartCampaign => Message::StartCampaign,
        }
    }
}

impl MessageType {
    /// Whether this message stays on its node instead of being sent across the wire to another.
    pub fn is_local_only(&self) -> (r: bool)
        ensures
            r <==> self is StartCampaign,
    {
        matches!(self, MessageType::StartCampaign)
    }

    /// The kind under which a message of this kind travels.
    pub fn to_proto(self) -> (r: ProtoMessageType)
        requires
            self !is StartCampaign,
        ensures
            message_type_of(r) == self,
    {
        match self {
            MessageType::Heartbeat => ProtoMessageType::Heartbeat,
            MessageType::HeartbeatResponse => ProtoMessageType::HeartbeatResponse,
            MessageType::Append => ProtoMessageType::AppendEntries,
            MessageType::AppendResponse => ProtoMessageType::AppendEntriesResponse,
            MessageType::RequestVote => ProtoMessageType::RequestVote,
            MessageType::RequestVoteResponse => ProtoMessageType::RequestVoteResponse,
            MessageType::StartCampaign => ProtoMessageType::Heartbeat,
        }
    }
}

/// The kind of the messages that travel under `value`.
pub open spec fn message_type_of(value: ProtoMessageType) -> MessageType {
    match value {
        ProtoMessageType::Heartbeat => MessageType::Heartbeat,
        ProtoMessageType::HeartbeatResponse => MessageType::HeartbeatResponse,
        ProtoMessageType::AppendEntries => MessageType::Append,
        ProtoMessageType::AppendEntriesResponse => MessageType::AppendResponse,
        ProtoMessageType::RequestVote => MessageType::RequestVote,
        ProtoMessageType::RequestVoteResponse => MessageType::RequestVoteResponse,
    }
}

impl From<ProtoMessageType> for MessageType {
    fn from(value: ProtoMessageType) -> MessageType {
        match value {
            ProtoMessageType::Heartbeat => MessageType::Heartbeat,
            ProtoMessageType::HeartbeatResponse => MessageType::HeartbeatResponse,
            ProtoMessageType::AppendEntries => MessageType::Append,
            ProtoMessageType::AppendEntriesResponse => MessageType::AppendResponse,
            ProtoMessageType::RequestVote => MessageType::RequestVote,
            ProtoMessageType::RequestVoteResponse => MessageType::RequestVoteResponse,
        }
    }
}

impl vstd::std_specs::convert::FromSpecImpl<ProtoMessageType> for MessageType {
    open spec fn obeys_from_spec() -> bool {
        true
    }

    open spec fn from_spec(value: ProtoMessageType) -> MessageType {
        message_type_of(value)
    }
}

/// A message that is sent in its flat form is received as it was: nothing is
/// lost between the two representations.
pub proof fn law_message_round_trip(m: MessageView)
    requires
        m !is StartCampaign,
    ensures
        m.to_proto().to_message() == m,
{
}

/// Nothing that comes in from the wire is a `StartCampaign`.
pub proof fn law_wire_never_starts_a_campaign(p: ProtoView)
    ensures
        p.to_message() !is StartCampaign,
{
}

/// No two kinds share a number on the wire.
pub proof fn law_type_numbers_are_distinct(a: ProtoMessageType, b: ProtoMessageType)
    ensures
        a.spec_number() == b.spec_number() <==> a == b,
{
}

/// A message carries onto the wire what it holds, each thing in the place that
/// is meant for it, and names its kind.
pub proof fn law_what_is_held_is_carried(m: MessageView)
    requires
        m !is StartCampaign,
    ensures
        ({
            let p = m.to_proto();
            match m {
                MessageView::Heartbeat(h) => p.msg_type is Heartbeat && p.to == h.to && p.from
                    == h.from && p.term == h.term && p.commit == h.commit && p.last_index
                    == h.last_index && p.last_term == h.last_term,
                MessageView::HeartbeatResponse(h) => p.msg_type is HeartbeatResponse && p.to
                    == h.to && p.from == h.from && p.term == h.term && p.commit == h.commit
                    && p.last_index == h.last_index && p.last_term == h.last_term,
                MessageView::Append(a) => p.msg_type is AppendEntries && p.to == a.to && p.from
                    == a.from && p.term == a.leader_term && p.commit == a.leader_commit
                    && p.last_index == a.last_index && p.last_term == a.last_term && p.entries
                    == a.entries,
                MessageView::AppendResponse(a) => p.msg_type is AppendEntriesResponse && p.to
                    == a.to && p.from == a.from && p.term == a.term && p.success == a.success
                    && p.last_index == a.last_index,
                MessageView::RequestVote(r) => p.msg_type is RequestVote && p.to == r.to && p.from
                    == r.from && p.term == r.candidate_term && p.last_index == r.last_index
                    && p.last_term == r.last_term,
                MessageView::RequestVoteResponse(r) => p.msg_type is RequestVoteResponse && p.to
                    == r.to && p.from == r.from && p.term == r.term && p.voted_for == r.voted_for,
                MessageView::StartCampaign => false,
            }
        }),
{
}

/// What comes in from the wire is a message of the kind that it names, from the
/// one and to the one that it names, with the term that it names.
pub proof fn law_what_is_carried_is_held(p: ProtoView)
    ensures
        ({
            let m = p.to_message();
            &&& p.msg_type is Heartbeat <==> m is Heartbeat
            &&& p.msg_type is HeartbeatResponse <==> m is HeartbeatResponse
            &&& p.msg_type is AppendEntries <==> m is Append
            &&& p.msg_type is AppendEntriesResponse <==> m is AppendResponse
            &&& p.msg_type is RequestVote <==> m is RequestVote
            &&& p.msg_type is RequestVoteResponse <==> m is RequestVoteResponse
            &&& m.to() == p.to
            &&& m.from() == p.from
            &&& m.to_proto().term == p.term
            &&& m matches MessageView::Append(a) ==> a.entries == p.entries && a.last_index
                == p.last_index && a.last_term == p.last_term && a.leader_commit == p.commit
            &&& m matches MessageView::AppendResponse(a) ==> a.success == p.success && a.last_index
                == p.last_index
            &&& m matches MessageView::RequestVoteResponse(v) ==> v.voted_for == p.voted_for
            &&& m matches MessageView::RequestVote(v) ==> v.last_index == p.last_index
                && v.last_term == p.last_term
            &&& m matches MessageView::Heartbeat(h) ==> h.commit == p.commit && h.last_index
                == p.last_index && h.last_term == p.last_term
            &&& m matches MessageView::HeartbeatResponse(h) ==> h.commit == p.commit
                && h.last_index == p.last_index && h.last_term == p.last_term
        }),
{
}

/// On the wire a request and its answer have neighbouring numbers, of which the
/// request's is even: first the heartbeat, then the entries, then the vote.
pub proof fn law_answers_follow_their_requests()
    ensures
        ProtoMessageType::Heartbeat.spec_number() == 0,
        ProtoMessageType::HeartbeatResponse.spec_number()
            == ProtoMessageType::Heartbeat.spec_number() + 1,
        ProtoMessageType::AppendEntries.spec_number()
            == ProtoMessageType::HeartbeatResponse.spec_number() + 1,
        ProtoMessageType::AppendEntriesResponse.spec_number()
            == ProtoMessageType::AppendEntries.spec_number() + 1,
        ProtoMessageType::RequestVote.spec_number()
            == ProtoMessageType::AppendEntriesResponse.spec_number() + 1,
        ProtoMessageType::RequestVoteResponse.spec_number()
            == ProtoMessageType::RequestVote.spec_number() + 1,
{
}

/// A message knows the same two ends before and after it travelled, and is of
/// the same kind.
pub proof fn law_ends_and_kind_travel(m: MessageView)
    requires
        m !is StartCampaign,
    ensures
        m.to_proto().to == m.to(),
        m.to_proto().from == m.from(),
        message_type_of(m.to_proto().msg_type) is Heartbeat <==> m is Heartbeat,
        message_type_of(m.to_proto().msg_type) is HeartbeatResponse <==> m is HeartbeatResponse,
        message_type_of(m.to_proto().msg_type) is Append <==> m is Append,
        message_type_of(m.to_proto().msg_type) is AppendResponse <==> m is AppendResponse,
        message_type_of(m.to_proto().msg_type) is RequestVote <==> m is RequestVote,
        message_type_of(m.to_proto().msg_type) is RequestVoteResponse <==> m
            is RequestVoteResponse,
{
}

/// What is said of entries is said of each of them: its term, its index and all
/// of its data.
pub proof fn law_entries_are_seen_one_by_one(entries: Seq<Entry>, i: int)
    requires
        0 <= i < entries.len(),
    ensures
        entries_view(entries).len() == entries.len(),
        entries_view(entries)[i].term == entries[i].term,
        entries_view(entries)[i].index == entries[i].index,
        entries_view(entries)[i].data == entries[i].data@,
{
}

} // verus!
