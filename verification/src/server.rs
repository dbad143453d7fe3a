//! A node that runs as a process of its own, as its users see it: the requests
//! it answers and the state it shows.
use vstd::prelude::*;

use vstd::string::StringExecFns;
use vstd::utf8::{
    decode_utf8, encode_utf8, encode_utf8_decode_utf8, encode_utf8_valid_utf8, valid_utf8,
};

use crate::communication::Channel;
use crate::logger::{role_name, role_name_of};
use crate::model::NodeModel;
use crate::node::Node;
use crate::proto::{entries_view, Entry};
use crate::rng::RngProvider;
use crate::role::{Role, RoleView};
use crate::storage::Storage;
use crate::text::{
    bytes_of, chars_of, decimal, decimal_of, find, first_at, first_line, first_line_of, is_space,
    law_first_line, law_words_are_separated_by_space, lossy_text, occurs_at, pieces_view, read_lossy, slice_of, spells, string_of, words, words_of,
};

verus! {

/// What a client asks for.
#[derive(Debug, Clone, PartialEq, Eq)]
pub enum Request {
    /// Too little to be a request; it gets no answer.
    Ignored,
    Dashboard,
    Status,
    /// To record something, given by the body.
    Propose(String),
    NotFound,
}

/// A request as a mathematical value.
#[verifier::ext_equal]
pub enum RequestView {
    Ignored,
    Dashboard,
    Status,
    Propose(Seq<char>),
    NotFound,
}

impl View for Request {
    type V = RequestView;

    open spec fn view(&self) -> RequestView {
        match *self {
            Request::Ignored => RequestView::Ignored,
            Request::Dashboard => RequestView::Dashboard,
            Request::Status => RequestView::Status,
            Request::Propose(body) => RequestView::Propose(body@),
            Request::NotFound => RequestView::NotFound,
        }
    }
}

/// `body` is what follows the first empty line of `text`, or empty if there is
/// no empty line.
pub open spec fn is_body(text: Seq<char>, body: Seq<char>) -> bool {
    if exists|at: int| occurs_at(text, "\r\n\r\n"@, at) {
        exists|at: int| #[trigger] first_at(text, "\r\n\r\n"@, at) && body == text.skip(at + 4)
    } else {
        body == Seq::<char>::empty()
    }
}

/// `request` is what `text` asks for: its first line names a method and a
/// path.
pub open spec fn asks(text: Seq<char>, request: RequestView) -> bool {
    let parts = words_of(first_line_of(text));
    if parts.len() < 2 {
        request is Ignored
    } else if parts[0] == "GET"@ && parts[1] == "/"@ {
        request is Dashboard
    } else if parts[0] == "GET"@ && parts[1] == "/status"@ {
        request is Status
    } else if parts[0] == "POST"@ && parts[1] == "/propose"@ {
        request matches RequestView::Propose(body) && is_body(text, body)
    } else {
        request is NotFound
    }
}

/// What the text of a request asks for.
pub fn read_request(text: &str) -> (r: Request)
    ensures
        asks(text@, r@),
{
    let chars = chars_of(text);
    let line = first_line(&chars);
    let parts = words(&line);
    let ghost p = pieces_view(parts@);
    assert(p == words_of(first_line_of(text@)));
    if parts.len() < 2 {
        return Request::Ignored;
    }
    assert(p[0] == parts@[0]@ && p[1] == parts@[1]@);
    let is_get = spells(&parts[0], "GET");
    if is_get && spells(&parts[1], "/") {
        Request::Dashboard
    } else if is_get && spells(&parts[1], "/status") {
        Request::Status
    } else if spells(&parts[0], "POST") && spells(&parts[1], "/propose") {
        proof {
            reveal_strlit("\r\n\r\n");
        }
        let body = match find(&chars, "\r\n\r\n") {
            Some(at) => {
                let ghost a = at as int;
                assert(first_at(text@, "\r\n\r\n"@, a));
                assert(occurs_at(text@, "\r\n\r\n"@, a));
                assert(chars@.len() == chars.len());
                let rest = slice_of(&chars, at + 4, chars.len());
                assert(rest@ =~= text@.skip(a + 4));
                string_of(&rest)
            },
            None => String::new(),
        };
        Request::Propose(body)
    } else {
        Request::NotFound
    }
}

/// What the bytes of a request ask for.
pub fn read_request_bytes(bytes: &Vec<u8>) -> (r: Request)
    ensures
        asks(lossy_text(bytes@), r@),
{
    let text = read_lossy(bytes);
    read_request(text.as_str())
}

/// What `serde_json::from_str` reads in a text, of which only one field
/// matters: nothing if the text is no JSON, and else the text in the field
/// `field`, where there is such a field and it holds a text.
pub uninterp spec fn json_text_field(text: Seq<char>, field: Seq<char>) -> Option<Option<Seq<char>>>;

/// A field as a mathematical value.
pub open spec fn field_view(field: Option<Option<String>>) -> Option<Option<Seq<char>>> {
    match field {
        Some(Some(s)) => Some(Some(s@)),
        Some(None) => Some(None),
        None => None,
    }
}

/// `serde_json::from_str` into a `serde_json::Value`, and the text that the
/// field `field` of that value holds. What JSON is, is left to `serde_json`:
/// the result has the name `json_text_field`, and nothing more is said of it.
#[verifier::external_body]
fn read_json_field(text: &str, field: &str) -> (r: Option<Option<String>>)
    ensures
        field_view(r) == json_text_field(text@, field@),
{
    match serde_json::from_str::<serde_json::Value>(text) {
        Ok(value) => Some(value.get(field).and_then(|v| v.as_str()).map(|s| s.to_owned())),
        Err(_) => None,
    }
}

/// What came of a proposal.
#[derive(Debug, Clone, PartialEq, Eq)]
pub enum Proposal {
    /// These bytes are to be recorded.
    Accepted(Vec<u8>),
    MissingData,
    InvalidJson,
    /// This node does not lead; it is for the leader to record something.
    NotLeader,
}

/// `proposal` is what comes of a body whose field `data` is `field`.
pub open spec fn comes_of(field: Option<Option<Seq<char>>>, proposal: Proposal) -> bool {
    match field {
        Some(Some(text)) => proposal matches Proposal::Accepted(data) && data@ == encode_utf8(text),
        Some(None) => proposal is MissingData,
        None => proposal is InvalidJson,
    }
}

/// What comes of a body whose field `data` is `field`.
pub fn proposal_from(field: Option<Option<String>>) -> (r: Proposal)
    ensures
        comes_of(field_view(field), r),
{
    match field {
        Some(Some(text)) => Proposal::Accepted(bytes_of(text.as_str())),
        Some(None) => Proposal::MissingData,
        None => Proposal::InvalidJson,
    }
}

/// What comes of the body of a request to record something.
pub fn read_proposal(body: &str) -> (r: Proposal)
    ensures
        comes_of(json_text_field(body@, "data"@), r),
{
    proposal_from(read_json_field(body, "data"))
}

impl Proposal {
    /// What is wrong with a proposal.
    pub open spec fn error_text(self) -> Seq<char> {
        match self {
            Proposal::Accepted(_) => Seq::empty(),
            Proposal::MissingData => "Missing 'data' field"@,
            Proposal::InvalidJson => "Invalid JSON body"@,
            Proposal::NotLeader => "Not the leader"@,
        }
    }

    /// What is wrong with this proposal; nothing if it was accepted.
    pub fn error(&self) -> (r: &'static str)
        ensures
            r@ == self.error_text(),
    {
        match self {
            Proposal::Accepted(_) => {
                proof {
                    reveal_strlit("");
                }
                let r = "";
                assert(r@ =~= Seq::<char>::empty());
                r
            },
            Proposal::MissingData => "Missing 'data' field",
            Proposal::InvalidJson => "Invalid JSON body",
            Proposal::NotLeader => "Not the leader",
        }
    }
}

/// An answer with a body of `length` bytes.
pub open spec fn answer_of(content_type: Seq<char>, body: Seq<char>, length: nat) -> Seq<char> {
    "HTTP/1.1 200 OK\r\nContent-Type: "@ + content_type + "\r\nContent-Length: "@ + decimal_of(length)
        + "\r\nConnection: close\r\n\r\n"@ + body
}

/// The answer with this body.
pub fn answer(content_type: &str, body: &str) -> (r: String)
    ensures
        r@ == answer_of(content_type@, body@, body.len() as nat),
{
    let mut s = "HTTP/1.1 200 OK\r\nContent-Type: ".to_owned();
    s.append(content_type);
    s.append("\r\nContent-Length: ");
    let length = decimal(body.len() as u64);
    s.append(length.as_str());
    s.append("\r\nConnection: close\r\n\r\n");
    s.append(body);
    s
}

/// The answer to a request for something that there is not.
pub open spec fn not_found_of(body: Seq<char>, length: nat) -> Seq<char> {
    "HTTP/1.1 404 NOT FOUND\r\nContent-Length: "@ + decimal_of(length)
        + "\r\nConnection: close\r\n\r\n"@ + body
}

/// The answer to a request for something that there is not.
pub fn not_found() -> (r: String)
    ensures
        r@ == not_found_of("Not Found"@, 9),
{
    let body = "Not Found";
    proof {
        reveal_strlit("Not Found");
        vstd::utf8::is_ascii_chars_encode_utf8(body@);
    }
    let mut s = "HTTP/1.1 404 NOT FOUND\r\nContent-Length: ".to_owned();
    let length = decimal(body.len() as u64);
    s.append(length.as_str());
    s.append("\r\nConnection: close\r\n\r\n");
    s.append(body);
    s
}

/// The same bytes again.
fn copy_of(data: &Vec<u8>) -> (r: Vec<u8>)
    ensures
        r@ == data@,
{
    let mut out: Vec<u8> = Vec::new();
    let mut i: usize = 0;
    while i < data.len()
        invariant
            i <= data@.len(),
            out@ == data@.take(i as int),
        decreases data@.len() - i,
    {
        out.push(data[i]);
        i = i + 1;
        assert(data@.take(i as int) =~= data@.take(i - 1).push(data@[i - 1]));
    }
    assert(data@.take(i as int) =~= data@);
    out
}

/// The data of an entry as text.
pub fn entry_text(entry: &Entry) -> (r: String)
    ensures
        r@ == lossy_text(entry.data@),
        valid_utf8(entry.data@) ==> r@ == decode_utf8(entry.data@),
{
    read_lossy(&entry.data)
}

/// A refused proposal is answered with a reason, and an accepted one with none.
pub proof fn law_refusals_have_reasons(proposal: Proposal)
    ensures
        proposal is Accepted <==> proposal.error_text().len() == 0,
{
    reveal_strlit("Missing 'data' field");
    reveal_strlit("Invalid JSON body");
    reveal_strlit("Not the leader");
}

/// What a node shows of itself, and what it was asked to record and has not yet.
#[derive(Debug, Clone, PartialEq)]
pub struct SharedState {
    pub id: u64,
    pub role: String,
    pub term: u64,
    pub voted_for: u64,
    pub leader_id: u64,
    pub commit_index: u64,
    pub log_entries: Vec<Entry>,
    pub pending_proposals: Vec<Vec<u8>>,
}

impl SharedState {
    /// What node `id` shows before it runs.
    pub fn new(id: u64) -> (r: SharedState)
        ensures
            r.id == id,
            r.role@ == "Follower"@,
            r.term == 1,
            r.voted_for == 0,
            r.leader_id == 0,
            r.commit_index == 0,
            r.log_entries@.len() == 0,
            r.pending_proposals@.len() == 0,
    {
        SharedState {
            id,
            role: "Follower".to_owned(),
            term: 1,
            voted_for: 0,
            leader_id: 0,
            commit_index: 0,
            log_entries: Vec::new(),
            pending_proposals: Vec::new(),
        }
    }

    /// This is what `node` shows of itself.
    pub open spec fn shows(&self, node: NodeModel) -> bool {
        &&& self.role@ == role_name_of(node.role)
        &&& self.term == node.term
        &&& self.voted_for == node.voted_for
        &&& self.leader_id == node.leader_id
        &&& self.commit_index == node.committed
        &&& entries_view(self.log_entries@) == node.log
    }

    /// Shows what `node` has become.
    pub fn refresh<S: Storage, C: Channel, R: RngProvider>(&mut self, node: &Node<S, C, R>)
        requires
            node.wf(),
        ensures
            final(self).shows(node@),
            final(self).id == old(self).id,
            final(self).pending_proposals == old(self).pending_proposals,
    {
        self.role = role_name(&node.role).to_owned();
        self.term = node.term;
        self.voted_for = node.voted_for.to_u64();
        self.leader_id = node.leader_id.to_u64();
        self.commit_index = node.storage.committed;
        let last_index: u64 = node.storage.store.last_index();
        if last_index > 0 {
            if let Ok(entries) = node.storage.store.entries(1, last_index + 1) {
                assert(entries_view(entries@) =~= node@.log);
                self.log_entries = entries;
            }
        } else {
            self.log_entries.clear();
            assert(entries_view(self.log_entries@) =~= node@.log);
        }
    }

    /// Takes in a proposal and says what came of it: a leader notes what is to
    /// be recorded, and any other node refuses it. A proposal that is already
    /// refused stays so.
    pub fn submit(&mut self, proposal: Proposal) -> (r: Proposal)
        ensures
            match proposal {
                Proposal::Accepted(data) => if old(self).role@ == "Leader"@ {
                    &&& r matches Proposal::Accepted(d) && d@ == data@
                    &&& final(self).pending_proposals@ == old(self).pending_proposals@.push(data)
                } else {
                    &&& r is NotLeader
                    &&& final(self).pending_proposals == old(self).pending_proposals
                },
                refused => {
                    &&& r == refused
                    &&& final(self).pending_proposals == old(self).pending_proposals
                },
            },
            *final(self) == (SharedState {
                pending_proposals: final(self).pending_proposals,
                ..*old(self)
            }),
    {
        match proposal {
            Proposal::Accepted(data) => {
                if spells(&chars_of(self.role.as_str()), "Leader") {
                    let copy = copy_of(&data);
                    self.pending_proposals.push(data);
                    Proposal::Accepted(copy)
                } else {
                    Proposal::NotLeader
                }
            },
            refused => refused,
        }
    }

    /// What is to be recorded, since this was last called.
    pub fn take_proposals(&mut self) -> (r: Vec<Vec<u8>>)
        ensures
            r@ == old(self).pending_proposals@,
            final(self).pending_proposals@.len() == 0,
            *final(self) == (SharedState {
                pending_proposals: final(self).pending_proposals,
                ..*old(self)
            }),
    {
        let mut out: Vec<Vec<u8>> = Vec::new();
        std::mem::swap(&mut out, &mut self.pending_proposals);
        out
    }
}

impl NodeModel {
    /// The next tick ends the wait for a leader, or for votes.
    pub open spec fn is_about_to_campaign(self) -> bool {
        match self.role {
            RoleView::Follower { promotable, ticks } => ticks + 1 >= self.election_timeout,
            RoleView::Candidate { ticks, votes } => ticks + 1 >= self.election_timeout,
            RoleView::Leader { ticks, progress } => false,
        }
    }
}

/// A node whose wait is about to end campaigns on the next tick, and no other
/// node starts a new term on a tick.
pub proof fn law_campaign_is_announced(s: NodeModel, timeout: u64)
    requires
        s.wf(),
        s.can_tick(),
    ensures
        s.is_about_to_campaign() ==> s.tick(timeout) == s.start_campaign(timeout),
        !s.is_about_to_campaign() ==> s.tick(timeout).node.term == s.term,
{
}

/// Whether the next tick of `node` ends its wait for a leader, or for votes.
pub fn about_to_campaign<S: Storage, C: Channel, R: RngProvider>(node: &Node<S, C, R>) -> (r: bool)
    requires
        node.wf(),
    ensures
        r <==> node@.is_about_to_campaign(),
{
    match &node.role {
        Role::Follower(state) => state.ticks_since_last_msg + 1 >= node.election_timeout,
        Role::Candidate(state) => state.ticks_since_election_start + 1 >= node.election_timeout,
        Role::Leader(_) => false,
    }
}

/// What was last seen of a node.
#[derive(Debug, Clone, Copy)]
pub struct Watch {
    pub role: &'static str,
    pub term: u64,
}

/// What is new about a node.
#[derive(Debug, Clone, Copy)]
pub struct News {
    /// The role it had, if it has another one now.
    pub former_role: Option<&'static str>,
    /// Whether it started an election.
    pub election_started: bool,
}

impl Watch {
    /// Starts to watch a node that follows in `term`.
    pub fn new(term: u64) -> (r: Watch)
        ensures
            r.role@ == "Follower"@,
            r.term == term,
    {
        Watch { role: "Follower", term }
    }

    /// Looks at `node` again and says what is new.
    pub fn look<S: Storage, C: Channel, R: RngProvider>(&mut self, node: &Node<S, C, R>) -> (r: News)
        ensures
            final(self).role@ == role_name_of(node@.role),
            final(self).term == node@.term,
            r.former_role is Some <==> old(self).role@ != role_name_of(node@.role),
            r.former_role matches Some(role) ==> role@ == old(self).role@,
            r.election_started <==> node@.role is Candidate && node@.term > old(self).term,
    {
        let role = role_name(&node.role);
        let changed = !spells(&chars_of(role), self.role);
        let former_role = if changed {
            Some(self.role)
        } else {
            None
        };
        let election_started = matches!(node.role, Role::Candidate(_)) && node.term > self.term;
        self.role = role;
        self.term = node.term;
        News { former_role, election_started }
    }
}

/// The body is what stands behind the first empty line, whatever it holds.
pub proof fn law_body_follows_the_first_empty_line(head: Seq<char>, rest: Seq<char>, body: Seq<char>)
    requires
        first_at(head + "\r\n\r\n"@ + rest, "\r\n\r\n"@, head.len() as int),
    ensures
        is_body(head + "\r\n\r\n"@ + rest, body) <==> body == rest,
{
    reveal_strlit("\r\n\r\n");
    let text = head + "\r\n\r\n"@ + rest;
    let at = head.len() as int;
    assert(text.skip(at + 4) =~= rest);
    assert(occurs_at(text, "\r\n\r\n"@, at));
    if is_body(text, body) {
        let place = choose|place: int| #[trigger] first_at(text, "\r\n\r\n"@, place) && body
            == text.skip(place + 4);
        assert(occurs_at(text, "\r\n\r\n"@, place));
        assert(place == at);
    }
}

/// A request is read by the two words at the start of its first line, whatever
/// follows.
pub proof fn law_requests_are_read_by_their_first_words(
    method: Seq<char>,
    path: Seq<char>,
    rest: Seq<char>,
    request: RequestView,
)
    requires
        method.len() > 0,
        path.len() > 0,
        forall|i: int| 0 <= i < method.len() ==> !is_space(#[trigger] method[i]),
        forall|i: int| 0 <= i < path.len() ==> !is_space(#[trigger] path[i]),
        asks(method.push(' ') + path.push('\r').push('\n') + rest, request),
    ensures
        ({
            let text = method.push(' ') + path.push('\r').push('\n') + rest;
            &&& request is Dashboard <==> method == "GET"@ && path == "/"@
            &&& request is Status <==> method == "GET"@ && path == "/status"@
            &&& request is Propose <==> method == "POST"@ && path == "/propose"@
            &&& request matches RequestView::Propose(body) ==> is_body(text, body)
            &&& request !is Ignored
        }),
{
    reveal_strlit("GET");
    reveal_strlit("POST");
    reveal_strlit("/");
    reveal_strlit("/status");
    reveal_strlit("/propose");
    let text = method.push(' ') + path.push('\r').push('\n') + rest;
    let line = method.push(' ') + path;
    assert(!line.contains('\n')) by {
        assert forall|j: int| 0 <= j < line.len() implies line[j] != '\n' by {
            if j < method.len() {
                assert(!is_space(method[j]));
            } else if j > method.len() {
                assert(!is_space(path[j - method.len() - 1]));
            }
        }
    }
    law_first_line(line, rest);
    assert(text =~= line.push('\r').push('\n') + rest);
    law_words_are_separated_by_space(Seq::empty(), ' ', method);
    assert(Seq::<char>::empty() + method =~= method);
    law_words_are_separated_by_space(method, ' ', method);
    law_words_are_separated_by_space(method.push(' '), ' ', path);
    let parts = words_of(line);
    assert(parts =~= seq![method, path]);
    assert("GET"@.len() != "POST"@.len());
    assert("/"@.len() != "/status"@.len());
    assert("/"@.len() != "/propose"@.len());
}

/// An answer ends with its body, before which stand an empty line and the
/// body's length.
pub proof fn law_answers_end_with_their_body(content_type: Seq<char>, body: Seq<char>, length: nat)
    ensures
        ({
            let text = answer_of(content_type, body, length);
            let tail = "\r\nContent-Length: "@ + decimal_of(length)
                + "\r\nConnection: close\r\n\r\n"@ + body;
            &&& "HTTP/1.1 200 OK\r\n"@.is_prefix_of(text)
            &&& tail.len() <= text.len()
            &&& text.skip(text.len() - tail.len()) == tail
            &&& "HTTP/1.1 404 NOT FOUND\r\n"@.is_prefix_of(not_found_of(body, length))
            &&& not_found_of(body, length).skip(not_found_of(body, length).len() - body.len())
                == body
        }),
{
    reveal_strlit("HTTP/1.1 200 OK\r\n");
    reveal_strlit("HTTP/1.1 200 OK\r\nContent-Type: ");
    reveal_strlit("HTTP/1.1 404 NOT FOUND\r\n");
    reveal_strlit("HTTP/1.1 404 NOT FOUND\r\nContent-Length: ");
    let text = answer_of(content_type, body, length);
    let tail = "\r\nContent-Length: "@ + decimal_of(length)
        + "\r\nConnection: close\r\n\r\n"@ + body;
    let start = "HTTP/1.1 200 OK\r\n"@;
    assert(text =~= "HTTP/1.1 200 OK\r\nContent-Type: "@ + content_type + tail);
    assert(text.subrange(0, start.len() as int) =~= start);
    assert(text.skip(text.len() - tail.len()) =~= tail);
    let missing = not_found_of(body, length);
    let other = "HTTP/1.1 404 NOT FOUND\r\n"@;
    assert(missing.subrange(0, other.len() as int) =~= other);
    assert(missing.skip(missing.len() - body.len()) =~= body);
}

/// What is to be recorded is what was sent: the bytes of an accepted proposal
/// are read back as the text that its field held.
pub proof fn law_proposals_hold_what_was_sent(field: Option<Option<Seq<char>>>, proposal: Proposal)
    requires
        comes_of(field, proposal),
    ensures
        proposal is Accepted <==> field matches Some(Some(_)),
        proposal is MissingData <==> field == Some(None::<Seq<char>>),
        proposal is InvalidJson <==> field is None,
        proposal matches Proposal::Accepted(data) ==> valid_utf8(data@) && decode_utf8(data@)
            == field->0->0,
{
    if let Some(Some(text)) = field {
        encode_utf8_valid_utf8(text);
        encode_utf8_decode_utf8(text);
    }
}

/// What a node shows of itself is what holds of it.
pub proof fn law_nodes_show_what_they_are(state: SharedState, node: NodeModel)
    requires
        state.shows(node),
    ensures
        state.term == node.term,
        state.voted_for == node.voted_for,
        state.leader_id == node.leader_id,
        state.commit_index == node.committed,
        state.log_entries@.len() == node.log.len(),
        forall|i: int|
            0 <= i < node.log.len() ==> (#[trigger] state.log_entries@[i])@ == node.log[i],
        node.role is Leader ==> state.role@ == "Leader"@,
        node.role is Candidate ==> state.role@ == "Candidate"@,
        node.role is Follower ==> state.role@ == "Follower"@,
{
    assert forall|i: int| 0 <= i < node.log.len() implies (#[trigger] state.log_entries@[i])@
        == node.log[i] by {
        assert(entries_view(state.log_entries@)[i] == node.log[i]);
    }
}

} // verus!
