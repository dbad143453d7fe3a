//! What a running node reports of itself.
use vstd::prelude::*;

use vstd::string::StringExecFns;

use crate::proto::{ProtoMessage, ProtoMessageType, ProtoView};
use crate::role::{Role, RoleView};
use crate::text::{chars_of, decimal, decimal_of, three_digits, three_digits_of, two_digits, two_digits_of};

verus! {

/// How much is reported.
#[derive(Debug, Clone, Copy, PartialEq, Eq, Structural)]
pub enum LogLevel {
    Debug,
    Info,
    Basic,
}

/// How much a report matters.
#[derive(Debug, Clone, Copy, PartialEq, Eq, Structural)]
pub enum EventLevel {
    Basic,
    Info,
    Debug,
}

/// How many reports are kept.
pub const MAX_LOG_LINES: usize = 200;

/// `c` in lower case, where it is one of the letters from A to Z.
pub open spec fn lower(c: char) -> char {
    if 'A' <= c <= 'Z' {
        ((c as u32 + 32) as u8) as char
    } else {
        c
    }
}

/// `s` in lower case, as far as the letters from A to Z go.
pub open spec fn lowered(s: Seq<char>) -> Seq<char> {
    Seq::new(s.len(), |i: int| lower(s[i]))
}

fn lower_char(c: char) -> (r: char)
    ensures
        r == lower(c),
{
    if 'A' <= c && c <= 'Z' {
        ((c as u32 + 32) as u8) as char
    } else {
        c
    }
}

fn spells_lowered(chars: &Vec<char>, text: &str) -> (r: bool)
    ensures
        r <==> lowered(chars@) == text@,
{
    let wanted = chars_of(text);
    if chars.len() != wanted.len() {
        return false;
    }
    let mut i: usize = 0;
    while i < chars.len()
        invariant
            i <= chars@.len(),
            chars@.len() == wanted@.len(),
            wanted@ == text@,
            forall|j: int| 0 <= j < i ==> lower(chars@[j]) == wanted@[j],
        decreases chars@.len() - i,
    {
        if lower_char(chars[i]) != wanted[i] {
            assert(lowered(chars@)[i as int] != wanted@[i as int]);
            return false;
        }
        i = i + 1;
    }
    assert(lowered(chars@) =~= wanted@);
    true
}

impl LogLevel {
    /// The level that a text names; any other text names `Info`.
    pub open spec fn named(text: Seq<char>) -> LogLevel {
        if lowered(text) == "debug"@ {
            LogLevel::Debug
        } else if lowered(text) == "basic"@ {
            LogLevel::Basic
        } else {
            LogLevel::Info
        }
    }

    /// The level that `text` names, in upper or lower case.
    pub fn from_text(text: &str) -> (r: LogLevel)
        ensures
            r == Self::named(text@),
    {
        let chars = chars_of(text);
        if spells_lowered(&chars, "debug") {
            LogLevel::Debug
        } else if spells_lowered(&chars, "basic") {
            LogLevel::Basic
        } else {
            LogLevel::Info
        }
    }

    /// A report of level `event` is shown.
    pub open spec fn reports(self, event: EventLevel) -> bool {
        match self {
            LogLevel::Basic => event is Basic,
            LogLevel::Info => event !is Debug,
            LogLevel::Debug => true,
        }
    }

    /// Whether a report of level `event` is shown.
    pub fn shows(&self, event: EventLevel) -> (r: bool)
        ensures
            r <==> self.reports(event),
    {
        match (*self, event) {
            (LogLevel::Basic, EventLevel::Basic) => true,
            (LogLevel::Basic, _) => false,
            (LogLevel::Info, EventLevel::Debug) => false,
            (LogLevel::Info, _) => true,
            (LogLevel::Debug, _) => true,
        }
    }
}

/// Each level shows all that a quieter one shows.
pub proof fn law_levels_are_nested(event: EventLevel)
    ensures
        LogLevel::Basic.reports(event) ==> LogLevel::Info.reports(event),
        LogLevel::Info.reports(event) ==> LogLevel::Debug.reports(event),
{
}

impl EventLevel {
    /// The mark of a report of this level.
    pub open spec fn tag_text(self) -> Seq<char> {
        match self {
            EventLevel::Basic => "BASIC"@,
            EventLevel::Info => "INFO"@,
            EventLevel::Debug => "DEBUG"@,
        }
    }

    /// The mark of a report of this level.
    pub fn tag(&self) -> (r: &'static str)
        ensures
            r@ == self.tag_text(),
    {
        match self {
            EventLevel::Basic => "BASIC",
            EventLevel::Info => "INFO",
            EventLevel::Debug => "DEBUG",
        }
    }

    /// How much it matters that a message of this kind was sent or came in:
    /// heartbeats and their answers matter least.
    pub fn of_message(kind: ProtoMessageType) -> (r: EventLevel)
        ensures
            r == if kind is Heartbeat || kind is HeartbeatResponse {
                EventLevel::Debug
            } else {
                EventLevel::Info
            },
    {
        match kind {
            ProtoMessageType::Heartbeat => EventLevel::Debug,
            ProtoMessageType::HeartbeatResponse => EventLevel::Debug,
            _ => EventLevel::Info,
        }
    }
}

/// The time of day `secs` seconds and `millis` milliseconds after a midnight.
pub open spec fn time_of_day(secs: nat, millis: nat) -> Seq<char> {
    two_digits_of(secs / 3600 % 24) + ":"@ + two_digits_of(secs / 60 % 60) + ":"@ + two_digits_of(
        secs % 60,
    ) + "."@ + three_digits_of(millis)
}

/// The time of day, in hours, minutes, seconds and milliseconds.
pub fn format_time(secs: u64, millis: u64) -> (r: String)
    requires
        millis < 1000,
    ensures
        r@ == time_of_day(secs as nat, millis as nat),
{
    let mut s = two_digits((secs / 3600) % 24);
    s.append(":");
    let minutes = two_digits((secs / 60) % 60);
    s.append(minutes.as_str());
    s.append(":");
    let seconds = two_digits(secs % 60);
    s.append(seconds.as_str());
    s.append(".");
    let rest = three_digits(millis);
    s.append(rest.as_str());
    s
}

/// A report as it is shown and kept.
pub open spec fn log_line_of(time: Seq<char>, node_id: u64, message: Seq<char>) -> Seq<char> {
    "["@ + time + "] [Node "@ + decimal_of(node_id as nat) + "] "@ + message
}

/// The report `message` of node `node_id`.
pub fn log_line(time: &str, node_id: u64, message: &str) -> (r: String)
    ensures
        r@ == log_line_of(time@, node_id, message@),
{
    let mut s = "[".to_owned();
    s.append(time);
    s.append("] [Node ");
    let id = decimal(node_id);
    s.append(id.as_str());
    s.append("] ");
    s.append(message);
    s
}

/// A message with the mark of its level.
pub open spec fn tagged_of(level: EventLevel, message: Seq<char>) -> Seq<char> {
    "["@ + level.tag_text() + "] "@ + message
}

/// The message with the mark of its level.
pub fn tagged(level: EventLevel, message: &str) -> (r: String)
    ensures
        r@ == tagged_of(level, message@),
{
    let mut s = "[".to_owned();
    s.append(level.tag());
    s.append("] ");
    s.append(message);
    s
}

/// `items` with `item` behind them, and without the first if there were more
/// than `cap` then.
pub open spec fn pushed_capped<T>(items: Seq<T>, item: T, cap: nat) -> Seq<T> {
    let all = items.push(item);
    if all.len() > cap {
        all.drop_first()
    } else {
        all
    }
}

/// Appends `item`, and drops the first item if there are more than `cap` then.
pub fn push_capped<T>(items: &mut Vec<T>, item: T, cap: usize)
    ensures
        final(items)@ == pushed_capped(old(items)@, item, cap as nat),
{
    let ghost before = items@;
    items.push(item);
    if items.len() > cap {
        let _ = items.remove(0);
        assert(items@ =~= before.push(item).drop_first());
    }
}

/// What is kept of a row of items never exceeds the cap, once it has not.
pub proof fn law_cap_is_kept<T>(items: Seq<T>, item: T, cap: nat)
    requires
        items.len() <= cap,
    ensures
        pushed_capped(items, item, cap).len() <= cap,
{
}

/// The name of a kind of message.
pub open spec fn kind_name_of(kind: ProtoMessageType) -> Seq<char> {
    match kind {
        ProtoMessageType::Heartbeat => "Heartbeat"@,
        ProtoMessageType::HeartbeatResponse => "HeartbeatResponse"@,
        ProtoMessageType::AppendEntries => "AppendEntries"@,
        ProtoMessageType::AppendEntriesResponse => "AppendEntriesResponse"@,
        ProtoMessageType::RequestVote => "RequestVote"@,
        ProtoMessageType::RequestVoteResponse => "RequestVoteResponse"@,
    }
}

/// The name of a kind of message.
pub fn kind_name(kind: ProtoMessageType) -> (r: &'static str)
    ensures
        r@ == kind_name_of(kind),
{
    match kind {
        ProtoMessageType::Heartbeat => "Heartbeat",
        ProtoMessageType::HeartbeatResponse => "HeartbeatResponse",
        ProtoMessageType::AppendEntries => "AppendEntries",
        ProtoMessageType::AppendEntriesResponse => "AppendEntriesResponse",
        ProtoMessageType::RequestVote => "RequestVote",
        ProtoMessageType::RequestVoteResponse => "RequestVoteResponse",
    }
}

/// The name of a role.
pub open spec fn role_name_of(role: RoleView) -> Seq<char> {
    match role {
        RoleView::Follower { promotable, ticks } => "Follower"@,
        RoleView::Candidate { ticks, votes } => "Candidate"@,
        RoleView::Leader { ticks, progress } => "Leader"@,
    }
}

/// The name of a role.
pub fn role_name(role: &Role) -> (r: &'static str)
    ensures
        r@ == role_name_of(role@),
{
    match role {
        Role::Follower(_) => "Follower",
        Role::Candidate(_) => "Candidate",
        Role::Leader(_) => "Leader",
    }
}

/// What is reported of a message.
pub open spec fn message_text_of(msg: ProtoView) -> Seq<char> {
    kind_name_of(msg.msg_type) + " from "@ + decimal_of(msg.from as nat) + " to "@ + decimal_of(
        msg.to as nat,
    ) + " (term: "@ + decimal_of(msg.term as nat) + ", commit: "@ + decimal_of(msg.commit as nat)
        + ", entries: "@ + decimal_of(msg.entries.len()) + ")"@
}

/// What is reported of a message.
pub fn format_proto_message(msg: &ProtoMessage) -> (r: String)
    ensures
        r@ == message_text_of(msg@),
{
    let mut s = kind_name(msg.msg_type).to_owned();
    s.append(" from ");
    let from = decimal(msg.from);
    s.append(from.as_str());
    s.append(" to ");
    let to = decimal(msg.to);
    s.append(to.as_str());
    s.append(" (term: ");
    let term = decimal(msg.term);
    s.append(term.as_str());
    s.append(", commit: ");
    let commit = decimal(msg.commit);
    s.append(commit.as_str());
    s.append(", entries: ");
    let entries = decimal(msg.entries.len() as u64);
    s.append(entries.as_str());
    s.append(")");
    s
}

/// What is reported of entries that are appended to a log.
pub open spec fn appended_text_of(count: nat, first: u64, last: u64, term: u64) -> Seq<char> {
    "Appended "@ + decimal_of(count) + " entries to log (indices "@ + decimal_of(first as nat) + ".."@
        + decimal_of(last as nat) + ", term "@ + decimal_of(term as nat) + ")"@
}

/// What is reported of `count` entries of `term` that are appended to a log.
pub fn appended_text(count: u64, first: u64, last: u64, term: u64) -> (r: String)
    ensures
        r@ == appended_text_of(count as nat, first, last, term),
{
    let mut s = "Appended ".to_owned();
    let n = decimal(count);
    s.append(n.as_str());
    s.append(" entries to log (indices ");
    let first_text = decimal(first);
    s.append(first_text.as_str());
    s.append("..");
    let last_text = decimal(last);
    s.append(last_text.as_str());
    s.append(", term ");
    let term_text = decimal(term);
    s.append(term_text.as_str());
    s.append(")");
    s
}

/// The last `n` of `items`, or all if there are fewer.
pub open spec fn last_of<T>(items: Seq<T>, n: nat) -> Seq<T> {
    if items.len() <= n {
        items
    } else {
        items.skip(items.len() - n)
    }
}

/// `items` with all of `more` appended one after the other, of which no more
/// than `cap` are kept each time.
pub open spec fn pushed_all_capped<T>(items: Seq<T>, more: Seq<T>, cap: nat) -> Seq<T>
    decreases more.len(),
{
    if more.len() == 0 {
        items
    } else {
        pushed_capped(pushed_all_capped(items, more.drop_last(), cap), more.last(), cap)
    }
}

/// However many items are appended, the last ones are kept, oldest first, as
/// many as there is room for.
pub proof fn law_last_items_are_kept<T>(items: Seq<T>, more: Seq<T>, cap: nat)
    requires
        items.len() <= cap,
    ensures
        pushed_all_capped(items, more, cap) == last_of(items + more, cap),
    decreases more.len(),
{
    if more.len() == 0 {
        assert(items + more =~= items);
    } else {
        law_last_items_are_kept(items, more.drop_last(), cap);
        assert(items + more =~= (items + more.drop_last()).push(more.last()));
        assert(pushed_all_capped(items, more, cap) =~= last_of(items + more, cap));
    }
}

/// A time of day is told by its hour, minute, second and millisecond, on every
/// day alike.
pub proof fn law_time_of_day(days: nat, hour: nat, minute: nat, second: nat, millis: nat)
    requires
        hour < 24,
        minute < 60,
        second < 60,
        millis < 1000,
    ensures
        time_of_day(days * 86400 + hour * 3600 + minute * 60 + second, millis) == two_digits_of(
            hour,
        ) + ":"@ + two_digits_of(minute) + ":"@ + two_digits_of(second) + "."@ + three_digits_of(
            millis,
        ),
{
    let secs = days * 86400 + hour * 3600 + minute * 60 + second;
    assert(secs / 3600 == days * 24 + hour);
    assert((days * 24 + hour) % 24 == hour);
    assert(secs / 60 == days * 1440 + hour * 60 + minute);
    assert((days * 1440 + hour * 60 + minute) % 60 == minute);
    assert(secs % 60 == second);
}

/// To lower a text changes the letters from A to Z, each to the one that
/// stands as far from a as it does from A, and nothing else.
pub proof fn law_lower_case(s: Seq<char>, i: int)
    requires
        0 <= i < s.len(),
    ensures
        lowered(s).len() == s.len(),
        'A' <= s[i] <= 'Z' ==> lowered(s)[i] as u32 - 'a' as u32 == s[i] as u32 - 'A' as u32,
        !('A' <= s[i] <= 'Z') ==> lowered(s)[i] == s[i],
{
}

/// A level is named in upper or lower case alike, and what names no level is
/// taken for the middle one.
pub proof fn law_levels_are_named(text: Seq<char>)
    ensures
        LogLevel::named(text) is Debug <==> lowered(text) == "debug"@,
        LogLevel::named(text) is Basic <==> lowered(text) == "basic"@,
        LogLevel::named(text) is Info <==> lowered(text) != "debug"@ && lowered(text) != "basic"@,
{
    reveal_strlit("debug");
    reveal_strlit("basic");
    assert("debug"@[0] != "basic"@[0]);
}

/// Which reports each level shows.
pub proof fn law_levels_show(event: EventLevel)
    ensures
        LogLevel::Debug.reports(event),
        LogLevel::Info.reports(event) <==> event is Basic || event is Info,
        LogLevel::Basic.reports(event) <==> event is Basic,
{
}

/// An item that is appended comes last, and the items before it are those that
/// were there, less the oldest where there is no room.
pub proof fn law_new_item_comes_last<T>(items: Seq<T>, item: T, cap: nat)
    requires
        items.len() <= cap,
        cap > 0,
    ensures
        pushed_capped(items, item, cap).last() == item,
        items.len() < cap ==> pushed_capped(items, item, cap) == items.push(item),
        items.len() == cap ==> pushed_capped(items, item, cap) == items.drop_first().push(item),
{
    assert(items.push(item).drop_first() =~= items.drop_first().push(item) || items.len() == 0);
}

/// Kinds of messages are told apart by their names, and so are roles.
pub proof fn law_names_tell_apart(a: ProtoMessageType, b: ProtoMessageType, r: RoleView, s: RoleView)
    ensures
        kind_name_of(a) == kind_name_of(b) ==> a == b,
        role_name_of(r) == role_name_of(s) ==> {
            &&& r is Follower <==> s is Follower
            &&& r is Candidate <==> s is Candidate
            &&& r is Leader <==> s is Leader
        },
{
    reveal_strlit("Heartbeat");
    reveal_strlit("HeartbeatResponse");
    reveal_strlit("AppendEntries");
    reveal_strlit("AppendEntriesResponse");
    reveal_strlit("RequestVote");
    reveal_strlit("RequestVoteResponse");
    reveal_strlit("Follower");
    reveal_strlit("Candidate");
    reveal_strlit("Leader");
    let x = kind_name_of(a);
    let y = kind_name_of(b);
    assert(x[0] == y[0] || x != y);
    assert(x.len() == y.len() || x != y);
    assert(x[1] == y[1] || x != y);
    let p = role_name_of(r);
    let q = role_name_of(s);
    assert(p[0] == q[0] || p != q);
}

/// A report holds the whole time, the id and the whole message, in that order,
/// and little else.
pub proof fn law_reports_are_complete(time: Seq<char>, id: u64, message: Seq<char>, level: EventLevel)
    ensures
        ({
            let line = log_line_of(time, id, message);
            let number = decimal_of(id as nat);
            let t = time.len() as int;
            &&& line.len() == time.len() + number.len() + message.len() + 11
            &&& line.subrange(1, 1 + t) == time
            &&& line.subrange(9 + t, 9 + t + number.len()) == number
            &&& line.skip(line.len() - message.len()) == message
        }),
        tagged_of(level, message).len() == message.len() + level.tag_text().len() + 3,
        tagged_of(level, message).subrange(1, 1 + level.tag_text().len() as int)
            == level.tag_text(),
        tagged_of(level, message).skip(3 + level.tag_text().len() as int) == message,
{
    reveal_strlit("[");
    reveal_strlit("] [Node ");
    reveal_strlit("] ");
    let line = log_line_of(time, id, message);
    let number = decimal_of(id as nat);
    let t = time.len() as int;
    assert(line.subrange(1, 1 + t) =~= time);
    assert(line.subrange(9 + t, 9 + t + number.len()) =~= number);
    assert(line.skip(line.len() - message.len()) =~= message);
    let marked = tagged_of(level, message);
    assert(marked.subrange(1, 1 + level.tag_text().len() as int) =~= level.tag_text());
    assert(marked.skip(3 + level.tag_text().len() as int) =~= message);
}

/// What is reported of a message are its kind, its sender, its addressee, its
/// term, its commit index and the number of its entries, in that order.
pub proof fn law_reported_messages_are_complete(msg: ProtoView)
    ensures
        ({
            let text = message_text_of(msg);
            let kind = kind_name_of(msg.msg_type);
            let from = decimal_of(msg.from as nat);
            let to = decimal_of(msg.to as nat);
            let term = decimal_of(msg.term as nat);
            let commit = decimal_of(msg.commit as nat);
            let entries = decimal_of(msg.entries.len());
            let a = kind.len() + 6;
            let b = a + from.len() + 4;
            let c = b + to.len() + 8;
            let d = c + term.len() + 10;
            let e = d + commit.len() + 11;
            &&& text.subrange(0, kind.len() as int) == kind
            &&& text.subrange(a as int, (a + from.len()) as int) == from
            &&& text.subrange(b as int, (b + to.len()) as int) == to
            &&& text.subrange(c as int, (c + term.len()) as int) == term
            &&& text.subrange(d as int, (d + commit.len()) as int) == commit
            &&& text.subrange(e as int, (e + entries.len()) as int) == entries
            &&& text.len() == e + entries.len() + 1
        }),
{
    reveal_strlit(" from ");
    reveal_strlit(" to ");
    reveal_strlit(" (term: ");
    reveal_strlit(", commit: ");
    reveal_strlit(", entries: ");
    reveal_strlit(")");
    let text = message_text_of(msg);
    let kind = kind_name_of(msg.msg_type);
    let from = decimal_of(msg.from as nat);
    let to = decimal_of(msg.to as nat);
    let term = decimal_of(msg.term as nat);
    let commit = decimal_of(msg.commit as nat);
    let entries = decimal_of(msg.entries.len());
    let a = kind.len() + 6;
    let b = a + from.len() + 4;
    let c = b + to.len() + 8;
    let d = c + term.len() + 10;
    let e = d + commit.len() + 11;
    assert(text.subrange(0, kind.len() as int) =~= kind);
    assert(text.subrange(a as int, (a + from.len()) as int) =~= from);
    assert(text.subrange(b as int, (b + to.len()) as int) =~= to);
    assert(text.subrange(c as int, (c + term.len()) as int) =~= term);
    assert(text.subrange(d as int, (d + commit.len()) as int) =~= commit);
    assert(text.subrange(e as int, (e + entries.len()) as int) =~= entries);
}

/// What is reported of appended entries are their number, the first and the
/// last index and their term, in that order.
pub proof fn law_reported_entries_are_complete(count: nat, first: u64, last: u64, term: u64)
    ensures
        ({
            let text = appended_text_of(count, first, last, term);
            let n = decimal_of(count);
            let f = decimal_of(first as nat);
            let l = decimal_of(last as nat);
            let t = decimal_of(term as nat);
            let a = 9 + n.len() + 25;
            let b = a + f.len() + 2;
            let c = b + l.len() + 7;
            &&& text.subrange(9, (9 + n.len()) as int) == n
            &&& text.subrange(a as int, (a + f.len()) as int) == f
            &&& text.subrange(b as int, (b + l.len()) as int) == l
            &&& text.subrange(c as int, (c + t.len()) as int) == t
            &&& text.len() == c + t.len() + 1
        }),
{
    reveal_strlit("Appended ");
    reveal_strlit(" entries to log (indices ");
    reveal_strlit("..");
    reveal_strlit(", term ");
    reveal_strlit(")");
    let text = appended_text_of(count, first, last, term);
    let n = decimal_of(count);
    let f = decimal_of(first as nat);
    let l = decimal_of(last as nat);
    let t = decimal_of(term as nat);
    let a = 9 + n.len() + 25;
    let b = a + f.len() + 2;
    let c = b + l.len() + 7;
    assert(text.subrange(9, (9 + n.len()) as int) =~= n);
    assert(text.subrange(a as int, (a + f.len()) as int) =~= f);
    assert(text.subrange(b as int, (b + l.len()) as int) =~= l);
    assert(text.subrange(c as int, (c + t.len()) as int) =~= t);
}

} // verus!
