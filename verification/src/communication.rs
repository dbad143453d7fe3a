use vstd::prelude::*;

use crate::proto::{MessageView, ProtoMessage, ProtoView};

verus! {

/// What was handed to a channel: a message for the node it is addressed to, or
/// one for every other node.
#[verifier::ext_equal]
pub enum Sent {
    To(ProtoView),
    All(ProtoView),
}

/// A message that a node wants sent: to the node it is addressed to, or to
/// every other node.
#[verifier::ext_equal]
pub enum Outgoing {
    To(MessageView),
    All(MessageView),
}

impl Outgoing {
    /// What is handed to the channel for it.
    pub open spec fn sent(self) -> Sent {
        match self {
            Outgoing::To(m) => Sent::To(m.to_proto()),
            Outgoing::All(m) => Sent::All(m.to_proto()),
        }
    }

    pub open spec fn message(self) -> MessageView {
        match self {
            Outgoing::To(m) => m,
            Outgoing::All(m) => m,
        }
    }
}

/// What is handed to the channel for a run of messages.
pub open spec fn all_sent(messages: Seq<Outgoing>) -> Seq<Sent> {
    Seq::new(messages.len(), |i: int| messages[i].sent())
}

/// What is sent for two runs of messages is sent for one after the other.
pub proof fn lemma_all_sent_add(a: Seq<Outgoing>, b: Seq<Outgoing>)
    ensures
        all_sent(a + b) == all_sent(a) + all_sent(b),
{
    assert(all_sent(a + b) =~= all_sent(a) + all_sent(b));
}

/// What was handed to a channel over time, in order.
pub type History = Seq<Sent>;

/// A run of messages.
pub type Messages = Seq<ProtoView>;

/// What a queue gave out each time it was asked: a message, or nothing.
pub type Answers = Seq<Option<ProtoView>>;

/// How a channel is set up, as a run of numbers.
pub type Wiring = Seq<int>;

/// The record of what was handed to a channel.
pub struct Record {
    handed: Ghost<History>,
}

impl View for Record {
    type V = History;

    closed spec fn view(&self) -> History {
        self.handed@
    }
}

impl Record {
    /// A record in which nothing stands yet.
    pub fn new() -> (r: Record)
        ensures
            r@ == Seq::<Sent>::empty(),
    {
        Record { handed: Ghost(Seq::empty()) }
    }

    /// Adds one thing that was handed to the channel.
    pub(crate) fn add(&mut self, sent: Ghost<Sent>)
        ensures
            final(self)@ == old(self)@.push(sent@),
    {
        self.handed = Ghost(self.handed@.push(sent@));
    }
}

/// `Channel` allows raft nodes to communicate with each other.
pub trait Channel {
    /// All that was ever handed to this channel, in order.
    spec fn history(&self) -> History;

    /// A message can be addressed to node `id`.
    spec fn reaches(&self, id: u64) -> bool;

    /// What is kept for those who observe this channel.
    spec fn kept(&self) -> Messages;

    /// What is kept of one thing that is handed to this channel.
    spec fn keeps(&self, sent: Sent) -> Messages;

    /// What came in through this channel each time it was asked for a message.
    spec fn answers(&self) -> Answers;

    /// How this channel is set up: which queues it writes to and reads from.
    spec fn wiring(&self) -> Wiring;

    /// What has gone out through this channel agrees with what was handed to it.
    spec fn is_faithful(&self) -> bool;

    /// Sends a message to another raft node.
    fn send(&mut self, msg: ProtoMessage)
        requires
            old(self).reaches(msg.to),
        ensures
            final(self).history() == old(self).history().push(Sent::To(msg@)),
            final(self).kept() == old(self).kept() + old(self).keeps(Sent::To(msg@)),
            final(self).answers() == old(self).answers(),
            final(self).wiring() == old(self).wiring(),
            old(self).is_faithful() ==> final(self).is_faithful(),
            forall|id: u64| #[trigger] final(self).reaches(id) == old(self).reaches(id),
            forall|sent: Sent| #[trigger] final(self).keeps(sent) == old(self).keeps(sent),
    ;

    /// Broadcasts a message to all raft nodes in the cluster.
    fn broadcast(&mut self, msg: ProtoMessage)
        ensures
            final(self).history() == old(self).history().push(Sent::All(msg@)),
            final(self).kept() == old(self).kept() + old(self).keeps(Sent::All(msg@)),
            final(self).answers() == old(self).answers(),
            final(self).wiring() == old(self).wiring(),
            old(self).is_faithful() ==> final(self).is_faithful(),
            forall|id: u64| #[trigger] final(self).reaches(id) == old(self).reaches(id),
            forall|sent: Sent| #[trigger] final(self).keeps(sent) == old(self).keeps(sent),
    ;

    /// Whether a message can be addressed to node `id`.
    fn can_reach(&self, id: u64) -> (r: bool)
        ensures
            r <==> self.reaches(id),
    ;
}

/// What a channel keeps of all that is handed to it.
pub open spec fn kept_of<C: Channel>(channel: C, sent: Seq<Sent>) -> Seq<ProtoView>
    decreases sent.len(),
{
    if sent.len() == 0 {
        Seq::empty()
    } else {
        kept_of(channel, sent.drop_last()) + channel.keeps(sent.last())
    }
}

/// `after` is the channel `before` once `sent` was handed to it, whatever came
/// in through it.
pub open spec fn carries<C: Channel>(after: C, before: C, sent: Seq<Sent>) -> bool {
    &&& after.history() == before.history() + sent
    &&& after.kept() == before.kept() + kept_of(before, sent)
    &&& after.wiring() == before.wiring()
    &&& before.is_faithful() ==> after.is_faithful()
    &&& forall|id: u64| #[trigger] after.reaches(id) == before.reaches(id)
    &&& forall|sent: Sent| #[trigger] after.keeps(sent) == before.keeps(sent)
}

/// `after` is the channel `before` once `sent` was handed to it, and it was not
/// asked for messages meanwhile.
pub open spec fn carried<C: Channel>(after: C, before: C, sent: Seq<Sent>) -> bool {
    &&& carries(after, before, sent)
    &&& after.answers() == before.answers()
}

/// Channels that keep the same of everything keep the same of a run.
pub proof fn lemma_kept_of_same<C: Channel>(a: C, b: C, sent: Seq<Sent>)
    requires
        forall|s: Sent| #[trigger] a.keeps(s) == b.keeps(s),
    ensures
        kept_of(a, sent) == kept_of(b, sent),
    decreases sent.len(),
{
    if sent.len() > 0 {
        lemma_kept_of_same(a, b, sent.drop_last());
        assert(a.keeps(sent.last()) == b.keeps(sent.last()));
    }
}

/// What is kept of two runs is kept of one after the other.
pub proof fn lemma_kept_of_add<C: Channel>(c: C, a: Seq<Sent>, b: Seq<Sent>)
    ensures
        kept_of(c, a + b) == kept_of(c, a) + kept_of(c, b),
    decreases b.len(),
{
    if b.len() == 0 {
        assert(a + b =~= a);
        assert(kept_of(c, a) + kept_of(c, b) =~= kept_of(c, a));
    } else {
        assert((a + b).drop_last() =~= a + b.drop_last());
        lemma_kept_of_add(c, a, b.drop_last());
        assert(kept_of(c, a) + kept_of(c, b.drop_last()) + c.keeps(b.last()) =~= kept_of(c, a) + (
        kept_of(c, b.drop_last()) + c.keeps(b.last())));
    }
}

/// A channel to which nothing is handed stays as it is.
pub proof fn lemma_carries_nothing<C: Channel>(c: C)
    ensures
        carries(c, c, all_sent(Seq::empty())),
{
    assert(all_sent(Seq::empty()) =~= Seq::<Sent>::empty());
    assert(c.history() + Seq::<Sent>::empty() =~= c.history());
    assert(c.kept() + Seq::<ProtoView>::empty() =~= c.kept());
}

/// A channel to which one message was handed.
pub proof fn lemma_carries_one<C: Channel>(after: C, before: C, out: Outgoing)
    requires
        after.history() == before.history().push(out.sent()),
        after.kept() == before.kept() + before.keeps(out.sent()),
        after.wiring() == before.wiring(),
        before.is_faithful() ==> after.is_faithful(),
        forall|id: u64| #[trigger] after.reaches(id) == before.reaches(id),
        forall|sent: Sent| #[trigger] after.keeps(sent) == before.keeps(sent),
    ensures
        carries(after, before, all_sent(seq![out])),
{
    let sent = all_sent(seq![out]);
    assert(sent =~= seq![out.sent()]);
    assert(sent.drop_last() =~= Seq::<Sent>::empty());
    reveal_with_fuel(kept_of, 2);
    assert(kept_of(before, sent) =~= before.keeps(out.sent()));
    assert(before.history() + sent =~= before.history().push(out.sent()));
}

/// A channel to which one run was handed after another.
pub proof fn lemma_carries_trans<C: Channel>(a: C, b: C, c: C, x: Seq<Sent>, y: Seq<Sent>)
    requires
        carries(b, a, x),
        carries(c, b, y),
    ensures
        carries(c, a, x + y),
{
    lemma_kept_of_add(a, x, y);
    lemma_kept_of_same(b, a, y);
    assert(a.history() + x + y =~= a.history() + (x + y));
    assert(a.kept() + kept_of(a, x) + kept_of(a, y) =~= a.kept() + (kept_of(a, x) + kept_of(a, y)));
    assert forall|id: u64| #[trigger] c.reaches(id) == a.reaches(id) by {
        assert(b.reaches(id) == a.reaches(id));
    }
    assert forall|sent: Sent| #[trigger] c.keeps(sent) == a.keeps(sent) by {
        assert(b.keeps(sent) == a.keeps(sent));
    }
}

/// A channel to which one run of messages was handed after another.
pub proof fn lemma_carries_add<C: Channel>(
    a: C,
    b: C,
    c: C,
    first: Seq<Outgoing>,
    second: Seq<Outgoing>,
)
    requires
        carries(b, a, all_sent(first)),
        carries(c, b, all_sent(second)),
    ensures
        carries(c, a, all_sent(first + second)),
{
    lemma_all_sent_add(first, second);
    lemma_carries_trans(a, b, c, all_sent(first), all_sent(second));
}

/// What is sent to one node names it, and what is sent to all names nobody.
pub open spec fn proper(sent: Sent) -> bool {
    match sent {
        Sent::To(p) => p.to != 0,
        Sent::All(p) => p.to == 0,
    }
}

/// All of `sent` is proper.
pub open spec fn all_proper(sent: Seq<Sent>) -> bool {
    forall|i: int| 0 <= i < sent.len() ==> proper(#[trigger] sent[i])
}

/// What a node wants sent is what its channel is handed: as many things, in the
/// same order, each to one node or to all as it was meant, with what it holds.
pub proof fn law_all_is_handed_over(messages: Seq<Outgoing>)
    ensures
        all_sent(messages).len() == messages.len(),
        forall|i: int|
            0 <= i < messages.len() ==> (#[trigger] all_sent(messages)[i] == match messages[i] {
                Outgoing::To(m) => Sent::To(m.to_proto()),
                Outgoing::All(m) => Sent::All(m.to_proto()),
            }),
{
}

} // verus!
