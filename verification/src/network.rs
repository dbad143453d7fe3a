use vstd::prelude::*;

use std::sync::mpsc::{Receiver, Sender};

use crate::communication::{Channel, Record, Sent};
use crate::proto::{ProtoMessage, ProtoView};
use crate::rng::RngProvider;

verus! {

#[verifier::external_type_specification]
#[verifier::external_body]
#[verifier::reject_recursive_types(T)]
pub struct ExSender<T>(Sender<T>);

#[verifier::external_type_specification]
#[verifier::external_body]
#[verifier::reject_recursive_types(T)]
pub struct ExReceiver<T>(Receiver<T>);

/// All messages that were handed to `Sender::send` through this handle, in
/// order.
pub uninterp spec fn handed(sender: Sender<ProtoMessage>) -> Seq<ProtoView>;

/// What `Receiver::try_recv` gave each time it was called: a message, or
/// nothing.
pub uninterp spec fn answered(receiver: Receiver<ProtoMessage>) -> Seq<Option<ProtoView>>;

/// Which queue the sender puts messages into.
pub uninterp spec fn fed_by(sender: Sender<ProtoMessage>) -> int;

/// Which queue the receiver takes messages out of.
pub uninterp spec fn read_by(receiver: Receiver<ProtoMessage>) -> int;

/// A message that may have come in, as a mathematical value.
pub open spec fn answer_view(answer: Option<ProtoMessage>) -> Option<ProtoView> {
    match answer {
        Some(msg) => Some(msg@),
        None => None,
    }
}

/// `std::sync::mpsc::channel`: the two ends of a new queue, neither of which
/// was used yet.
#[verifier::external_body]
pub(crate) fn new_queue() -> (r: (Sender<ProtoMessage>, Receiver<ProtoMessage>))
    ensures
        fed_by(r.0) == read_by(r.1),
        handed(r.0) == Seq::<ProtoView>::empty(),
        answered(r.1) == Seq::<Option<ProtoView>>::empty(),
{
    std::sync::mpsc::channel::<ProtoMessage>()
}

/// `Sender::clone`: another handle on the same queue, through which nothing
/// was sent yet.
#[verifier::external_body]
pub(crate) fn share_sender(sender: &Sender<ProtoMessage>) -> (r: Sender<ProtoMessage>)
    ensures
        fed_by(r) == fed_by(*sender),
        handed(r) == Seq::<ProtoView>::empty(),
{
    sender.clone()
}

/// `Sender::send`: hands `msg` to the queue. Whether its receiver is still
/// there, which is what the result tells, is not said: others decide it.
#[verifier::external_body]
pub(crate) fn enqueue(sender: &mut Sender<ProtoMessage>, msg: ProtoMessage) -> (r: bool)
    ensures
        handed(*final(sender)) == handed(*old(sender)).push(msg@),
        fed_by(*final(sender)) == fed_by(*old(sender)),
{
    sender.send(msg).is_ok()
}

/// `Receiver::try_recv`: the next message of the queue, where there is one.
/// Which one that is depends on what others sent; said is only that the answer
/// is the one recorded.
#[verifier::external_body]
pub(crate) fn dequeue(receiver: &mut Receiver<ProtoMessage>) -> (r: Option<ProtoMessage>)
    ensures
        answered(*final(receiver)) == answered(*old(receiver)).push(answer_view(r)),
        read_by(*final(receiver)) == read_by(*old(receiver)),
{
    receiver.try_recv().ok()
}

/// How many of a hundred messages get through.
#[derive(Debug, Clone, Copy, PartialEq, Eq, Structural)]
pub struct FaultRate(pub u8);

/// The rate at which every message gets through.
pub const NO_FAULT: u8 = 100;

/// The rate at which no message gets through.
pub const ONLY_FAULT: u8 = 0;

impl FaultRate {
    /// A message for which the number `draw` was drawn gets through.
    pub open spec fn lets_through(self, draw: u64) -> bool {
        draw <= self.0
    }

    /// Whether a message for which the number `draw` was drawn gets through.
    pub fn delivers(&self, draw: u64) -> (r: bool)
        ensures
            r <==> self.lets_through(draw),
    {
        draw <= self.0 as u64
    }
}

/// At the highest rate every message gets through, and at the lowest none,
/// whatever number from 1 to 100 is drawn.
pub proof fn law_extreme_rates(draw: u64)
    requires
        1 <= draw <= 100,
    ensures
        FaultRate(NO_FAULT).lets_through(draw),
        !FaultRate(ONLY_FAULT).lets_through(draw),
{
}

/// A sender channel with configured message drop rate.
pub struct FaultyChannel<Rng: RngProvider> {
    pub channel: Sender<ProtoMessage>,
    /// A message gets through with a chance of `drop_rate / 100`
    pub drop_rate: FaultRate,
    pub rng: Rng,
}

/// What has got through, once `msg` was sent and the number `draw` drawn.
pub open spec fn passed_on(before: Seq<ProtoView>, msg: ProtoView, rate: FaultRate, draw: u64) -> Seq<ProtoView> {
    if rate.lets_through(draw) {
        before.push(msg)
    } else {
        before
    }
}

/// `after` is what has got through, once `msg` was sent and some number from 1
/// to 100 drawn.
pub open spec fn passes(before: Seq<ProtoView>, after: Seq<ProtoView>, msg: ProtoView, rate: FaultRate) -> bool {
    exists|draw: u64| 1 <= draw <= 100 && after == #[trigger] passed_on(before, msg, rate, draw)
}

/// The numbers from 1 up to `n` for which a message gets through at `rate`.
pub open spec fn winning_draws(rate: FaultRate, n: nat) -> Set<int>
    decreases n,
{
    if n == 0 {
        Set::empty()
    } else if rate.lets_through(n as u64) {
        winning_draws(rate, (n - 1) as nat).insert(n as int)
    } else {
        winning_draws(rate, (n - 1) as nat)
    }
}

proof fn lemma_winning_draws(rate: FaultRate, n: nat)
    requires
        n <= 100,
    ensures
        winning_draws(rate, n).finite(),
        winning_draws(rate, n).len() == if n <= rate.0 {
            n
        } else {
            rate.0 as nat
        },
        forall|d: int| #[trigger]
            winning_draws(rate, n).contains(d) <==> 1 <= d <= n && rate.lets_through(d as u64),
    decreases n,
{
    if n > 0 {
        lemma_winning_draws(rate, (n - 1) as nat);
    }
}

/// The rate is the share of messages that get through: of the hundred numbers
/// that can be drawn, as many let a message through as the rate says. What
/// gets through is the message itself, behind what got through before, and one
/// that does not leaves no trace.
pub proof fn law_rate_is_the_share(rate: FaultRate, before: Seq<ProtoView>, msg: ProtoView)
    requires
        rate.0 <= 100,
    ensures
        exists|winning: Set<int>|
            {
                &&& winning.finite()
                &&& #[trigger] winning.len() == rate.0
                &&& forall|d: int| #[trigger]
                    winning.contains(d) <==> 1 <= d <= 100 && passed_on(
                        before,
                        msg,
                        rate,
                        d as u64,
                    ) == before.push(msg)
                &&& forall|d: int|
                    1 <= d <= 100 && !#[trigger] winning.contains(d) ==> passed_on(
                        before,
                        msg,
                        rate,
                        d as u64,
                    ) == before
            },
{
    lemma_winning_draws(rate, 100);
    let winning = winning_draws(rate, 100);
    assert(before.push(msg).len() != before.len());
    assert forall|d: int| #[trigger] winning.contains(d) <==> 1 <= d <= 100 && passed_on(
        before,
        msg,
        rate,
        d as u64,
    ) == before.push(msg) by {}
    assert(winning.len() == rate.0);
}

/// A number that is drawn decides the more messages the higher the rate: what
/// gets through at one rate gets through at every higher one.
pub proof fn law_higher_rates_lose_less(low: FaultRate, high: FaultRate, draw: u64)
    requires
        low.0 <= high.0,
        low.lets_through(draw),
    ensures
        high.lets_through(draw),
{
}

/// At the highest rate what is sent gets through, and at the lowest it does
/// not.
pub proof fn law_extreme_rates_pass(before: Seq<ProtoView>, after: Seq<ProtoView>, msg: ProtoView)
    ensures
        passes(before, after, msg, FaultRate(NO_FAULT)) ==> after == before.push(msg),
        passes(before, after, msg, FaultRate(ONLY_FAULT)) ==> after == before,
{
}

impl<Rng: RngProvider> FaultyChannel<Rng> {
    /// What has got through to the queue so far.
    pub open spec fn passed(&self) -> Seq<ProtoView> {
        handed(self.channel)
    }

    /// A channel that lets messages into the queue of `channel` at the given rate.
    pub fn new(channel: &Sender<ProtoMessage>, drop_rate: FaultRate, rng: Rng) -> (r: Self)
        ensures
            r.drop_rate == drop_rate,
            r.rng == rng,
            r.passed() == Seq::<ProtoView>::empty(),
            fed_by(r.channel) == fed_by(*channel),
    {
        Self { channel: share_sender(channel), drop_rate, rng }
    }

    /// Sends `msg`, if the number `draw` lets it through.
    pub fn send_drawn(&mut self, msg: ProtoMessage, draw: u64)
        ensures
            final(self).passed() == passed_on(
                old(self).passed(),
                msg@,
                old(self).drop_rate,
                draw,
            ),
            fed_by(final(self).channel) == fed_by(old(self).channel),
            *final(self) == (FaultyChannel { channel: final(self).channel, ..*old(self) }),
    {
        if self.drop_rate.delivers(draw) {
            let _ = enqueue(&mut self.channel, msg);
        }
    }

    /// This is the channel `before` once `msg` was sent: its generator was
    /// asked once for a number from 1 to 100, and that number decided.
    pub open spec fn sent_by_chance(&self, before: &Self, msg: ProtoView) -> bool {
        &&& self.drop_rate == before.drop_rate
        &&& fed_by(self.channel) == fed_by(before.channel)
        &&& exists|draw: u64|
            1 <= draw <= 100 && #[trigger] before.rng.drew(&self.rng, 1, 101, draw)
                && self.passed() == passed_on(before.passed(), msg, before.drop_rate, draw)
    }

    /// Sends `msg`, if chance lets it through.
    pub fn send(&mut self, msg: ProtoMessage)
        ensures
            final(self).sent_by_chance(old(self), msg@),
            final(self).drop_rate == old(self).drop_rate,
            fed_by(final(self).channel) == fed_by(old(self).channel),
            passes(old(self).passed(), final(self).passed(), msg@, old(self).drop_rate),
    {
        let ghost before = *self;
        let draw: u64 = self.rng.random_range(1, 101);
        self.send_drawn(msg, draw);
        assert(before.rng.drew(&self.rng, 1, 101, draw));
    }
}

/// Simple mspc based channel for testing
pub struct TestChannel<Rng: RngProvider> {
    /// Channels for sending to other nodes, `channels[self.id]` is a sender to its own `recv`.
    pub channels: Vec<FaultyChannel<Rng>>,
    pub recv: Receiver<ProtoMessage>,
    /// The position of the node that owns this channel, counted from 0.
    pub id: u64,
    /// Whether what is sent is also kept in `observed`.
    pub observing: bool,
    /// What was sent while observing (for visualization)
    pub observed: Vec<ProtoMessage>,
    /// All that was handed to this channel.
    pub history: Record,
}

/// The number of those that a broadcast of the node at position `id` goes to:
/// all of `size` but itself.
pub open spec fn audience(size: nat, id: u64) -> nat {
    if id < size {
        (size - 1) as nat
    } else {
        size
    }
}

/// `n` times the message `msg`.
pub open spec fn repeated(msg: ProtoView, n: nat) -> Seq<ProtoView> {
    Seq::new(n, |i: int| msg)
}

/// The messages as mathematical values.
pub open spec fn protos_view(messages: Seq<ProtoMessage>) -> Seq<ProtoView> {
    Seq::new(messages.len(), |i: int| messages[i]@)
}

/// What a channel with this history sends to the node at position `to`: what
/// is addressed to it, and what the node at position `own` sends to all
/// others.
pub open spec fn sent_towards(history: Seq<Sent>, to: int, own: u64) -> Seq<ProtoView>
    decreases history.len(),
{
    if history.len() == 0 {
        Seq::empty()
    } else {
        let earlier = sent_towards(history.drop_last(), to, own);
        match history.last() {
            Sent::To(msg) => if msg.to == to + 1 {
                earlier.push(msg)
            } else {
                earlier
            },
            Sent::All(msg) => if to != own {
                earlier.push(msg)
            } else {
                earlier
            },
        }
    }
}

/// `some` are those of `all` that are left when others are lost, in order.
pub open spec fn left_of(some: Seq<ProtoView>, all: Seq<ProtoView>) -> bool
    decreases all.len(),
{
    if all.len() == 0 {
        some.len() == 0
    } else {
        ||| left_of(some, all.drop_last())
        ||| some.len() > 0 && some.last() == all.last() && left_of(some.drop_last(), all.drop_last())
    }
}

/// `passed` is what can have got through of `sent` at `rate`: all of it at the
/// highest, nothing at the lowest, and else some of it, in order.
pub open spec fn got_through(passed: Seq<ProtoView>, sent: Seq<ProtoView>, rate: FaultRate) -> bool {
    &&& left_of(passed, sent)
    &&& rate.0 >= NO_FAULT ==> passed == sent
    &&& rate.0 == ONLY_FAULT ==> passed == Seq::<ProtoView>::empty()
}

/// What got through still did once one more message was sent.
proof fn lemma_got_through_more(
    before: Seq<ProtoView>,
    after: Seq<ProtoView>,
    sent: Seq<ProtoView>,
    msg: ProtoView,
    rate: FaultRate,
)
    requires
        got_through(before, sent, rate),
        passes(before, after, msg, rate),
    ensures
        got_through(after, sent.push(msg), rate),
{
    assert(sent.push(msg).drop_last() =~= sent);
    assert(before.push(msg).drop_last() =~= before);
}

impl<Rng: RngProvider> TestChannel<Rng> {
    /// The channel of the node at position `id`, which reads from `recv` and
    /// writes to `channels`.
    pub fn new(id: u64, channels: Vec<FaultyChannel<Rng>>, recv: Receiver<ProtoMessage>) -> (r: Self)
        ensures
            r.id == id,
            r.channels@ == channels@,
            !r.observing,
            r.observed@.len() == 0,
            r.recv == recv,
            r.history() == Seq::<Sent>::empty(),
    {
        Self {
            channels,
            recv,
            id,
            observing: false,
            observed: Vec::new(),
            history: Record::new(),
        }
    }

    /// From now on keep what is sent, for `take_observed` to give out.
    pub fn observe_messages(&mut self)
        ensures
            *final(self) == (TestChannel { observing: true, ..*old(self) }),
    {
        self.observing = true;
    }

    /// What was sent while observing, since this was last called.
    pub fn take_observed(&mut self) -> (r: Vec<ProtoMessage>)
        ensures
            r@ == old(self).observed@,
            final(self).observed@.len() == 0,
            *final(self) == (TestChannel { observed: final(self).observed, ..*old(self) }),
    {
        let mut out: Vec<ProtoMessage> = Vec::new();
        std::mem::swap(&mut out, &mut self.observed);
        out
    }

    /// The next message for the node that owns this channel, where there is one.
    pub fn try_recv(&mut self) -> (r: Option<ProtoMessage>)
        ensures
            final(self).answers() == old(self).answers().push(answer_view(r)),
            read_by(final(self).recv) == read_by(old(self).recv),
            *final(self) == (TestChannel { recv: final(self).recv, ..*old(self) }),
    {
        dequeue(&mut self.recv)
    }

    /// All channels but `except` are as they were, and that one kept its rate.
    pub open spec fn same_but(&self, before: &Self, except: int) -> bool {
        &&& self.channels@.len() == before.channels@.len()
        &&& forall|i: int|
            0 <= i < self.channels@.len() ==> {
                &&& (#[trigger] self.channels@[i]).drop_rate == before.channels@[i].drop_rate
                &&& fed_by(self.channels@[i].channel) == fed_by(before.channels@[i].channel)
                &&& i != except ==> self.channels@[i] == before.channels@[i]
            }
    }
}

impl<Rng: RngProvider> Channel for TestChannel<Rng> {
    open spec fn history(&self) -> Seq<Sent> {
        self.history@
    }

    open spec fn kept(&self) -> Seq<ProtoView> {
        protos_view(self.observed@)
    }

    open spec fn keeps(&self, sent: Sent) -> Seq<ProtoView> {
        if !self.observing {
            Seq::empty()
        } else {
            match sent {
                Sent::To(msg) => seq![msg],
                Sent::All(msg) => repeated(msg, audience(self.channels@.len(), self.id)),
            }
        }
    }

    open spec fn answers(&self) -> Seq<Option<ProtoView>> {
        answered(self.recv)
    }

    /// The queue that is read, the own position, the number of queues that are
    /// written to, and these queues with their rates.
    open spec fn wiring(&self) -> Seq<int> {
        seq![read_by(self.recv), self.id as int, self.channels@.len() as int] + Seq::new(
            self.channels@.len(),
            |j: int| fed_by(self.channels@[j].channel),
        ) + Seq::new(self.channels@.len(), |j: int| self.channels@[j].drop_rate.0 as int)
    }

    /// Each queue was passed what chance left of what was sent towards it.
    open spec fn is_faithful(&self) -> bool {
        forall|j: int|
            0 <= j < self.channels@.len() ==> got_through(
                (#[trigger] self.channels@[j]).passed(),
                sent_towards(self.history@, j, self.id),
                self.channels@[j].drop_rate,
            )
    }

    open spec fn reaches(&self, id: u64) -> bool {
        1 <= id <= self.channels@.len()
    }

    /// Only the queue of the addressee can have grown.
    fn send(&mut self, msg: ProtoMessage)
        ensures
            final(self).id == old(self).id,
            final(self).observing == old(self).observing,
            final(self).recv == old(self).recv,
            final(self).same_but(old(self), msg.to - 1),
            final(self).channels@[msg.to - 1].sent_by_chance(
                &old(self).channels@[msg.to - 1],
                msg@,
            ),
            passes(
                old(self).channels@[msg.to - 1].passed(),
                final(self).channels@[msg.to - 1].passed(),
                msg@,
                old(self).channels@[msg.to - 1].drop_rate,
            ),
    {
        let ghost before = *self;
        let ghost sent = Sent::To(msg@);
        assert(self.channels@.len() == self.channels.len());
        let index: usize = (msg.to - 1) as usize;
        if self.observing {
            self.observed.push(msg.clone());
            assert(protos_view(self.observed@) =~= protos_view(before.observed@) + seq![msg@]);
        } else {
            assert(before.kept() + before.keeps(sent) =~= before.kept());
        }
        let ghost view = msg@;
        self.channels[index].send(msg);
        self.history.add(Ghost(sent));
        proof {
            assert(self.wiring() =~= before.wiring());
            if before.is_faithful() {
                assert(self.history@.drop_last() =~= before.history@);
                assert forall|j: int| 0 <= j < self.channels@.len() implies got_through(
                    (#[trigger] self.channels@[j]).passed(),
                    sent_towards(self.history@, j, self.id),
                    self.channels@[j].drop_rate,
                ) by {
                    assert(got_through(
                        before.channels@[j].passed(),
                        sent_towards(before.history@, j, before.id),
                        before.channels@[j].drop_rate,
                    ));
                    if j == index {
                        lemma_got_through_more(
                            before.channels@[j].passed(),
                            self.channels@[j].passed(),
                            sent_towards(before.history@, j, before.id),
                            view,
                            before.channels@[j].drop_rate,
                        );
                    }
                }
            }
        }
    }

    /// Sends messages to everyone except itself
    fn broadcast(&mut self, msg: ProtoMessage)
        ensures
            final(self).id == old(self).id,
            final(self).observing == old(self).observing,
            final(self).recv == old(self).recv,
            final(self).channels@.len() == old(self).channels@.len(),
            forall|i: int|
                0 <= i < old(self).channels@.len() ==> {
                    &&& (#[trigger] final(self).channels@[i]).drop_rate
                        == old(self).channels@[i].drop_rate
                    &&& fed_by(final(self).channels@[i].channel) == fed_by(
                        old(self).channels@[i].channel,
                    )
                    &&& i == old(self).id ==> final(self).channels@[i] == old(self).channels@[i]
                    &&& i != old(self).id ==> final(self).channels@[i].sent_by_chance(
                        &old(self).channels@[i],
                        msg@,
                    )
                    &&& i != old(self).id ==> passes(
                        old(self).channels@[i].passed(),
                        final(self).channels@[i].passed(),
                        msg@,
                        old(self).channels@[i].drop_rate,
                    )
                },
    {
        let ghost before = *self;
        let ghost sent = Sent::All(msg@);
        let n: usize = self.channels.len();
        let own: u64 = self.id;
        if self.observing {
            let mut i: usize = 0;
            let ghost mut copies: nat = 0;
            assert(protos_view(self.observed@) =~= protos_view(before.observed@) + repeated(
                msg@,
                0,
            ));
            while i < n
                invariant
                    i <= n,
                    own == before.id,
                    copies == audience(i as nat, own),
                    *self == (TestChannel { observed: self.observed, ..before }),
                    protos_view(self.observed@) == protos_view(before.observed@) + repeated(
                        msg@,
                        copies,
                    ),
                decreases n - i,
            {
                if i as u64 != own {
                    let ghost so_far = self.observed@;
                    self.observed.push(msg.clone());
                    assert(protos_view(self.observed@) =~= protos_view(so_far).push(msg@));
                    assert(protos_view(self.observed@) =~= protos_view(before.observed@)
                        + repeated(msg@, copies + 1));
                    proof {
                        copies = copies + 1;
                    }
                }
                i = i + 1;
            }
        } else {
            assert(before.kept() + before.keeps(sent) =~= before.kept());
        }
        let ghost noted = *self;
        let mut i: usize = 0;
        while i < n
            invariant
                i <= n,
                n == before.channels@.len(),
                own == before.id,
                self.channels@.len() == n,
                *self == (TestChannel { channels: self.channels, ..noted }),
                noted.channels == before.channels,
                noted.id == before.id,
                noted.observing == before.observing,
                forall|j: int|
                    i <= j < n ==> #[trigger] self.channels@[j] == before.channels@[j],
                forall|j: int|
                    0 <= j < i ==> {
                        &&& (#[trigger] self.channels@[j]).drop_rate
                            == before.channels@[j].drop_rate
                        &&& fed_by(self.channels@[j].channel) == fed_by(
                            before.channels@[j].channel,
                        )
                        &&& j == own ==> self.channels@[j] == before.channels@[j]
                        &&& j != own ==> self.channels@[j].sent_by_chance(
                            &before.channels@[j],
                            msg@,
                        )
                        &&& j != own ==> passes(
                            before.channels@[j].passed(),
                            self.channels@[j].passed(),
                            msg@,
                            before.channels@[j].drop_rate,
                        )
                    },
            decreases n - i,
        {
            if i as u64 != own {
                let copy = msg.clone();
                self.channels[i].send(copy);
            }
            i = i + 1;
        }
        self.history.add(Ghost(sent));
        proof {
            assert(self.wiring() =~= before.wiring());
            if before.is_faithful() {
                assert(self.history@.drop_last() =~= before.history@);
                assert forall|j: int| 0 <= j < self.channels@.len() implies got_through(
                    (#[trigger] self.channels@[j]).passed(),
                    sent_towards(self.history@, j, self.id),
                    self.channels@[j].drop_rate,
                ) by {
                    assert(got_through(
                        before.channels@[j].passed(),
                        sent_towards(before.history@, j, before.id),
                        before.channels@[j].drop_rate,
                    ));
                    if j != own {
                        lemma_got_through_more(
                            before.channels@[j].passed(),
                            self.channels@[j].passed(),
                            sent_towards(before.history@, j, before.id),
                            msg@,
                            before.channels@[j].drop_rate,
                        );
                    }
                }
            }
        }
    }

    fn can_reach(&self, id: u64) -> bool {
        1 <= id && id <= self.channels.len() as u64
    }
}

/// Channels that are set up alike read the same queue, stand at the same
/// position, and write to the same queues at the same rates.
pub proof fn lemma_wiring_tells<Rng: RngProvider>(a: TestChannel<Rng>, b: TestChannel<Rng>)
    requires
        a.wiring() == b.wiring(),
    ensures
        read_by(a.recv) == read_by(b.recv),
        a.id == b.id,
        a.channels@.len() == b.channels@.len(),
        forall|j: int|
            0 <= j < a.channels@.len() ==> {
                &&& fed_by((#[trigger] a.channels@[j]).channel) == fed_by(b.channels@[j].channel)
                &&& a.channels@[j].drop_rate == b.channels@[j].drop_rate
            },
{
    let n = a.channels@.len() as int;
    lemma_wiring_at(a);
    lemma_wiring_at(b);
    assert forall|j: int| 0 <= j < n implies {
        &&& fed_by((#[trigger] a.channels@[j]).channel) == fed_by(b.channels@[j].channel)
        &&& a.channels@[j].drop_rate == b.channels@[j].drop_rate
    } by {
        assert(a.wiring()[3 + j] == fed_by(a.channels@[j].channel));
        assert(b.wiring()[3 + j] == fed_by(b.channels@[j].channel));
        assert(a.wiring()[3 + n + j] == a.channels@[j].drop_rate.0);
        assert(b.wiring()[3 + n + j] == b.channels@[j].drop_rate.0);
    }
}

/// Where in its setup each thing stands.
proof fn lemma_wiring_at<Rng: RngProvider>(c: TestChannel<Rng>)
    ensures
        c.wiring()[0] == read_by(c.recv),
        c.wiring()[1] == c.id,
        c.wiring()[2] == c.channels@.len(),
        forall|j: int|
            0 <= j < c.channels@.len() ==> {
                &&& c.wiring()[3 + j] == fed_by((#[trigger] c.channels@[j]).channel)
                &&& c.wiring()[3 + c.channels@.len() + j] == c.channels@[j].drop_rate.0
            },
{
    let head = seq![read_by(c.recv), c.id as int, c.channels@.len() as int];
    let queues = Seq::new(c.channels@.len(), |j: int| fed_by(c.channels@[j].channel));
    let rates = Seq::new(c.channels@.len(), |j: int| c.channels@[j].drop_rate.0 as int);
    assert(c.wiring() =~= head + queues + rates);
    assert(c.wiring()[0] == head[0]);
    assert(c.wiring()[1] == head[1]);
    assert(c.wiring()[2] == head[2]);
    assert forall|j: int| 0 <= j < c.channels@.len() implies {
        &&& c.wiring()[3 + j] == fed_by((#[trigger] c.channels@[j]).channel)
        &&& c.wiring()[3 + c.channels@.len() + j] == c.channels@[j].drop_rate.0
    } by {
        assert(c.wiring()[3 + j] == queues[j]);
        assert(c.wiring()[3 + c.channels@.len() + j] == rates[j]);
    }
}

/// A broadcast goes to all nodes but the sender, and observers see it once for
/// each of them, and every other message once. Nobody sees what is sent while
/// nobody observes.
pub proof fn law_observers_see_each_copy<Rng: RngProvider>(c: TestChannel<Rng>, msg: ProtoView)
    requires
        c.id < c.channels@.len(),
    ensures
        c.observing ==> {
            &&& c.keeps(Sent::To(msg)).len() == 1
            &&& c.keeps(Sent::To(msg))[0] == msg
            &&& c.keeps(Sent::All(msg)).len() == c.channels@.len() - 1
            &&& forall|i: int|
                0 <= i < c.channels@.len() - 1 ==> #[trigger] c.keeps(Sent::All(msg))[i] == msg
        },
        !c.observing ==> c.keeps(Sent::To(msg)).len() == 0 && c.keeps(Sent::All(msg)).len() == 0,
        c.reaches(msg.to) <==> 1 <= msg.to <= c.channels@.len(),
{
}

/// What is sent to one node goes towards that one alone, and what is sent to
/// all goes towards everyone but the sender, each time behind all that went
/// there before.
pub proof fn law_each_is_sent_what_is_for_it(history: Seq<Sent>, msg: ProtoView, to: int, own: u64)
    ensures
        sent_towards(history.push(Sent::To(msg)), to, own) == if msg.to == to + 1 {
            sent_towards(history, to, own).push(msg)
        } else {
            sent_towards(history, to, own)
        },
        sent_towards(history.push(Sent::All(msg)), to, own) == if to != own {
            sent_towards(history, to, own).push(msg)
        } else {
            sent_towards(history, to, own)
        },
        sent_towards(Seq::empty(), to, own).len() == 0,
{
    assert(history.push(Sent::To(msg)).drop_last() =~= history);
    assert(history.push(Sent::All(msg)).drop_last() =~= history);
}

/// Whether a message that is sent gets through is decided by one number from 1
/// to 100, for which the generator of the channel was asked once: it does if
/// the number is not above the rate. If it does it comes behind all that got
/// through before, and else nothing changes. The channel stays one to the same
/// queue at the same rate.
pub proof fn law_one_draw_decides<Rng: RngProvider>(
    before: FaultyChannel<Rng>,
    after: FaultyChannel<Rng>,
    msg: ProtoView,
) -> (draw: u64)
    requires
        after.sent_by_chance(&before, msg),
    ensures
        1 <= draw <= 100,
        before.rng.drew(&after.rng, 1, 101, draw),
        draw <= before.drop_rate.0 ==> handed(after.channel) == handed(before.channel).push(msg),
        draw > before.drop_rate.0 ==> handed(after.channel) == handed(before.channel),
        after.drop_rate == before.drop_rate,
        fed_by(after.channel) == fed_by(before.channel),
{
    choose|draw: u64|
        1 <= draw <= 100 && #[trigger] before.rng.drew(&after.rng, 1, 101, draw) && after.passed()
            == passed_on(before.passed(), msg, before.drop_rate, draw)
}

/// What got through is what was sent, in order and at most once each; at the
/// highest rate it is all of it, and at the lowest nothing.
pub proof fn law_what_gets_through_was_sent(
    passed: Seq<ProtoView>,
    sent: Seq<ProtoView>,
    rate: FaultRate,
) -> (from: Seq<int>)
    requires
        got_through(passed, sent, rate),
    ensures
        from.len() == passed.len(),
        forall|i: int| 0 <= i < from.len() ==> 0 <= #[trigger] from[i] < sent.len() && sent[from[i]]
            == passed[i],
        forall|i: int, j: int| 0 <= i < j < from.len() ==> #[trigger] from[i] < #[trigger] from[j],
        rate.0 >= 100 ==> passed == sent,
        rate.0 == 0 ==> passed.len() == 0,
{
    lemma_left_of_places(passed, sent)
}

proof fn lemma_left_of_places(some: Seq<ProtoView>, all: Seq<ProtoView>) -> (from: Seq<int>)
    requires
        left_of(some, all),
    ensures
        from.len() == some.len(),
        forall|i: int| 0 <= i < from.len() ==> 0 <= #[trigger] from[i] < all.len() && all[from[i]]
            == some[i],
        forall|i: int, j: int| 0 <= i < j < from.len() ==> #[trigger] from[i] < #[trigger] from[j],
    decreases all.len(),
{
    if all.len() == 0 {
        Seq::empty()
    } else if left_of(some, all.drop_last()) {
        lemma_left_of_places(some, all.drop_last())
    } else {
        let earlier = lemma_left_of_places(some.drop_last(), all.drop_last());
        earlier.push(all.len() - 1)
    }
}

} // verus!
