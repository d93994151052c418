//! What a running job tells, and how it is told to stop.
use crate::preset;
use crate::preset::Preset;
use std::sync::atomic::{AtomicBool, AtomicU32};
use std::sync::Arc;
use vstd::prelude::*;

verus! {

/// A share of the work, as a quotient.
#[derive(Clone, Copy, PartialEq, Eq, Structural, Debug)]
pub struct Fraction {
    pub numerator: u64,
    pub denominator: u64,
}

impl Fraction {
    /// The quotient lies between zero and one.
    pub open spec fn is_share(self) -> bool {
        0 < self.denominator && self.numerator <= self.denominator
    }

    /// The quotient is at most another one.
    pub open spec fn at_most(self, other: Fraction) -> bool {
        self.numerator * other.denominator <= other.numerator * self.denominator
    }
}

/// A message of a running job.
pub enum ProgressMsg {
    Progress(Fraction),
    UpdatePreview { width: u32, height: u32, data: Vec<u8> },
    UpdateAssignments(Vec<usize>),
    Done(Preset),
    Error(String),
    Cancelled,
}

/// What a message holds.
pub enum Message {
    Progress(Fraction),
    UpdatePreview { width: u32, height: u32, data: Seq<u8> },
    UpdateAssignments(Seq<usize>),
    Done(preset::PresetView),
    Error(Seq<char>),
    Cancelled,
}

impl View for ProgressMsg {
    type V = Message;

    open spec fn view(&self) -> Message {
        match self {
            ProgressMsg::Progress(share) => Message::Progress(*share),
            ProgressMsg::UpdatePreview { width, height, data } => Message::UpdatePreview {
                width: *width,
                height: *height,
                data: data@,
            },
            ProgressMsg::UpdateAssignments(assignments) => Message::UpdateAssignments(assignments@),
            ProgressMsg::Done(preset) => Message::Done(preset@),
            ProgressMsg::Error(words) => Message::Error(words@),
            ProgressMsg::Cancelled => Message::Cancelled,
        }
    }
}

impl ProgressMsg {
    /// The name of the kind of message.
    pub fn typ(&self) -> (name: &'static str)
        ensures
            match self {
                ProgressMsg::Progress(_) => name@ == "progress"@,
                ProgressMsg::UpdatePreview { .. } => name@ == "update_preview"@,
                ProgressMsg::UpdateAssignments(_) => name@ == "update_assignments"@,
                ProgressMsg::Done(_) => name@ == "done"@,
                ProgressMsg::Error(_) => name@ == "error"@,
                ProgressMsg::Cancelled => name@ == "cancelled"@,
            },
    {
        match self {
            ProgressMsg::Progress(_) => "progress",
            ProgressMsg::UpdatePreview { .. } => "update_preview",
            ProgressMsg::UpdateAssignments(_) => "update_assignments",
            ProgressMsg::Done(_) => "done",
            ProgressMsg::Error(_) => "error",
            ProgressMsg::Cancelled => "cancelled",
        }
    }
}

/// Where messages go.
pub trait ProgressSink: Sized {
    /// Whether handing over a message may lead from one state of the sink to another. A sink
    /// that tells nothing of its state allows everything.
    open spec fn takes(before: Self, message: Message, after: Self) -> bool {
        true
    }

    fn send(&mut self, msg: ProgressMsg)
        ensures
            Self::takes(*old(self), msg@, *final(self)),
    ;
}

/// Whether handing over messages one after the other may lead from one state of a sink to
/// another.
pub open spec fn delivered<S: ProgressSink>(before: S, messages: Seq<Message>, after: S) -> bool
    decreases messages.len(),
{
    if messages.len() == 0 {
        after == before
    } else {
        exists|between: S|
            delivered(before, messages.drop_last(), between) && #[trigger] S::takes(
                between,
                messages.last(),
                after,
            )
    }
}

/// A sink, and the messages that were handed to it.
pub struct Outbox<S: ProgressSink> {
    sink: S,
    first: Ghost<S>,
    sent: Ghost<Seq<Message>>,
}

impl<S: ProgressSink> Outbox<S> {
    /// Everything that was sent has reached the sink.
    pub closed spec fn wf(&self) -> bool {
        delivered(self.first@, self.sent@, self.sink)
    }

    /// The messages that were handed to the sink, in order.
    pub closed spec fn sent(&self) -> Seq<Message> {
        self.sent@
    }

    /// The sink before the first message.
    pub closed spec fn first(&self) -> S {
        self.first@
    }

    pub fn new(sink: S) -> (tx: Self)
        ensures
            tx.wf(),
            tx.first() == sink,
            tx.sent() == Seq::<Message>::empty(),
    {
        Outbox { sink, first: Ghost(sink), sent: Ghost(Seq::empty()) }
    }

    /// Hands a message to the sink.
    pub fn send(&mut self, msg: ProgressMsg)
        requires
            old(self).wf(),
        ensures
            final(self).wf(),
            final(self).first() == old(self).first(),
            final(self).sent() == old(self).sent().push(msg@),
    {
        let ghost before = self.sent@;
        let ghost held = self.sink;
        self.sink.send(msg);
        proof {
            self.sent@ = before.push(msg@);
            assert(self.sent@.drop_last() =~= before);
            assert(S::takes(held, self.sent@.last(), self.sink));
        }
    }

    /// The sink, with every message handed to it.
    pub fn into_sink(self) -> (sink: S)
        requires
            self.wf(),
        ensures
            delivered(self.first(), self.sent(), sink),
    {
        self.sink
    }
}

/// What was sent after `before` to reach `after`.
pub open spec fn news(before: Seq<Message>, after: Seq<Message>) -> Seq<Message> {
    after.skip(before.len() as int)
}

/// Sending only adds to what was sent before.
pub proof fn lemma_news(before: Seq<Message>, added: Seq<Message>)
    ensures
        news(before, before + added) == added,
{
    assert(news(before, before + added) =~= added);
}

/// A sink that keeps every message.
pub struct MessageLog {
    pub messages: Vec<ProgressMsg>,
}

impl MessageLog {
    /// What the messages of the log hold.
    pub open spec fn held(self) -> Seq<Message> {
        self.messages@.map_values(|msg: ProgressMsg| msg@)
    }

    pub fn new() -> (log: Self)
        ensures
            log.messages@ == Seq::<ProgressMsg>::empty(),
    {
        MessageLog { messages: Vec::new() }
    }
}

impl ProgressSink for MessageLog {
    open spec fn takes(before: Self, message: Message, after: Self) -> bool {
        after.held() == before.held().push(message)
    }

    fn send(&mut self, msg: ProgressMsg) {
        self.messages.push(msg);
        assert(self.held() =~= old(self).held().push(msg@));
    }
}

/// A log holds every message that was handed to it, in order.
pub proof fn logs_keep_every_message(before: MessageLog, messages: Seq<Message>, after: MessageLog)
    requires
        delivered(before, messages, after),
    ensures
        after.held() == before.held() + messages,
    decreases messages.len(),
{
    if messages.len() == 0 {
        assert(before.held() + messages =~= before.held());
    } else {
        let between = choose|between: MessageLog|
            delivered(before, messages.drop_last(), between) && #[trigger] MessageLog::takes(
                between,
                messages.last(),
                after,
            );
        logs_keep_every_message(before, messages.drop_last(), between);
        assert(before.held() + messages =~= (before.held() + messages.drop_last()).push(
            messages.last(),
        ));
    }
}

/// The share of the work that is done when a job starts: a thousandth.
pub open spec fn start_share() -> Fraction {
    Fraction { numerator: 1, denominator: 1000 }
}

/// Shares up to a bound, none smaller than one before it.
pub open spec fn rises(trace: Seq<Message>, to: Fraction) -> bool {
    &&& forall|i: int|
        0 <= i < trace.len() ==> (#[trigger] trace[i] matches Message::Progress(share)
            ==> share.is_share() && share.at_most(to))
    &&& forall|i: int, j: int|
        0 <= i < j < trace.len() ==> (#[trigger] trace[i] matches Message::Progress(earlier) ==> (
        #[trigger] trace[j] matches Message::Progress(later) ==> earlier.at_most(later)))
}

/// Every share that is told lies between nothing and everything, and none is smaller than one
/// before it.
pub open spec fn never_falls(trace: Seq<Message>) -> bool {
    rises(trace, Fraction { numerator: 1, denominator: 1 })
}

/// What is at most a share is at most every greater one.
pub proof fn lemma_at_most_transitive(a: Fraction, b: Fraction, c: Fraction)
    requires
        0 < b.denominator,
        a.at_most(b),
        b.at_most(c),
    ensures
        a.at_most(c),
{
    let (an, ad) = (a.numerator as int, a.denominator as int);
    let (bn, bd) = (b.numerator as int, b.denominator as int);
    let (cn, cd) = (c.numerator as int, c.denominator as int);
    assert(an * cd <= cn * ad) by (nonlinear_arith)
        requires
            0 < bd,
            0 <= ad,
            0 <= cd,
            an * bd <= bn * ad,
            bn * cd <= cn * bd,
    {
        assert((an * bd) * cd <= (bn * ad) * cd);
        assert((bn * cd) * ad <= (cn * bd) * ad);
        assert((an * cd) * bd <= (cn * ad) * bd);
    }
}

/// Of two shares with the same denominator, the one with the greater numerator is greater.
pub proof fn lemma_same_denominator(a: Fraction, b: Fraction)
    requires
        a.denominator == b.denominator,
        a.numerator <= b.numerator,
    ensures
        a.at_most(b),
{
    assert(a.numerator * b.denominator <= b.numerator * a.denominator) by (nonlinear_arith)
        requires
            a.denominator == b.denominator,
            a.numerator <= b.numerator,
    ;
}

/// One more share, no smaller than the bound so far.
pub proof fn lemma_rises_push(trace: Seq<Message>, to: Fraction, share: Fraction)
    requires
        rises(trace, to),
        0 < to.denominator,
        share.is_share(),
        to.at_most(share),
    ensures
        rises(trace.push(Message::Progress(share)), share),
{
    let longer = trace.push(Message::Progress(share));
    assert forall|i: int| 0 <= i < longer.len() implies (#[trigger] longer[i] matches Message::Progress(
        told,
    ) ==> told.is_share() && told.at_most(share)) by {
        if i < trace.len() {
            assert(longer[i] == trace[i]);
            if longer[i] is Progress {
                lemma_at_most_transitive(longer[i]->Progress_0, to, share);
            }
        }
    }
    assert forall|i: int, j: int| 0 <= i < j < longer.len() implies (
    #[trigger] longer[i] matches Message::Progress(earlier) ==> (
    #[trigger] longer[j] matches Message::Progress(later) ==> earlier.at_most(later))) by {
        assert(longer[i] == trace[i]);
        if j < trace.len() {
            assert(longer[j] == trace[j]);
        }
    }
}

/// One more message that tells no share.
pub proof fn lemma_rises_push_other(trace: Seq<Message>, to: Fraction, message: Message)
    requires
        rises(trace, to),
        message !is Progress,
    ensures
        rises(trace.push(message), to),
{
    let longer = trace.push(message);
    assert forall|i: int| 0 <= i < longer.len() && longer[i] is Progress implies i < trace.len()
        && #[trigger] longer[i] == trace[i] by {}
}

/// No share is more than everything.
pub proof fn lemma_never_falls(trace: Seq<Message>, to: Fraction)
    requires
        rises(trace, to),
        to.is_share(),
    ensures
        never_falls(trace),
{
    let one = Fraction { numerator: 1, denominator: 1 };
    assert(to.numerator * one.denominator <= one.numerator * to.denominator);
    lemma_rises_within(trace, to, one);
}

/// A wider upper bound.
pub proof fn lemma_rises_within(trace: Seq<Message>, to: Fraction, wider: Fraction)
    requires
        rises(trace, to),
        0 < to.denominator,
        to.at_most(wider),
    ensures
        rises(trace, wider),
{
    assert forall|i: int| 0 <= i < trace.len() implies (#[trigger] trace[i] matches Message::Progress(
        told,
    ) ==> told.at_most(wider)) by {
        if trace[i] is Progress {
            lemma_at_most_transitive(trace[i]->Progress_0, to, wider);
        }
    }
}

/// Whether a message is told on the way: a share of the work, or a picture.
pub open spec fn on_the_way(message: Message) -> bool {
    message is Progress || message is UpdatePreview
}

/// Whether all messages are told on the way.
pub open spec fn all_on_the_way(trace: Seq<Message>) -> bool {
    forall|i: int| 0 <= i < trace.len() ==> on_the_way(#[trigger] trace[i])
}

/// Whether the last message, and no other, tells that a job has ended: with a result, or
/// because it was stopped.
pub open spec fn ends_once(trace: Seq<Message>) -> bool {
    &&& trace.len() > 0
    &&& all_on_the_way(trace.drop_last())
    &&& trace.last() is Done || trace.last() is Cancelled
}

/// Messages on the way, and then one that tells of the end.
pub proof fn lemma_ends_once(
    first: Message,
    told: Seq<Message>,
    more: Seq<Message>,
    last: Message,
)
    requires
        on_the_way(first),
        all_on_the_way(told),
        all_on_the_way(more),
        last is Done || last is Cancelled,
    ensures
        ends_once((seq![first] + told + more).push(last)),
{
    let before = seq![first] + told + more;
    assert(before.push(last).drop_last() =~= before);
    assert forall|i: int| 0 <= i < before.len() implies on_the_way(#[trigger] before[i]) by {
        if i > told.len() {
            assert(before[i] == more[i - 1 - told.len()]);
        } else if i > 0 {
            assert(before[i] == told[i - 1]);
        }
    }
}

/// Whether a relaxed load of a flag gave a value. Another thread may set the flag at any time, so
/// that nothing else is known of it.
pub open spec fn gave_flag(flag: AtomicBool, set: bool) -> bool {
    call_ensures(AtomicBool::load, (&flag, std::sync::atomic::Ordering::Relaxed), set)
}

/// Whether a relaxed load of a cell gave a number. Another thread may change it at any time.
pub open spec fn gave_number(cell: AtomicU32, number: u32) -> bool {
    call_ensures(AtomicU32::load, (&cell, std::sync::atomic::Ordering::Relaxed), number)
}

/// Reads a stop flag once.
pub fn is_cancelled(cancel: &AtomicBool) -> (set: bool)
    ensures
        gave_flag(*cancel, set),
{
    cancel.load(std::sync::atomic::Ordering::Relaxed)
}

/// Whether each of these values was read from a flag.
pub open spec fn all_read_from(flag: AtomicBool, seen: Seq<bool>) -> bool {
    forall|i: int| 0 <= i < seen.len() ==> gave_flag(flag, #[trigger] seen[i])
}

/// A stop flag that a job looks at, and what it saw there.
pub struct Cancellation {
    flag: Arc<AtomicBool>,
    seen: Ghost<Seq<bool>>,
}

impl Cancellation {
    /// The flag.
    pub closed spec fn flag(&self) -> AtomicBool {
        *self.flag
    }

    /// What was read from the flag so far.
    pub closed spec fn seen(&self) -> Seq<bool> {
        self.seen@
    }

    /// Everything that was seen was read from the flag.
    pub open spec fn wf(&self) -> bool {
        all_read_from(self.flag(), self.seen())
    }

    pub fn new(flag: Arc<AtomicBool>) -> (cancel: Self)
        ensures
            cancel.wf(),
            cancel.flag() == *flag,
            cancel.seen() == Seq::<bool>::empty(),
    {
        Cancellation { flag, seen: Ghost(Seq::empty()) }
    }

    /// Reads the flag.
    pub fn poll(&mut self) -> (stop: bool)
        requires
            old(self).wf(),
        ensures
            final(self).wf(),
            final(self).flag() == old(self).flag(),
            gave_flag(old(self).flag(), stop),
            final(self).seen() == old(self).seen().push(stop),
    {
        let stop: bool = is_cancelled(&self.flag);
        proof {
            self.seen@ = self.seen@.push(stop);
        }
        stop
    }
}

/// Whether each answer says if a number that was read from a cell differs from `own`.
pub open spec fn all_compared_with(cell: AtomicU32, own: u32, seen: Seq<bool>) -> bool {
    forall|i: int| 0 <= i < seen.len() ==> differed(cell, own, #[trigger] seen[i])
}

/// Whether `superseded` says if some number that was read from a cell differs from `own`.
pub open spec fn differed(cell: AtomicU32, own: u32, superseded: bool) -> bool {
    exists|current: u32| #[trigger] gave_number(cell, current) && superseded == (own != current)
}

/// The number of the drawing that is being worked on, which a job compares with its own, and
/// what it saw.
pub struct Watch {
    own: u32,
    current: Arc<AtomicU32>,
    seen: Ghost<Seq<bool>>,
}

impl Watch {
    /// The number of the drawing that the job belongs to.
    pub closed spec fn own(&self) -> u32 {
        self.own
    }

    /// Where the number of the drawing stands that is being worked on.
    pub closed spec fn cell(&self) -> AtomicU32 {
        *self.current
    }

    /// Whether another drawing was found each time that the job looked.
    pub closed spec fn seen(&self) -> Seq<bool> {
        self.seen@
    }

    /// Everything that was seen came from comparing a number that was read.
    pub open spec fn wf(&self) -> bool {
        all_compared_with(self.cell(), self.own(), self.seen())
    }

    pub fn new(own: u32, current: Arc<AtomicU32>) -> (watch: Self)
        ensures
            watch.wf(),
            watch.own() == own,
            watch.cell() == *current,
            watch.seen() == Seq::<bool>::empty(),
    {
        Watch { own, current, seen: Ghost(Seq::empty()) }
    }

    /// The number of the drawing that the job belongs to.
    pub fn drawing_id(&self) -> (id: u32)
        ensures
            id == self.own(),
    {
        self.own
    }

    /// Whether another drawing is being worked on, if this is the number of the current one.
    pub fn is_superseded_by(&self, current: u32) -> (superseded: bool)
        ensures
            superseded == (self.own() != current),
    {
        self.own != current
    }

    /// Looks whether another drawing is being worked on.
    pub fn poll(&mut self) -> (superseded: bool)
        requires
            old(self).wf(),
        ensures
            final(self).wf(),
            final(self).own() == old(self).own(),
            final(self).cell() == old(self).cell(),
            differed(old(self).cell(), old(self).own(), superseded),
            final(self).seen() == old(self).seen().push(superseded),
    {
        let current: u32 = self.current.load(std::sync::atomic::Ordering::Relaxed);
        let superseded: bool = self.is_superseded_by(current);
        proof {
            assert(gave_number(self.cell(), current));
            self.seen@ = self.seen@.push(superseded);
        }
        superseded
    }
}

/// Nothing that was read told the job to stop.
pub open spec fn undisturbed(seen: Seq<bool>) -> bool {
    forall|i: int| 0 <= i < seen.len() ==> !#[trigger] seen[i]
}

/// The last thing that was read, and nothing before, told the job to stop.
pub open spec fn stopped_at_last(seen: Seq<bool>) -> bool {
    &&& seen.len() > 0
    &&& seen.last()
    &&& undisturbed(seen.drop_last())
}

/// A flag that tells a job to stop after it never did.
pub proof fn lemma_stopped(seen: Seq<bool>)
    requires
        seen.len() > 0,
        seen.last(),
        undisturbed(seen.drop_last()),
    ensures
        stopped_at_last(seen),
{
}

/// What is told between the first and the last message, in two parts.
pub(crate) proof fn lemma_told_in_parts(
    trace: Seq<Message>,
    first: Message,
    told: Seq<Message>,
    more: Seq<Message>,
)
    requires
        trace.len() >= 2,
        trace[0] == first,
        trace.subrange(1, trace.len() - 1) == told + more,
    ensures
        trace.drop_last() == seq![first] + told + more,
{
    let middle = trace.subrange(1, trace.len() - 1);
    assert(trace.drop_last() =~= seq![first] + middle);
    assert(seq![first] + (told + more) =~= seq![first] + told + more);
}

} // verus!
