use crate::channel::Channel;
use crate::document::{merged, session_name, Json};
use crate::event::{
    all_well_formed, event_views, prepared_views, EventView, LiveEvent, Message, MessageView,
    Prepared, PreparedView,
};
use crate::mirror::Mirror;
use crate::vectors::reversed;
use vstd::prelude::*;

verus! {

/// What the fence decides of a partial document that is about to be merged.
pub enum Fence {
    /// The partial belongs to the mirrored session, or names no session.
    Admit,
    /// The partial names another session than the mirror.
    Rollover,
    /// The partial names a session and the mirror names none.
    Violation,
}

/// The fence: a partial that carries a session name is held against the
/// mirror's.
pub open spec fn fence(mirror: Json, partial: Json) -> Fence {
    match session_name(partial) {
        None => Fence::Admit,
        Some(incoming) => match session_name(mirror) {
            None => Fence::Violation,
            Some(current) => if current == incoming {
                Fence::Admit
            } else {
                Fence::Rollover
            },
        },
    }
}

/// The documents of the items, in order.
pub open spec fn documents(items: Seq<PreparedView>) -> Seq<Json> {
    items.map_values(|item: PreparedView| item.document)
}

/// The sequential merge-patch application of `partials` onto `mirror`, in
/// order.
pub open spec fn applied(mirror: Json, partials: Seq<Json>) -> Json
    decreases partials.len(),
{
    if partials.len() == 0 {
        mirror
    } else {
        merged(applied(mirror, partials.drop_last()), partials.last())
    }
}

/// Where a batch stops, given that `mirror` is the state reached after the
/// first `start` partials: the position of the first partial from there on
/// that the fence does not admit, or the length of the batch.
pub open spec fn stop_from(mirror: Json, partials: Seq<Json>, start: int) -> int
    decreases partials.len() - start,
{
    if start < 0 || start >= partials.len() {
        partials.len() as int
    } else if fence(mirror, partials[start]) is Admit {
        stop_from(merged(mirror, partials[start]), partials, start + 1)
    } else {
        start
    }
}

/// The number of partials at the head of the batch that are merged: the
/// batch stops at the first one that the fence does not admit.
pub open spec fn admitted(mirror: Json, partials: Seq<Json>) -> int {
    stop_from(mirror, partials, 0)
}

/// The `Update` events of a run of items, in order: one for each item that
/// has a payload.
pub open spec fn update_events(items: Seq<PreparedView>) -> Seq<EventView>
    decreases items.len(),
{
    if items.len() == 0 {
        Seq::empty()
    } else {
        match items.last().payload {
            Some(bytes) => update_events(items.drop_last()).push(EventView::Update(bytes)),
            None => update_events(items.drop_last()),
        }
    }
}

/// Why the processing of a connection ended.
#[derive(Clone, Debug, PartialEq, Eq)]
pub enum Termination {
    /// The message sequence came to its end.
    StreamEnded,
    /// A partial named another session than the mirror. This is a controlled
    /// exit, not an error.
    Rollover { from: String, to: String },
    /// A partial named a session while the mirror named none.
    MissingSessionName,
    /// A batch of updates arrived before any snapshot on this connection.
    UpdatesBeforeInitial,
}

/// The mathematical value of a [`Termination`].
pub enum Cause {
    StreamEnded,
    Rollover { from: Seq<char>, to: Seq<char> },
    MissingSessionName,
    UpdatesBeforeInitial,
}

impl View for Termination {
    type V = Cause;

    open spec fn view(&self) -> Cause {
        match self {
            Termination::StreamEnded => Cause::StreamEnded,
            Termination::Rollover { from, to } => Cause::Rollover { from: from@, to: to@ },
            Termination::MissingSessionName => Cause::MissingSessionName,
            Termination::UpdatesBeforeInitial => Cause::UpdatesBeforeInitial,
        }
    }
}

/// Where the processor of one connection stands between two messages.
pub enum Stage {
    /// No snapshot has arrived on this connection yet.
    AwaitingInitial,
    /// A snapshot has arrived; snapshots and batches are taken.
    AwaitingMessage,
    /// Processing has ended; nothing more is taken.
    Terminated(Cause),
}

/// What a message, or a run of messages, leaves behind.
pub struct Outcome {
    pub stage: Stage,
    pub mirror: Json,
    pub events: Seq<EventView>,
}

/// Why the batch `partials` stops short on `mirror`; `None` where every
/// partial is merged.
pub open spec fn batch_cause(mirror: Json, partials: Seq<Json>) -> Option<Cause> {
    let count = admitted(mirror, partials);
    if count >= partials.len() {
        None
    } else {
        match (session_name(applied(mirror, partials.take(count))), session_name(partials[count])) {
            (Some(from), Some(to)) => Some(Cause::Rollover { from, to }),
            _ => Some(Cause::MissingSessionName),
        }
    }
}

/// What a snapshot leaves behind: it takes the place of the mirror, and is
/// published where it has a payload.
pub open spec fn after_initial(item: PreparedView) -> Outcome {
    Outcome {
        stage: Stage::AwaitingMessage,
        mirror: item.document,
        events: match item.payload {
            Some(bytes) => seq![EventView::Initial(bytes)],
            None => Seq::empty(),
        },
    }
}

/// What a batch of updates leaves behind on a connection that has had its
/// snapshot: the admitted partials are merged in order, and each of them that
/// has a payload is published.
pub open spec fn after_updates(mirror: Json, items: Seq<PreparedView>) -> Outcome {
    let count = admitted(mirror, documents(items));
    Outcome {
        stage: match batch_cause(mirror, documents(items)) {
            Some(cause) => Stage::Terminated(cause),
            None => Stage::AwaitingMessage,
        },
        mirror: applied(mirror, documents(items).take(count)),
        events: update_events(items.take(count)),
    }
}

/// What one message leaves behind.
pub open spec fn after_message(stage: Stage, mirror: Json, message: MessageView) -> Outcome {
    match stage {
        Stage::Terminated(_) => Outcome { stage, mirror, events: Seq::empty() },
        _ => match message {
            MessageView::Initial(item) => after_initial(item),
            MessageView::Updates(items) => match stage {
                Stage::AwaitingInitial => Outcome {
                    stage: Stage::Terminated(Cause::UpdatesBeforeInitial),
                    mirror,
                    events: Seq::empty(),
                },
                _ => after_updates(mirror, items),
            },
        },
    }
}

/// What a run of messages leaves behind, taken in order.
pub open spec fn after_messages(stage: Stage, mirror: Json, messages: Seq<MessageView>) -> Outcome
    decreases messages.len(),
{
    if messages.len() == 0 {
        Outcome { stage, mirror, events: Seq::empty() }
    } else {
        let before = after_messages(stage, mirror, messages.drop_last());
        let last = after_message(before.stage, before.mirror, messages.last());
        Outcome { stage: last.stage, mirror: last.mirror, events: before.events + last.events }
    }
}

/// The values of a list of messages, in order.
pub open spec fn message_views(messages: Seq<Message>) -> Seq<MessageView> {
    messages.map_values(|message: Message| message@)
}

/// Why a connection ended, given the stage that its processor reached: a
/// processor that has not terminated by itself ends with the stream.
pub open spec fn ending(stage: Stage) -> Cause {
    match stage {
        Stage::Terminated(cause) => cause,
        _ => Cause::StreamEnded,
    }
}

/// The stage of a processor, as it is held in memory.
#[derive(Clone, Debug, PartialEq, Eq)]
pub enum ProcessorState {
    AwaitingInitial,
    AwaitingMessage,
    Terminated(Termination),
}

impl View for ProcessorState {
    type V = Stage;

    open spec fn view(&self) -> Stage {
        match self {
            ProcessorState::AwaitingInitial => Stage::AwaitingInitial,
            ProcessorState::AwaitingMessage => Stage::AwaitingMessage,
            ProcessorState::Terminated(termination) => Stage::Terminated(termination@),
        }
    }
}

/// What the processor did with one message.
#[derive(Debug)]
pub struct Report {
    /// The events that were handed to the channel, in order.
    pub events: Vec<LiveEvent>,
    /// For each event, the number of subscribers that the channel held when
    /// it was published; `None` where it held none.
    pub receivers: Vec<Option<usize>>,
}

/// What the processor did with a whole connection.
#[derive(Debug)]
pub struct StreamReport {
    /// Why processing ended.
    pub termination: Termination,
    /// The events that were handed to the channel, in order.
    pub events: Vec<LiveEvent>,
    /// For each event, the number of subscribers that the channel held when
    /// it was published; `None` where it held none.
    pub receivers: Vec<Option<usize>>,
}

/// Merges the batch `items` into the mirror, up to the first partial that the
/// fence does not admit. Each admitted partial that has a payload becomes an
/// event, which is offered to the channel, where one is given, before the
/// partial is merged. Returns the events with what the channel said of each,
/// and, where the batch stopped short, the reason.
fn process_updates(mirror: &mut Mirror, items: Vec<Prepared>, channel: Option<&Channel>) -> (r: (
    Report,
    Option<Termination>,
))
    requires
        all_well_formed(items@),
    ensures
        final(mirror)@ == after_updates(old(mirror)@, prepared_views(items@)).mirror,
        event_views(r.0.events@) == after_updates(old(mirror)@, prepared_views(items@)).events,
        after_updates(old(mirror)@, prepared_views(items@)).stage == match r.1 {
            Some(termination) => Stage::Terminated(termination@),
            None => Stage::AwaitingMessage,
        },
        r.0.receivers@.len() == if channel is Some {
            r.0.events@.len()
        } else {
            0
        },
{
    let ghost given = items@;
    let ghost views = prepared_views(given);
    let ghost docs = documents(views);
    let ghost start = mirror@;
    let total = items.len();
    let mut stack = reversed(items);
    let mut events: Vec<LiveEvent> = Vec::new();
    let mut receivers: Vec<Option<usize>> = Vec::new();
    let mut done: usize = 0;
    while done < total
        invariant
            given == items@,
            start == old(mirror)@,
            total == given.len(),
            views == prepared_views(given),
            docs == documents(views),
            all_well_formed(given),
            done <= total,
            stack@ == given.reverse().take(total - done),
            stop_from(mirror@, docs, done as int) == admitted(start, docs),
            mirror@ == applied(start, docs.take(done as int)),
            event_views(events@) == update_events(views.take(done as int)),
            receivers@.len() == if channel is Some {
                events@.len()
            } else {
                0
            },
        decreases total - done,
    {
        let item = stack.pop().unwrap();
        let Prepared { document, payload } = item;
        match document.session_name() {
            Some(incoming) => match mirror.current_session_name() {
                None => {
                    return (Report { events, receivers }, Some(Termination::MissingSessionName));
                },
                Some(current) => {
                    if !(*current == *incoming) {
                        let termination = Termination::Rollover {
                            from: current.clone(),
                            to: incoming.clone(),
                        };
                        return (Report { events, receivers }, Some(termination));
                    }
                },
            },
            None => {},
        }
        match payload {
            Some(bytes) => {
                let event = LiveEvent::Update(bytes);
                match channel {
                    Some(channel) => receivers.push(channel.publish(&event)),
                    None => {},
                }
                events.push(event);
            },
            None => {},
        }
        mirror.merge(document);
        assert(docs.take(done + 1).drop_last() =~= docs.take(done as int));
        assert(views.take(done + 1).drop_last() =~= views.take(done as int));
        done += 1;
    }
    (Report { events, receivers }, None)
}

/// The protocol state machine of one upstream connection.
///
/// A connection starts with a snapshot. Until it has arrived no batch of
/// updates is taken; once the processor has terminated nothing is.
pub struct StreamProcessor {
    state: ProcessorState,
}

impl View for StreamProcessor {
    type V = Stage;

    closed spec fn view(&self) -> Stage {
        self.state@
    }
}

impl StreamProcessor {
    /// The processor of a fresh connection.
    pub fn new() -> (processor: StreamProcessor)
        ensures
            processor@ == Stage::AwaitingInitial,
    {
        StreamProcessor { state: ProcessorState::AwaitingInitial }
    }

    /// Where the processor stands.
    pub fn state(&self) -> (state: &ProcessorState)
        ensures
            state@ == self@,
    {
        &self.state
    }

    /// Whether processing has ended.
    pub fn is_terminated(&self) -> (r: bool)
        ensures
            r == (self@ is Terminated),
    {
        match self.state {
            ProcessorState::Terminated(_) => true,
            _ => false,
        }
    }

    /// Takes one message: updates the mirror and the stage, and offers the
    /// resulting events to the channel, where one is given.
    fn process(&mut self, mirror: &mut Mirror, message: Message, channel: Option<&Channel>) -> (report:
        Report)
        requires
            message.wf(),
        ensures
            final(self)@ == after_message(old(self)@, old(mirror)@, message@).stage,
            final(mirror)@ == after_message(old(self)@, old(mirror)@, message@).mirror,
            event_views(report.events@) == after_message(
                old(self)@,
                old(mirror)@,
                message@,
            ).events,
            report.receivers@.len() == if channel is Some {
                report.events@.len()
            } else {
                0
            },
    {
        let mut events: Vec<LiveEvent> = Vec::new();
        let mut receivers: Vec<Option<usize>> = Vec::new();
        if self.is_terminated() {
            return Report { events, receivers };
        }
        match message {
            Message::Initial(item) => {
                let Prepared { document, payload } = item;
                mirror.replace(document);
                self.state = ProcessorState::AwaitingMessage;
                match payload {
                    Some(bytes) => {
                        let event = LiveEvent::Initial(bytes);
                        match channel {
                            Some(channel) => receivers.push(channel.publish(&event)),
                            None => {},
                        }
                        events.push(event);
                    },
                    None => {},
                }
                Report { events, receivers }
            },
            Message::Updates(items) => {
                match self.state {
                    ProcessorState::AwaitingInitial => {
                        self.state = ProcessorState::Terminated(Termination::UpdatesBeforeInitial);
                        return Report { events, receivers };
                    },
                    _ => {},
                }
                let (report, stopped) = process_updates(mirror, items, channel);
                match stopped {
                    Some(termination) => {
                        self.state = ProcessorState::Terminated(termination);
                    },
                    None => {},
                }
                report
            },
        }
    }

    /// Takes one message without publishing anything: updates the mirror and
    /// the stage, and returns the events that the message gives rise to, in
    /// order.
    ///
    /// A snapshot replaces the mirror. A batch is merged partial by partial
    /// until the fence stops it; whether an item has a payload decides only
    /// whether it gives rise to an event, never whether it is merged.
    pub fn apply(&mut self, mirror: &mut Mirror, message: Message) -> (events: Vec<LiveEvent>)
        requires
            message.wf(),
        ensures
            final(self)@ == after_message(old(self)@, old(mirror)@, message@).stage,
            final(mirror)@ == after_message(old(self)@, old(mirror)@, message@).mirror,
            event_views(events@) == after_message(old(self)@, old(mirror)@, message@).events,
    {
        self.process(mirror, message, None).events
    }

    /// Takes one message as [`StreamProcessor::apply`] does, and offers each
    /// event to the channel as it arises: a snapshot's once the mirror is
    /// replaced, a partial's before the partial is merged.
    ///
    /// The report lists the events and, for each, what the channel said of
    /// it. No subscriber is no error, and nothing is offered twice.
    pub fn handle(&mut self, mirror: &mut Mirror, channel: &Channel, message: Message) -> (report:
        Report)
        requires
            message.wf(),
        ensures
            final(self)@ == after_message(old(self)@, old(mirror)@, message@).stage,
            final(mirror)@ == after_message(old(self)@, old(mirror)@, message@).mirror,
            event_views(report.events@) == after_message(
                old(self)@,
                old(mirror)@,
                message@,
            ).events,
            report.receivers@.len() == report.events@.len(),
    {
        self.process(mirror, message, Some(channel))
    }
}

impl StreamProcessor {
    /// Why the connection ended, once no more messages are to come.
    pub fn finish(self) -> (termination: Termination)
        ensures
            termination@ == ending(self@),
    {
        match self.state {
            ProcessorState::Terminated(termination) => termination,
            _ => Termination::StreamEnded,
        }
    }
}

/// A processor that has terminated takes nothing more: whatever messages
/// follow, the stage and the mirror stay as they are and nothing is
/// published.
pub proof fn lemma_terminated_is_final(stage: Stage, mirror: Json, messages: Seq<MessageView>)
    requires
        stage is Terminated,
    ensures
        after_messages(stage, mirror, messages).stage == stage,
        after_messages(stage, mirror, messages).mirror == mirror,
        after_messages(stage, mirror, messages).events == Seq::<EventView>::empty(),
    decreases messages.len(),
{
    if messages.len() > 0 {
        lemma_terminated_is_final(stage, mirror, messages.drop_last());
    }
}

/// Once the first `count` messages have terminated the processor, the
/// messages after them change nothing.
pub proof fn lemma_rest_is_ignored(
    stage: Stage,
    mirror: Json,
    messages: Seq<MessageView>,
    count: int,
)
    requires
        0 <= count <= messages.len(),
        after_messages(stage, mirror, messages.take(count)).stage is Terminated,
    ensures
        after_messages(stage, mirror, messages).stage == after_messages(
            stage,
            mirror,
            messages.take(count),
        ).stage,
        after_messages(stage, mirror, messages).mirror == after_messages(
            stage,
            mirror,
            messages.take(count),
        ).mirror,
        after_messages(stage, mirror, messages).events == after_messages(
            stage,
            mirror,
            messages.take(count),
        ).events,
    decreases messages.len(),
{
    if count == messages.len() {
        assert(messages.take(count) =~= messages);
    } else {
        assert(messages.drop_last().take(count) =~= messages.take(count));
        lemma_rest_is_ignored(stage, mirror, messages.drop_last(), count);
    }
}

/// Processes the messages of one connection, in order, against the mirror,
/// and publishes what results to the channel.
///
/// Processing ends with the first message that terminates the processor:
/// that message's remaining partials and all later messages are left
/// untouched. The caller holds the mirror exclusively for as long as the call
/// lasts.
pub fn handle_stream(messages: Vec<Message>, channel: &Channel, mirror: &mut Mirror) -> (report:
    StreamReport)
    requires
        forall|i: int| 0 <= i < messages@.len() ==> (#[trigger] messages@[i]).wf(),
    ensures
        final(mirror)@ == after_messages(
            Stage::AwaitingInitial,
            old(mirror)@,
            message_views(messages@),
        ).mirror,
        event_views(report.events@) == after_messages(
            Stage::AwaitingInitial,
            old(mirror)@,
            message_views(messages@),
        ).events,
        report.termination@ == ending(
            after_messages(Stage::AwaitingInitial, old(mirror)@, message_views(messages@)).stage,
        ),
        report.receivers@.len() == report.events@.len(),
{
    let ghost given = messages@;
    let ghost views = message_views(given);
    let ghost start = mirror@;
    let total = messages.len();
    let mut stack = reversed(messages);
    let mut processor = StreamProcessor::new();
    let mut events: Vec<LiveEvent> = Vec::new();
    let mut receivers: Vec<Option<usize>> = Vec::new();
    let mut done: usize = 0;
    while done < total && !processor.is_terminated()
        invariant
            given == messages@,
            start == old(mirror)@,
            views == message_views(given),
            total == given.len(),
            done <= total,
            forall|i: int| 0 <= i < given.len() ==> (#[trigger] given[i]).wf(),
            stack@ == given.reverse().take(total - done),
            processor@ == after_messages(Stage::AwaitingInitial, start, views.take(done as int)).stage,
            mirror@ == after_messages(Stage::AwaitingInitial, start, views.take(done as int)).mirror,
            event_views(events@) == after_messages(
                Stage::AwaitingInitial,
                start,
                views.take(done as int),
            ).events,
            receivers@.len() == events@.len(),
        decreases total - done,
    {
        let message = stack.pop().unwrap();
        assert(views.take(done + 1).drop_last() =~= views.take(done as int));
        let mut step = processor.handle(mirror, channel, message);
        events.append(&mut step.events);
        receivers.append(&mut step.receivers);
        done += 1;
    }
    proof {
        if done < total {
            lemma_rest_is_ignored(Stage::AwaitingInitial, start, views, done as int);
        } else {
            assert(views.take(done as int) =~= views);
        }
    }
    StreamReport { termination: processor.finish(), events, receivers }
}

/// A patch that carries a session name hands it on: whatever it is merged
/// into, the result carries the name of the patch.
pub proof fn lemma_merge_carries_session_name(base: Json, patch: Json)
    requires
        session_name(patch) is Some,
    ensures
        session_name(merged(base, patch)) == session_name(patch),
{
    let section = "sessionInfo"@;
    let field = "name"@;
    let patch_info = patch->Object_0[section];
    if base is Object {
        let result = merged(base, patch)->Object_0;
        assert(result.dom().contains(section));
        if base->Object_0.dom().contains(section) {
            let base_info = base->Object_0[section];
            assert(result[section] == merged(base_info, patch_info));
            if base_info is Object {
                let info = merged(base_info, patch_info)->Object_0;
                let name = patch_info->Object_0[field];
                assert(info.dom().contains(field));
                if base_info->Object_0.dom().contains(field) {
                    assert(merged(base_info->Object_0[field], name) == name);
                }
                assert(info[field] == name);
            }
        } else {
            assert(result[section] == patch_info);
        }
    }
}

/// `stop_from` finds the first partial from `start` on that the fence does
/// not admit, each partial being held against the state that the partials
/// before it have left.
proof fn lemma_stop_from(mirror: Json, partials: Seq<Json>, start: int)
    requires
        0 <= start <= partials.len(),
    ensures
        start <= stop_from(applied(mirror, partials.take(start)), partials, start)
            <= partials.len(),
        forall|i: int|
            start <= i < stop_from(applied(mirror, partials.take(start)), partials, start)
                ==> #[trigger] fence(applied(mirror, partials.take(i)), partials[i]) is Admit,
        stop_from(applied(mirror, partials.take(start)), partials, start) < partials.len()
            ==> !(fence(
            applied(
                mirror,
                partials.take(stop_from(applied(mirror, partials.take(start)), partials, start)),
            ),
            partials[stop_from(applied(mirror, partials.take(start)), partials, start)],
        ) is Admit),
    decreases partials.len() - start,
{
    let current = applied(mirror, partials.take(start));
    if start < partials.len() && fence(current, partials[start]) is Admit {
        assert(partials.take(start + 1).drop_last() =~= partials.take(start));
        assert(applied(mirror, partials.take(start + 1)) == merged(current, partials[start]));
        lemma_stop_from(mirror, partials, start + 1);
    }
}

/// The partials that a batch merges are exactly those before the first one
/// that the fence does not admit, where each partial is held against the
/// mirror as the partials before it have left it.
pub proof fn lemma_admitted_until_first_rejected(mirror: Json, partials: Seq<Json>)
    ensures
        0 <= admitted(mirror, partials) <= partials.len(),
        forall|i: int|
            0 <= i < admitted(mirror, partials) ==> #[trigger] fence(
                applied(mirror, partials.take(i)),
                partials[i],
            ) is Admit,
        admitted(mirror, partials) < partials.len() ==> !(fence(
            applied(mirror, partials.take(admitted(mirror, partials))),
            partials[admitted(mirror, partials)],
        ) is Admit),
{
    assert(partials.take(0) =~= Seq::<Json>::empty());
    lemma_stop_from(mirror, partials, 0);
}

/// For a connection that receives a snapshot and then a batch whose partials
/// all carry the snapshot's session name, the mirror ends up as the
/// sequential merge of the partials onto the snapshot, in arrival order, and
/// the processor goes on.
pub proof fn lemma_updates_of_one_session(
    stage: Stage,
    mirror: Json,
    snapshot: PreparedView,
    items: Seq<PreparedView>,
    name: Seq<char>,
)
    requires
        !(stage is Terminated),
        session_name(snapshot.document) == Some(name),
        forall|i: int|
            0 <= i < items.len() ==> session_name(#[trigger] items[i].document) == Some(name),
    ensures
        after_messages(
            stage,
            mirror,
            seq![MessageView::Initial(snapshot), MessageView::Updates(items)],
        ).mirror == applied(snapshot.document, documents(items)),
        after_messages(
            stage,
            mirror,
            seq![MessageView::Initial(snapshot), MessageView::Updates(items)],
        ).stage == Stage::AwaitingMessage,
        after_messages(
            stage,
            mirror,
            seq![MessageView::Initial(snapshot), MessageView::Updates(items)],
        ).events == after_initial(snapshot).events + update_events(items),
{
    let both = seq![MessageView::Initial(snapshot), MessageView::Updates(items)];
    let first = seq![MessageView::Initial(snapshot)];
    assert(both.drop_last() =~= first);
    assert(first.drop_last() =~= Seq::<MessageView>::empty());
    assert(after_messages(stage, mirror, first.drop_last()).stage == stage);
    assert(after_messages(stage, mirror, first).mirror == snapshot.document);
    let partials = documents(items);
    lemma_admitted_until_first_rejected(snapshot.document, partials);
    let count = admitted(snapshot.document, partials);
    lemma_session_name_persists(snapshot.document, partials, count, name);
    if count < partials.len() {
        assert(session_name(partials[count]) == Some(name));
    }
    assert(partials.take(count) =~= partials);
    assert(items.take(count) =~= items);
    assert(after_messages(stage, mirror, both).events =~= after_initial(snapshot).events
        + update_events(items));
}

/// While every partial carries the name of the mirror, the mirror keeps it.
proof fn lemma_session_name_persists(mirror: Json, partials: Seq<Json>, count: int, name: Seq<char>)
    requires
        0 <= count <= partials.len(),
        session_name(mirror) == Some(name),
        forall|i: int| 0 <= i < partials.len() ==> session_name(#[trigger] partials[i]) == Some(name),
    ensures
        session_name(applied(mirror, partials.take(count))) == Some(name),
    decreases count,
{
    if count == 0 {
        assert(partials.take(0) =~= Seq::<Json>::empty());
    } else {
        lemma_session_name_persists(mirror, partials, count - 1, name);
        assert(partials.take(count).drop_last() =~= partials.take(count - 1));
        lemma_merge_carries_session_name(
            applied(mirror, partials.take(count - 1)),
            partials[count - 1],
        );
    }
}

/// Where the partial at `position` is the first of a batch that names
/// another session than the mirror holds by then, the partials before it are
/// merged in order, that partial and all after it are not, their events are
/// not published, and the processor terminates with a rollover from the
/// mirror's session to the partial's.
pub proof fn lemma_rollover_stops_batch(mirror: Json, items: Seq<PreparedView>, position: int)
    requires
        0 <= position < items.len(),
        forall|i: int|
            0 <= i < position ==> #[trigger] fence(
                applied(mirror, documents(items).take(i)),
                documents(items)[i],
            ) is Admit,
        fence(
            applied(mirror, documents(items).take(position)),
            documents(items)[position],
        ) is Rollover,
    ensures
        after_updates(mirror, items).mirror == applied(mirror, documents(items).take(position)),
        after_updates(mirror, items).events == update_events(items.take(position)),
        after_updates(mirror, items).stage == Stage::Terminated(
            Cause::Rollover {
                from: session_name(applied(mirror, documents(items).take(position))).unwrap(),
                to: session_name(items[position].document).unwrap(),
            },
        ),
{
    let partials = documents(items);
    lemma_admitted_until_first_rejected(mirror, partials);
    let count = admitted(mirror, partials);
    if count < position {
        assert(fence(applied(mirror, partials.take(count)), partials[count]) is Admit);
    }
    if count > position {
        assert(fence(applied(mirror, partials.take(position)), partials[position]) is Admit);
    }
}

/// The events of two runs of items, one after the other, are the events of
/// the first followed by those of the second.
pub proof fn lemma_update_events_concat(first: Seq<PreparedView>, second: Seq<PreparedView>)
    ensures
        update_events(first + second) == update_events(first) + update_events(second),
    decreases second.len(),
{
    if second.len() == 0 {
        assert(first + second =~= first);
        assert(update_events(first) + update_events(second) =~= update_events(first));
    } else {
        assert((first + second).drop_last() =~= first + second.drop_last());
        lemma_update_events_concat(first, second.drop_last());
        assert(update_events(first + second) =~= update_events(first) + update_events(second));
    }
}

/// A compression failure touches one event only. Where item `position` of a
/// batch loses its payload, the same partials are merged, the mirror and the
/// stage end up the same, and the events are those of the other items, in
/// order.
pub proof fn lemma_compression_failure_is_local(
    mirror: Json,
    items: Seq<PreparedView>,
    position: int,
)
    requires
        0 <= position < items.len(),
    ensures
        after_updates(mirror, without_payload(items, position)).mirror == after_updates(
            mirror,
            items,
        ).mirror,
        after_updates(mirror, without_payload(items, position)).stage == after_updates(
            mirror,
            items,
        ).stage,
        after_updates(mirror, without_payload(items, position)).events == if position
            < admitted(mirror, documents(items)) {
            update_events(items.take(position)) + update_events(
                items.subrange(position + 1, admitted(mirror, documents(items))),
            )
        } else {
            after_updates(mirror, items).events
        },
{
    let failed = without_payload(items, position);
    assert(documents(failed) =~= documents(items));
    lemma_admitted_until_first_rejected(mirror, documents(items));
    let count = admitted(mirror, documents(items));
    if position < count {
        let lost = seq![failed[position]];
        assert(failed.take(count) =~= items.take(position) + lost + items.subrange(
            position + 1,
            count,
        ));
        lemma_update_events_concat(items.take(position) + lost, items.subrange(position + 1, count));
        lemma_update_events_concat(items.take(position), lost);
        assert(lost.last().payload is None);
        assert(update_events(lost.drop_last()) =~= Seq::<EventView>::empty());
        assert(update_events(lost) =~= Seq::<EventView>::empty());
        assert(update_events(items.take(position)) + update_events(lost) =~= update_events(
            items.take(position),
        ));
    } else {
        assert(failed.take(count) =~= items.take(count));
    }
}

/// The batch `items` with the payload of the item at `position` taken away,
/// as when its compression fails.
pub open spec fn without_payload(items: Seq<PreparedView>, position: int) -> Seq<PreparedView> {
    items.update(position, PreparedView { document: items[position].document, payload: None })
}

} // verus!
