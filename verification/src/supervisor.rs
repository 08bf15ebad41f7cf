use vstd::prelude::*;

verus! {

/// What the supervisor is configured with.
#[derive(Clone, Copy, Debug, PartialEq, Eq, Structural)]
pub struct SupervisorConfig {
    /// The number of subscribers from which on a connection is worth opening.
    pub min_subscribers: usize,
    /// The seconds between two looks at the number of subscribers.
    pub poll_interval_secs: u64,
    /// The seconds to wait after a failed connection attempt or a stream
    /// that has ended.
    pub backoff_secs: u64,
}

impl Default for SupervisorConfig {
    /// Two subscribers (one receiver that is always open, and one real
    /// subscriber), and five seconds for each delay.
    fn default() -> (config: SupervisorConfig)
        ensures
            config == (SupervisorConfig {
                min_subscribers: 2,
                poll_interval_secs: 5,
                backoff_secs: 5,
            }),
    {
        SupervisorConfig { min_subscribers: 2, poll_interval_secs: 5, backoff_secs: 5 }
    }
}

/// Where the supervisor stands.
#[derive(Clone, Copy, Debug, PartialEq, Eq, Structural)]
pub enum SupervisorState {
    /// No connection is open, and none is opened before enough subscribers
    /// are attached.
    WaitingForSubscribers,
    /// A connection has been asked for.
    Connecting,
    /// The stream processor runs on an open connection.
    Streaming,
    /// A delay runs before the next round.
    Backoff,
}

/// What the world reports back to the supervisor.
#[derive(Clone, Copy, Debug, PartialEq, Eq, Structural)]
pub enum SupervisorEvent {
    /// The channel held this many subscribers.
    SubscriberCount(usize),
    /// The connection was established.
    Connected,
    /// The connection could not be established.
    ConnectionFailed,
    /// The stream processor returned, for whatever reason.
    StreamEnded,
    /// The delay that was asked for has run.
    DelayElapsed,
}

/// What the supervisor asks for next. Carrying it out yields the next event.
#[derive(Clone, Copy, Debug, PartialEq, Eq, Structural)]
pub enum Command {
    /// Read the channel's number of subscribers.
    CountSubscribers,
    /// Open an upstream connection.
    Connect,
    /// Run the stream processor on the connection until it returns.
    Stream,
    /// Let this many seconds pass.
    Wait(u64),
}

/// The supervisor's rule: the state and the command that follow `event` in
/// `state`.
///
/// A connection is asked for only on a subscriber count that meets the
/// threshold. Every failure and every end of a stream leads through the same
/// fixed delay back to waiting, without limit. An event that the state does
/// not expect is treated as a failure.
pub open spec fn next(config: SupervisorConfig, state: SupervisorState, event: SupervisorEvent) -> (
    SupervisorState,
    Command,
) {
    match (state, event) {
        (SupervisorState::WaitingForSubscribers, SupervisorEvent::SubscriberCount(count)) => if count
            >= config.min_subscribers {
            (SupervisorState::Connecting, Command::Connect)
        } else {
            (SupervisorState::WaitingForSubscribers, Command::Wait(config.poll_interval_secs))
        },
        (SupervisorState::WaitingForSubscribers, SupervisorEvent::DelayElapsed) => (
            SupervisorState::WaitingForSubscribers,
            Command::CountSubscribers,
        ),
        (SupervisorState::Connecting, SupervisorEvent::Connected) => (
            SupervisorState::Streaming,
            Command::Stream,
        ),
        (SupervisorState::Backoff, SupervisorEvent::DelayElapsed) => (
            SupervisorState::WaitingForSubscribers,
            Command::CountSubscribers,
        ),
        _ => (SupervisorState::Backoff, Command::Wait(config.backoff_secs)),
    }
}

/// The state that a run of events leads to from `state`.
pub open spec fn state_after(
    config: SupervisorConfig,
    state: SupervisorState,
    events: Seq<SupervisorEvent>,
) -> SupervisorState
    decreases events.len(),
{
    if events.len() == 0 {
        state
    } else {
        next(config, state_after(config, state, events.drop_last()), events.last()).0
    }
}

/// The command that the last of a run of events from `state` is met with.
pub open spec fn command_after(
    config: SupervisorConfig,
    state: SupervisorState,
    events: Seq<SupervisorEvent>,
) -> Command
    recommends
        events.len() > 0,
{
    next(config, state_after(config, state, events.drop_last()), events.last()).1
}

/// The top-level loop as a state machine: it gates the connection on
/// subscriber demand and backs off after every failure.
#[derive(Clone, Copy, Debug, PartialEq, Eq, Structural)]
pub struct Supervisor {
    pub config: SupervisorConfig,
    pub state: SupervisorState,
}

impl Supervisor {
    /// A supervisor that waits for subscribers.
    pub fn new(config: SupervisorConfig) -> (supervisor: Supervisor)
        ensures
            supervisor.config == config,
            supervisor.state == SupervisorState::WaitingForSubscribers,
    {
        Supervisor { config, state: SupervisorState::WaitingForSubscribers }
    }

    /// The command that a fresh supervisor starts with.
    pub fn first_command(&self) -> (command: Command)
        ensures
            command == Command::CountSubscribers,
    {
        Command::CountSubscribers
    }

    /// Takes the event that the last command has led to, and returns the
    /// next command.
    pub fn step(&mut self, event: SupervisorEvent) -> (command: Command)
        ensures
            final(self).config == old(self).config,
            (final(self).state, command) == next(old(self).config, old(self).state, event),
    {
        let (state, command) = match (self.state, event) {
            (SupervisorState::WaitingForSubscribers, SupervisorEvent::SubscriberCount(count)) => {
                if count >= self.config.min_subscribers {
                    (SupervisorState::Connecting, Command::Connect)
                } else {
                    (
                        SupervisorState::WaitingForSubscribers,
                        Command::Wait(self.config.poll_interval_secs),
                    )
                }
            },
            (SupervisorState::WaitingForSubscribers, SupervisorEvent::DelayElapsed) => (
                SupervisorState::WaitingForSubscribers,
                Command::CountSubscribers,
            ),
            (SupervisorState::Connecting, SupervisorEvent::Connected) => (
                SupervisorState::Streaming,
                Command::Stream,
            ),
            (SupervisorState::Backoff, SupervisorEvent::DelayElapsed) => (
                SupervisorState::WaitingForSubscribers,
                Command::CountSubscribers,
            ),
            _ => (SupervisorState::Backoff, Command::Wait(self.config.backoff_secs)),
        };
        self.state = state;
        command
    }
}

/// The supervisor never asks for a connection while the subscribers are
/// fewer than the threshold: whatever events have come, a `Connect` answers
/// nothing but a subscriber count that meets the threshold, read while
/// waiting for subscribers.
pub proof fn lemma_connects_only_on_demand(
    config: SupervisorConfig,
    state: SupervisorState,
    events: Seq<SupervisorEvent>,
)
    requires
        events.len() > 0,
        command_after(config, state, events) == Command::Connect,
    ensures
        state_after(config, state, events.drop_last()) == SupervisorState::WaitingForSubscribers,
        events.last() matches SupervisorEvent::SubscriberCount(count) && count
            >= config.min_subscribers,
        state_after(config, state, events) == SupervisorState::Connecting,
{
}

/// Once the threshold is met the supervisor connects within one poll
/// interval. While it waits, a count below the threshold is answered with a
/// wait of one poll interval, the end of that wait with a new count, and a
/// count that meets the threshold with `Connect` at once.
pub proof fn lemma_connects_within_one_poll(config: SupervisorConfig, low: usize, high: usize)
    requires
        low < config.min_subscribers <= high,
    ensures
        next(
            config,
            SupervisorState::WaitingForSubscribers,
            SupervisorEvent::SubscriberCount(low),
        ) == (SupervisorState::WaitingForSubscribers, Command::Wait(config.poll_interval_secs)),
        next(config, SupervisorState::WaitingForSubscribers, SupervisorEvent::DelayElapsed) == (
            SupervisorState::WaitingForSubscribers,
            Command::CountSubscribers,
        ),
        next(
            config,
            SupervisorState::WaitingForSubscribers,
            SupervisorEvent::SubscriberCount(high),
        ) == (SupervisorState::Connecting, Command::Connect),
{
}

/// However a round ends, the next one follows. After a stream has ended or a
/// connection attempt has failed, the supervisor waits the backoff delay,
/// looks at the subscribers again, and opens a new connection as soon as
/// they meet the threshold.
pub proof fn lemma_reconnects_after_any_end(
    config: SupervisorConfig,
    state: SupervisorState,
    end: SupervisorEvent,
    count: usize,
)
    requires
        state == SupervisorState::Streaming && end == SupervisorEvent::StreamEnded || state
            == SupervisorState::Connecting && end == SupervisorEvent::ConnectionFailed,
        count >= config.min_subscribers,
    ensures
        next(config, state, end) == (SupervisorState::Backoff, Command::Wait(config.backoff_secs)),
        command_after(config, state, seq![end, SupervisorEvent::DelayElapsed])
            == Command::CountSubscribers,
        command_after(
            config,
            state,
            seq![end, SupervisorEvent::DelayElapsed, SupervisorEvent::SubscriberCount(count)],
        ) == Command::Connect,
{
    let one = seq![end];
    let two = seq![end, SupervisorEvent::DelayElapsed];
    let three = seq![end, SupervisorEvent::DelayElapsed, SupervisorEvent::SubscriberCount(count)];
    assert(one.drop_last() =~= Seq::<SupervisorEvent>::empty());
    assert(two.drop_last() =~= one);
    assert(three.drop_last() =~= two);
    assert(state_after(config, state, one.drop_last()) == state);
    assert(state_after(config, state, one) == SupervisorState::Backoff);
    assert(state_after(config, state, two) == SupervisorState::WaitingForSubscribers);
}

} // verus!
