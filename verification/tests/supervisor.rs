use live::channel::Channel;
use live::event::LiveEvent;
use live::supervisor::{Command, Supervisor, SupervisorConfig, SupervisorEvent, SupervisorState};
use tokio::sync::broadcast::error::TryRecvError;

#[test]
fn default_configuration() {
    let config = SupervisorConfig::default();
    assert_eq!(config.min_subscribers, 2);
    assert_eq!(config.poll_interval_secs, 5);
    assert_eq!(config.backoff_secs, 5);
}

#[test]
fn two_subscribers_lead_to_connecting() {
    let channel = Channel::new(8).unwrap();
    let mut supervisor = Supervisor::new(SupervisorConfig::default());
    assert_eq!(supervisor.first_command(), Command::CountSubscribers);
    assert_eq!(channel.subscriber_count(), 0);
    let command = supervisor.step(SupervisorEvent::SubscriberCount(channel.subscriber_count()));
    assert_eq!(command, Command::Wait(5));
    assert_eq!(supervisor.state, SupervisorState::WaitingForSubscribers);
    let _first = channel.sender().subscribe();
    let _second = channel.sender().subscribe();
    assert_eq!(supervisor.step(SupervisorEvent::DelayElapsed), Command::CountSubscribers);
    assert_eq!(channel.subscriber_count(), 2);
    let command = supervisor.step(SupervisorEvent::SubscriberCount(channel.subscriber_count()));
    assert_eq!(command, Command::Connect);
    assert_eq!(supervisor.state, SupervisorState::Connecting);
}

#[test]
fn one_subscriber_is_below_the_default_threshold() {
    let mut supervisor = Supervisor::new(SupervisorConfig::default());
    assert_eq!(supervisor.step(SupervisorEvent::SubscriberCount(1)), Command::Wait(5));
    assert_eq!(supervisor.state, SupervisorState::WaitingForSubscribers);
}

#[test]
fn full_round_and_reconnect() {
    let config = SupervisorConfig { min_subscribers: 1, poll_interval_secs: 3, backoff_secs: 7 };
    let mut supervisor = Supervisor::new(config);
    assert_eq!(supervisor.step(SupervisorEvent::SubscriberCount(0)), Command::Wait(3));
    assert_eq!(supervisor.step(SupervisorEvent::DelayElapsed), Command::CountSubscribers);
    assert_eq!(supervisor.step(SupervisorEvent::SubscriberCount(1)), Command::Connect);
    assert_eq!(supervisor.step(SupervisorEvent::Connected), Command::Stream);
    assert_eq!(supervisor.state, SupervisorState::Streaming);
    assert_eq!(supervisor.step(SupervisorEvent::StreamEnded), Command::Wait(7));
    assert_eq!(supervisor.state, SupervisorState::Backoff);
    assert_eq!(supervisor.step(SupervisorEvent::DelayElapsed), Command::CountSubscribers);
    assert_eq!(supervisor.state, SupervisorState::WaitingForSubscribers);
    assert_eq!(supervisor.step(SupervisorEvent::SubscriberCount(4)), Command::Connect);
    assert_eq!(supervisor.config, config);
}

#[test]
fn failed_connection_backs_off() {
    let mut supervisor = Supervisor::new(SupervisorConfig::default());
    assert_eq!(supervisor.step(SupervisorEvent::SubscriberCount(2)), Command::Connect);
    assert_eq!(supervisor.step(SupervisorEvent::ConnectionFailed), Command::Wait(5));
    assert_eq!(supervisor.state, SupervisorState::Backoff);
    assert_eq!(supervisor.step(SupervisorEvent::DelayElapsed), Command::CountSubscribers);
}

#[test]
fn unexpected_event_counts_as_failure() {
    let mut supervisor = Supervisor::new(SupervisorConfig::default());
    assert_eq!(supervisor.step(SupervisorEvent::Connected), Command::Wait(5));
    assert_eq!(supervisor.state, SupervisorState::Backoff);
    assert_eq!(supervisor.step(SupervisorEvent::SubscriberCount(9)), Command::Wait(5));
    assert_eq!(supervisor.state, SupervisorState::Backoff);
}

#[test]
fn late_subscriber_sees_only_later_events() {
    let channel = Channel::new(8).unwrap();
    let mut early = channel.sender().subscribe();
    assert_eq!(channel.publish(&LiveEvent::Update(vec![1])), Some(1));
    assert_eq!(channel.publish(&LiveEvent::Update(vec![2])), Some(1));
    let mut late = channel.sender().subscribe();
    assert_eq!(channel.publish(&LiveEvent::Update(vec![3])), Some(2));
    assert_eq!(early.try_recv(), Ok(LiveEvent::Update(vec![1])));
    assert_eq!(early.try_recv(), Ok(LiveEvent::Update(vec![2])));
    assert_eq!(early.try_recv(), Ok(LiveEvent::Update(vec![3])));
    assert_eq!(late.try_recv(), Ok(LiveEvent::Update(vec![3])));
    assert_eq!(late.try_recv(), Err(TryRecvError::Empty));
}

#[test]
fn publishing_without_subscribers_is_no_error() {
    let channel = Channel::new(8).unwrap();
    assert_eq!(channel.publish(&LiveEvent::Initial(vec![1])), None);
    let mut late = channel.sender().subscribe();
    assert_eq!(late.try_recv(), Err(TryRecvError::Empty));
}

#[test]
fn slow_subscriber_loses_the_oldest_events() {
    let channel = Channel::new(2).unwrap();
    let mut slow = channel.sender().subscribe();
    for byte in 0..5u8 {
        assert_eq!(channel.publish(&LiveEvent::Update(vec![byte])), Some(1));
    }
    assert_eq!(slow.try_recv(), Err(TryRecvError::Lagged(3)));
    assert_eq!(slow.try_recv(), Ok(LiveEvent::Update(vec![3])));
    assert_eq!(slow.try_recv(), Ok(LiveEvent::Update(vec![4])));
    assert_eq!(slow.try_recv(), Err(TryRecvError::Empty));
}

#[test]
fn capacity_out_of_range_gives_no_channel() {
    assert!(Channel::new(0).is_none());
    assert!(Channel::new(usize::MAX / 2 + 1).is_none());
    assert!(Channel::new(usize::MAX).is_none());
    assert!(Channel::new(1).is_some());
}

#[test]
fn channel_from_sender_publishes_to_its_receivers() {
    let (sender, mut receiver) = tokio::sync::broadcast::channel::<LiveEvent>(4);
    let channel = Channel::from_sender(sender);
    assert_eq!(channel.subscriber_count(), 1);
    assert_eq!(channel.publish(&LiveEvent::Initial(vec![7])), Some(1));
    assert_eq!(receiver.try_recv(), Ok(LiveEvent::Initial(vec![7])));
}
