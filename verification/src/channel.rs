use crate::event::LiveEvent;
use tokio::sync::broadcast::Sender;
use vstd::prelude::*;

verus! {

/// The sending half of tokio's broadcast channel, carried as an opaque value.
#[verifier::external_type_specification]
#[verifier::external_body]
#[verifier::reject_recursive_types(T)]
pub struct ExSender<T>(tokio::sync::broadcast::Sender<T>);

/// `Sender::new` of tokio's broadcast channel: a channel without receivers
/// whose queue retains up to `capacity` events for each subscriber. tokio
/// panics on a capacity of zero or above `usize::MAX / 2`, which `requires`
/// leaves out.
#[verifier::external_body]
fn open_sender(capacity: usize) -> (sender: Sender<LiveEvent>)
    requires
        0 < capacity <= usize::MAX / 2,
{
    Sender::new(capacity)
}

/// `Sender::send` of tokio's broadcast channel, on a copy of `event`. With no
/// receiver attached tokio hands the value back as an error, given here as
/// `None`; otherwise it returns how many receivers were attached, which is
/// then at least one. Which of the two happens depends on what other threads
/// have subscribed, so nothing more is claimed.
#[verifier::external_body]
fn send_event(sender: &Sender<LiveEvent>, event: &LiveEvent) -> (receivers: Option<usize>)
    ensures
        receivers matches Some(count) ==> count > 0,
{
    sender.send(event.clone()).ok()
}

/// `Sender::receiver_count` of tokio's broadcast channel: the number of
/// receivers attached at the moment of the call. Other threads attach and
/// detach receivers, so nothing is claimed of the number.
#[verifier::external_body]
fn receiver_count(sender: &Sender<LiveEvent>) -> (count: usize) {
    sender.receiver_count()
}

/// The distribution channel: one publisher, any number of subscribers.
///
/// An event that is published reaches every subscriber attached at that
/// moment and nobody else: it is not kept for those who subscribe later.
/// Each subscriber has a bounded queue. A subscriber that falls behind by
/// more than the capacity loses the oldest events and is told how many it
/// missed; the queue never grows beyond the capacity.
pub struct Channel {
    sender: Sender<LiveEvent>,
}

impl Channel {
    /// The sending half that the channel publishes through.
    pub closed spec fn handle(&self) -> Sender<LiveEvent> {
        self.sender
    }

    /// A channel whose subscribers each queue up to `capacity` events, or
    /// `None` where `capacity` is zero or above `usize::MAX / 2`.
    pub fn new(capacity: usize) -> (channel: Option<Channel>)
        ensures
            channel is Some <==> 0 < capacity <= usize::MAX / 2,
    {
        if 0 < capacity && capacity <= usize::MAX / 2 {
            Some(Channel { sender: open_sender(capacity) })
        } else {
            None
        }
    }

    /// The channel that publishes through `sender`.
    pub fn from_sender(sender: Sender<LiveEvent>) -> (channel: Channel)
        ensures
            channel.handle() == sender,
    {
        Channel { sender }
    }

    /// The sending half, from which subscribers obtain their receivers.
    pub fn sender(&self) -> (sender: &Sender<LiveEvent>)
        ensures
            *sender == self.handle(),
    {
        &self.sender
    }

    /// Offers `event` to every subscriber attached right now. Returns how
    /// many there were, or `None` where there was none: the event is then
    /// dropped, which is no error.
    pub fn publish(&self, event: &LiveEvent) -> (receivers: Option<usize>)
        ensures
            receivers matches Some(count) ==> count > 0,
    {
        send_event(&self.sender, event)
    }

    /// The number of subscribers attached right now.
    pub fn subscriber_count(&self) -> (count: usize) {
        receiver_count(&self.sender)
    }
}

} // verus!
