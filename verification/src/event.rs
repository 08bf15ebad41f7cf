use crate::document::{Document, Json};
use vstd::prelude::*;

verus! {

/// An outbound event, compressed and ready for distribution.
///
/// Every event is self-contained: `Initial` carries a whole document and
/// `Update` a single merge-patch, never a difference against an earlier event.
#[derive(Clone, Debug, PartialEq, Eq)]
pub enum LiveEvent {
    /// The compressed full document of a snapshot.
    Initial(Vec<u8>),
    /// The compressed form of one partial update.
    Update(Vec<u8>),
}

/// The mathematical value of a [`LiveEvent`].
pub enum EventView {
    Initial(Seq<u8>),
    Update(Seq<u8>),
}

impl View for LiveEvent {
    type V = EventView;

    open spec fn view(&self) -> EventView {
        match self {
            LiveEvent::Initial(bytes) => EventView::Initial(bytes@),
            LiveEvent::Update(bytes) => EventView::Update(bytes@),
        }
    }
}

/// The values of a list of events, in order.
pub open spec fn event_views(events: Seq<LiveEvent>) -> Seq<EventView> {
    events.map_values(|event: LiveEvent| event@)
}

/// A document as the stream processor takes it: already normalized, together
/// with the compressed form of its serialization.
#[derive(Debug, PartialEq, Eq)]
pub struct Prepared {
    /// The normalized document or partial document.
    pub document: Document,
    /// The compressed serialization of `document`; `None` where compression
    /// failed.
    pub payload: Option<Vec<u8>>,
}

/// The mathematical value of a [`Prepared`] document.
pub struct PreparedView {
    pub document: Json,
    pub payload: Option<Seq<u8>>,
}

impl View for Prepared {
    type V = PreparedView;

    open spec fn view(&self) -> PreparedView {
        PreparedView {
            document: self.document@,
            payload: match self.payload {
                Some(bytes) => Some(bytes@),
                None => None,
            },
        }
    }
}

/// The values of a list of prepared documents, in order.
pub open spec fn prepared_views(items: Seq<Prepared>) -> Seq<PreparedView> {
    items.map_values(|item: Prepared| item@)
}

/// Whether the document of every item is well formed.
pub open spec fn all_well_formed(items: Seq<Prepared>) -> bool {
    forall|i: int| 0 <= i < items.len() ==> (#[trigger] items[i]).document.wf()
}

/// A message of the upstream connection. Messages are taken in strict order.
#[derive(Debug, PartialEq, Eq)]
pub enum Message {
    /// A snapshot of the whole session state.
    Initial(Prepared),
    /// A batch of partial documents, each a merge-patch, in arrival order.
    Updates(Vec<Prepared>),
}

/// The mathematical value of a [`Message`].
pub enum MessageView {
    Initial(PreparedView),
    Updates(Seq<PreparedView>),
}

impl View for Message {
    type V = MessageView;

    open spec fn view(&self) -> MessageView {
        match self {
            Message::Initial(item) => MessageView::Initial(item@),
            Message::Updates(items) => MessageView::Updates(prepared_views(items@)),
        }
    }
}

impl Message {
    /// Every document of the message is well formed.
    pub open spec fn wf(&self) -> bool {
        match self {
            Message::Initial(item) => item.document.wf(),
            Message::Updates(items) => all_well_formed(items@),
        }
    }

    /// Whether every document of the message is well formed.
    pub fn is_well_formed(&self) -> (r: bool)
        ensures
            r == self.wf(),
    {
        match self {
            Message::Initial(item) => item.document.is_well_formed(),
            Message::Updates(items) => {
                let mut i: usize = 0;
                while i < items.len()
                    invariant
                        i <= items@.len(),
                        self == Message::Updates(*items),
                        forall|j: int| 0 <= j < i ==> (#[trigger] items@[j]).document.wf(),
                    decreases items@.len() - i,
                {
                    if !items[i].document.is_well_formed() {
                        return false;
                    }
                    i += 1;
                }
                true
            },
        }
    }
}

} // verus!
