//! Nonblocking message transport contract; adapters own connection establishment.
use crate::types::{ChannelId, PeerId};
use vstd::prelude::*;

verus! {

/// Only the semantics exercised so far. Extend with reliable channels
/// when an adapter actually supplies their guarantees.
#[derive(Clone, Copy, Debug, PartialEq, Eq, Structural)]
pub enum Delivery {
    /// Messages may be lost, duplicated, or reordered.
    Unreliable,
}

/// What an endpoint observes: connection changes and received messages.
#[derive(Clone, Debug, PartialEq, Eq)]
pub enum TransportEvent {
    Connected(PeerId),
    Disconnected(PeerId),
    Message { peer: PeerId, channel: ChannelId, payload: Vec<u8> },
}

/// A transport event with its payload taken as a byte sequence.
pub enum EventView {
    Connected(PeerId),
    Disconnected(PeerId),
    Message { peer: PeerId, channel: ChannelId, payload: Seq<u8> },
}

impl View for TransportEvent {
    type V = EventView;

    open spec fn view(&self) -> EventView {
        match self {
            TransportEvent::Connected(p) => EventView::Connected(*p),
            TransportEvent::Disconnected(p) => EventView::Disconnected(*p),
            TransportEvent::Message { peer, channel, payload } => EventView::Message {
                peer: *peer,
                channel: *channel,
                payload: payload@,
            },
        }
    }
}

/// The contract of a nonblocking message transport, for adapters to implement.
pub trait Transport {
    type Error;

    /// The delivery semantics of `channel`, or `None` for a channel the adapter lacks.
    fn delivery(&self, channel: ChannelId) -> Option<Delivery>;

    /// Ok means accepted for sending, not delivered. Must not block.
    fn send(&mut self, peer: PeerId, channel: ChannelId, bytes: &[u8]) -> Result<(), Self::Error>;

    /// Return the next available event, if any; this does not advance simulation time.
    fn poll(&mut self) -> Result<Option<TransportEvent>, Self::Error>;
}

} // verus!
