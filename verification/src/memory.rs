//! Seeded, single-threaded two-endpoint network driven exclusively by virtual time.
use crate::model::{
    conditions_valid, events_for, hits, initial_network, insert_by_due, insertion_point,
    lcg_draw, lcg_step, no_origin, lemma_advanced_inv, lemma_disconnected_inv, lemma_events_for_take,
    lemma_initial_inv, lemma_insert_by_due, lemma_insertion_point, lemma_insertion_point_take,
    lemma_polled_inv, lemma_transmitted_inv, max_delay_ms, sorted_by_due, NetworkView, PacketView,
    LCG_INCREMENT, LCG_MULTIPLIER,
};
use vstd::multiset::Multiset;
use crate::ledger::{
    lemma_ledger_advanced, lemma_ledger_disconnected, lemma_ledger_initial, lemma_ledger_polled,
    lemma_ledger_transmitted,
};
use crate::time::{Duration, MAX_NANOS, NANOS_PER_MILLI};
use crate::transport::{Delivery, EventView, TransportEvent};
use crate::types::{ChannelId, PeerId};
use std::collections::VecDeque;
use vstd::prelude::*;

verus! {

/// The number of the one channel that the in-memory network carries:
/// `ChannelId(GAMEPLAY)`.
pub const GAMEPLAY: u8 = 0;

/// The largest payload accepted by `send`, in bytes.
pub const MAX_PAYLOAD: usize = 1200;

/// The most packets in flight plus events waiting, over both endpoints.
pub const MAX_QUEUED: usize = 4096;

/// A rate of 100%, in basis points.
pub const MAX_BPS: u16 = 10_000;

/// Fault percentages use integer basis points (0..=10_000).
/// Jitter and reordering add delay; loss is not repaired by this adapter.
#[derive(Clone, Copy, Debug)]
pub struct NetworkConditions {
    pub latency_ms: u32,
    pub jitter_ms: u32,
    pub loss_bps: u16,
    pub duplicate_bps: u16,
    pub reorder_bps: u16,
    pub reorder_delay_ms: u32,
}

impl Default for NetworkConditions {
    /// No latency, no jitter, no faults.
    fn default() -> (c: Self)
        ensures
            c.latency_ms == 0,
            c.jitter_ms == 0,
            c.loss_bps == 0,
            c.duplicate_bps == 0,
            c.reorder_bps == 0,
            c.reorder_delay_ms == 0,
    {
        NetworkConditions {
            latency_ms: 0,
            jitter_ms: 0,
            loss_bps: 0,
            duplicate_bps: 0,
            reorder_bps: 0,
            reorder_delay_ms: 0,
        }
    }
}

/// Why the network refused a request.
#[derive(Clone, Copy, Debug, PartialEq, Eq, Structural)]
pub enum NetworkError {
    InvalidConditions,
    DuplicatePeer,
    UnknownPeer,
    UnknownChannel,
    Disconnected,
    PayloadTooLarge,
    Backpressure,
    TimeOverflow,
}

/// Counters of what happened to accepted messages.
#[derive(Clone, Copy, Debug, Default, PartialEq, Eq, Structural)]
pub struct NetworkStats {
    pub sent: u64,
    pub dropped: u64,
    pub duplicated: u64,
    pub delivered: u64,
}

struct Packet {
    due: Duration,
    destination: usize,
    event: TransportEvent,
    origin: Ghost<(int, int)>,
}

impl View for Packet {
    type V = PacketView;

    closed spec fn view(&self) -> PacketView {
        PacketView {
            due: self.due@,
            destination: self.destination as nat,
            event: self.event@,
            origin: self.origin@,
        }
    }
}

/// The controller of a seeded network between two endpoints. It owns the
/// whole network state and is kept outside endpoints and outside game logic.
pub struct SimulatedNetwork {
    now: Duration,
    rng: u64,
    peers: [PeerId; 2],
    connected: bool,
    conditions: NetworkConditions,
    packets: Vec<Packet>,
    inbox0: VecDeque<TransportEvent>,
    inbox1: VecDeque<TransportEvent>,
    stats: NetworkStats,
    accepted: Ghost<(Seq<Seq<u8>>, Seq<Seq<u8>>)>,
    origins: Ghost<(Seq<(int, int)>, Seq<(int, int)>)>,
    copies: Ghost<(Seq<nat>, Seq<nat>)>,
    received: Ghost<Multiset<(int, int)>>,
}

/// One endpoint of a simulated network: endpoint 0 or endpoint 1. The
/// network state is shared by both endpoints and owned by `SimulatedNetwork`,
/// so each operation takes the network it acts on. The endpoint offers the
/// operations of `Transport` (`delivery`, `send`, `poll`) in that form rather
/// than implementing the trait: the trait's methods reach no state but their
/// receiver, and `send` needs room left in the network's counters.
pub struct MemoryTransport {
    local: usize,
}

impl View for SimulatedNetwork {
    type V = NetworkView;

    closed spec fn view(&self) -> NetworkView {
        NetworkView {
            now: self.now@,
            rng: self.rng,
            peers: (self.peers[0], self.peers[1]),
            connected: self.connected,
            conditions: self.conditions,
            packets: self.packets@.map_values(|p: Packet| p@),
            inboxes: (
                self.inbox0@.map_values(|e: TransportEvent| e@),
                self.inbox1@.map_values(|e: TransportEvent| e@),
            ),
            stats: self.stats,
            accepted: self.accepted@,
            origins: self.origins@,
            copies: self.copies@,
            received: self.received@,
        }
    }
}

/// The position at which a packet due at `due` goes into `packets`.
fn insertion_index(packets: &Vec<Packet>, due: &Duration) -> (k: usize)
    ensures
        k == insertion_point(packets@.map_values(|p: Packet| p@), due@),
        k <= packets.len(),
{
    let ghost s = packets@.map_values(|p: Packet| p@);
    let mut k = packets.len();
    assert(s.take(k as int) =~= s);
    while k > 0 && !packets[k - 1].due.le(due)
        invariant
            k <= packets.len(),
            s == packets@.map_values(|p: Packet| p@),
            insertion_point(s, due@) == insertion_point(s.take(k as int), due@),
        decreases k,
    {
        proof {
            lemma_insertion_point_take(s, due@, k as int);
        }
        k = k - 1;
    }
    proof {
        if k > 0 {
            lemma_insertion_point_take(s, due@, k as int);
        } else {
            assert(s.take(0) =~= Seq::<PacketView>::empty());
        }
    }
    k
}

impl SimulatedNetwork {
    /// What holds of every network that `pair` creates and the operations keep.
    pub open spec fn wf(&self) -> bool {
        self@.inv() && self@.ledger_inv()
    }

    /// Creates a connected network between two distinct peers, and its two
    /// endpoints: endpoint 0 reaches `peers[1]`, endpoint 1 reaches `peers[0]`.
    /// Each endpoint first polls a `Connected` event naming the other peer.
    pub fn pair(
        peers: [PeerId; 2],
        conditions: NetworkConditions,
        seed: u64,
    ) -> (r: Result<(Self, MemoryTransport, MemoryTransport), NetworkError>)
        ensures
            r is Ok <==> (peers[0] != peers[1] && conditions.loss_bps <= MAX_BPS
                && conditions.duplicate_bps <= MAX_BPS && conditions.reorder_bps <= MAX_BPS),
            match r {
                Ok((network, a, b)) => {
                    &&& peers[0] != peers[1]
                    &&& conditions_valid(conditions)
                    &&& network.wf()
                    &&& network@ == initial_network((peers[0], peers[1]), conditions, seed)
                    &&& a.endpoint() == 0
                    &&& b.endpoint() == 1
                },
                Err(e) => if peers[0] == peers[1] {
                    e == NetworkError::DuplicatePeer
                } else {
                    !conditions_valid(conditions) && e == NetworkError::InvalidConditions
                },
            },
    {
        if peers[0] == peers[1] {
            return Err(NetworkError::DuplicatePeer);
        }
        if conditions.loss_bps > MAX_BPS || conditions.duplicate_bps > MAX_BPS
            || conditions.reorder_bps > MAX_BPS {
            return Err(NetworkError::InvalidConditions);
        }
        let mut inbox0: VecDeque<TransportEvent> = VecDeque::new();
        inbox0.push_back(TransportEvent::Connected(peers[1]));
        let mut inbox1: VecDeque<TransportEvent> = VecDeque::new();
        inbox1.push_back(TransportEvent::Connected(peers[0]));
        let network = SimulatedNetwork {
            now: Duration::zero(),
            rng: seed,
            peers,
            connected: true,
            conditions,
            packets: Vec::new(),
            inbox0,
            inbox1,
            stats: NetworkStats { sent: 0, dropped: 0, duplicated: 0, delivered: 0 },
            accepted: Ghost((Seq::empty(), Seq::empty())),
            origins: Ghost((seq![no_origin()], seq![no_origin()])),
            copies: Ghost((Seq::empty(), Seq::empty())),
            received: Ghost(Multiset::empty()),
        };
        proof {
            lemma_initial_inv((peers[0], peers[1]), conditions, seed);
            assert(network@.packets =~= Seq::<PacketView>::empty());
            assert(network@.inboxes.0 =~= seq![EventView::Connected(peers[1])]);
            assert(network@.inboxes.1 =~= seq![EventView::Connected(peers[0])]);
            lemma_ledger_initial(network@);
        }
        Ok((network, MemoryTransport { local: 0 }, MemoryTransport { local: 1 }))
    }

    /// Moves virtual time forward by `elapsed`, then delivers every packet
    /// due by the new time to its endpoint, earliest due first and, among
    /// equal due times, in the order sent. Fails without any change where the
    /// new time would leave the representable range.
    pub fn advance(&mut self, elapsed: Duration) -> (r: Result<(), NetworkError>)
        requires
            old(self).wf(),
        ensures
            final(self).wf(),
            match r {
                Ok(()) => {
                    &&& old(self)@.now + elapsed@ <= MAX_NANOS
                    &&& final(self)@ == old(self)@.advanced(old(self)@.now + elapsed@)
                },
                Err(e) => {
                    &&& e == NetworkError::TimeOverflow
                    &&& old(self)@.now + elapsed@ > MAX_NANOS
                    &&& final(self)@ == old(self)@
                },
            },
    {
        let now = match self.now.checked_add(&elapsed) {
            Some(t) => t,
            None => return Err(NetworkError::TimeOverflow),
        };
        let ghost v0 = self@;
        let ghost target = v0.advanced(now@);
        self.now = now;
        let ready = insertion_index(&self.packets, &now);
        proof {
            lemma_insertion_point(v0.packets, now@);
            lemma_advanced_inv(v0, now@);
            lemma_ledger_advanced(v0, now@);
            assert(v0.packets.skip(0) =~= v0.packets);
            assert(v0.packets.take(0) =~= Seq::<PacketView>::empty());
            assert(v0.inboxes.0 + events_for(v0.packets.take(0), 0) =~= v0.inboxes.0);
            assert(v0.inboxes.1 + events_for(v0.packets.take(0), 1) =~= v0.inboxes.1);
        }
        let mut i: usize = 0;
        while i < ready
            invariant
                v0.inv(),
                ready == insertion_point(v0.packets, now@),
                ready <= v0.packets.len(),
                i <= ready,
                self@ == (NetworkView {
                    packets: v0.packets.skip(i as int),
                    inboxes: (
                        v0.inboxes.0 + events_for(v0.packets.take(i as int), 0),
                        v0.inboxes.1 + events_for(v0.packets.take(i as int), 1),
                    ),
                    stats: NetworkStats { delivered: (v0.stats.delivered + i) as u64, ..v0.stats },
                    now: now@,
                    ..v0
                }),
            decreases ready - i,
        {
            let ghost before = self@;
            let ghost vec_before = self.packets@;
            proof {
                lemma_events_for_take(v0.packets, 0, i as int);
                lemma_events_for_take(v0.packets, 1, i as int);
                assert(before.packets.len() == vec_before.len());
                assert(before.packets[0] == v0.packets[i as int]);
            }
            let Packet { due: _, destination, event, origin: _ } = self.packets.remove(0);
            let ghost ev = event@;
            proof {
                assert(vec_before[0].event@ == ev);
                assert(self.packets@ =~= vec_before.subrange(1, vec_before.len() as int));
            }
            if destination == 0 {
                self.inbox0.push_back(event);
                proof {
                    assert(self@.inboxes.0 =~= before.inboxes.0.push(ev));
                    assert(self@.inboxes.1 =~= before.inboxes.1);
                }
            } else {
                self.inbox1.push_back(event);
                proof {
                    assert(self@.inboxes.1 =~= before.inboxes.1.push(ev));
                    assert(self@.inboxes.0 =~= before.inboxes.0);
                }
            }
            self.stats.delivered = self.stats.delivered + 1;
            i = i + 1;
            proof {
                assert forall|j: int| 0 <= j < self@.packets.len() implies self@.packets[j]
                    == v0.packets.skip(i as int)[j] by {
                    assert(self@.packets[j] == self.packets@[j]@);
                    assert(self.packets@[j] == vec_before[j + 1]);
                    assert(before.packets[j + 1] == vec_before[j + 1]@);
                }
                assert(self@.packets =~= v0.packets.skip(i as int));
                assert(self@.inboxes.0 =~= v0.inboxes.0 + events_for(v0.packets.take(i as int), 0));
                assert(self@.inboxes.1 =~= v0.inboxes.1 + events_for(v0.packets.take(i as int), 1));
            }
        }
        self.origins = Ghost(target.origins);
        proof {
            assert(self@ == target);
        }
        Ok(())
    }

    /// The counters so far.
    pub fn stats(&self) -> (s: NetworkStats)
        ensures
            s == self@.stats,
    {
        self.stats
    }

    /// Drops in-flight/queued messages and emits one disconnect event per endpoint.
    /// Reconnection is intentionally deferred; construct a fresh pair for a new link.
    pub fn disconnect(&mut self)
        requires
            old(self).wf(),
        ensures
            final(self).wf(),
            final(self)@ == old(self)@.disconnected(),
    {
        if !self.connected {
            return;
        }
        let ghost target = self@.disconnected();
        self.origins = Ghost(target.origins);
        self.connected = false;
        self.packets.clear();
        self.inbox0.clear();
        self.inbox0.push_back(TransportEvent::Disconnected(self.peers[1]));
        self.inbox1.clear();
        self.inbox1.push_back(TransportEvent::Disconnected(self.peers[0]));
        proof {
            lemma_disconnected_inv(old(self)@);
            lemma_ledger_disconnected(old(self)@);
            assert(self@.packets =~= Seq::<PacketView>::empty());
            assert(self@.inboxes.0 =~= seq![EventView::Disconnected(self.peers[1])]);
            assert(self@.inboxes.1 =~= seq![EventView::Disconnected(self.peers[0])]);
        }
    }
}

impl SimulatedNetwork {
    /// Steps the generator and returns its draw. Explicit wrapping arithmetic
    /// makes the generator platform independent.
    fn random(&mut self) -> (x: u64)
        ensures
            x == lcg_draw(old(self).rng),
            *final(self) == (SimulatedNetwork { rng: lcg_step(old(self).rng), ..*old(self) }),
    {
        proof {
            reveal(lcg_step);
        }
        self.rng = self.rng.wrapping_mul(LCG_MULTIPLIER).wrapping_add(LCG_INCREMENT);
        self.rng >> 16u64
    }

    /// Draws once and tells whether the draw falls under `bps` basis points.
    fn chance(&mut self, bps: u16) -> (b: bool)
        ensures
            b == hits(old(self).rng, bps),
            *final(self) == (SimulatedNetwork { rng: lcg_step(old(self).rng), ..*old(self) }),
    {
        self.random() % 10_000 < bps as u64
    }

    /// Puts `packet` after every packet in flight that is due no later.
    fn insert_packet(&mut self, packet: Packet)
        requires
            sorted_by_due(old(self)@.packets),
        ensures
            final(self)@ == (NetworkView {
                packets: insert_by_due(old(self)@.packets, packet@),
                ..old(self)@
            }),
            final(self).rng == old(self).rng,
    {
        let k = insertion_index(&self.packets, &packet.due);
        let ghost s = old(self)@.packets;
        let ghost p = packet@;
        self.packets.insert(k, packet);
        proof {
            assert(self@.packets =~= s.take(k as int) + seq![p] + s.skip(k as int));
        }
    }

    /// Schedules one copy of a message from endpoint `local`: draws its
    /// jitter, then whether it is reordered, and puts it in flight.
    fn schedule_copy(&mut self, local: usize, channel: ChannelId, bytes: &[u8])
        requires
            local < 2,
            sorted_by_due(old(self)@.packets),
            old(self)@.now + max_delay_ms(old(self)@.conditions) * NANOS_PER_MILLI <= MAX_NANOS,
        ensures
            final(self)@ == (NetworkView {
                rng: lcg_step(lcg_step(old(self)@.rng)),
                packets: insert_by_due(
                    old(self)@.packets,
                    old(self)@.scheduled(local as int, channel, bytes@, old(self)@.rng),
                ),
                ..old(self)@
            }),
    {
        let ghost v0 = self@;
        let c = self.conditions;
        let jitter = self.random() % (c.jitter_ms as u64 + 1);
        let reorder: u64 = if self.chance(c.reorder_bps) {
            c.reorder_delay_ms as u64
        } else {
            0
        };
        let delay = Duration::from_millis(c.latency_ms as u64 + jitter + reorder);
        let ghost p = v0.scheduled(local as int, channel, bytes@, v0.rng);
        assert(delay@ <= max_delay_ms(c) * NANOS_PER_MILLI);
        let due = self.now.checked_add(&delay).unwrap();
        let sender = self.peers[local];
        let packet = Packet {
            due,
            destination: 1 - local,
            event: TransportEvent::Message {
                peer: sender,
                channel,
                payload: vstd::slice::slice_to_vec(bytes),
            },
            origin: Ghost(p.origin),
        };
        assert(packet@ == p);
        self.insert_packet(packet);
    }
}

impl SimulatedNetwork {
    /// Counts an accepted message as sent, then lets the generator decide its
    /// loss, its duplication and the delay of each copy.
    fn transmit(&mut self, local: usize, channel: ChannelId, bytes: &[u8])
        requires
            local < 2,
            old(self)@.inv(),
            old(self)@.now + max_delay_ms(old(self)@.conditions) * NANOS_PER_MILLI <= MAX_NANOS,
            old(self)@.stats.sent + old(self)@.stats.duplicated + 2 <= u64::MAX,
        ensures
            final(self)@ == old(self)@.transmitted(local as int, channel, bytes@),
    {
        let ghost v0 = self@;
        let ghost target = v0.transmitted(local as int, channel, bytes@);
        let c = self.conditions;
        self.stats.sent = self.stats.sent + 1;
        if self.chance(c.loss_bps) {
            self.stats.dropped = self.stats.dropped + 1;
            self.accepted = Ghost(target.accepted);
            self.copies = Ghost(target.copies);
            return;
        }
        let duplicate = self.chance(c.duplicate_bps);
        if duplicate {
            self.stats.duplicated = self.stats.duplicated + 1;
        }
        let ghost v1 = self@;
        self.schedule_copy(local, channel, bytes);
        proof {
            lemma_insert_by_due(v1.packets, v0.scheduled(local as int, channel, bytes@, v1.rng));
        }
        if duplicate {
            self.schedule_copy(local, channel, bytes);
        }
        self.accepted = Ghost(target.accepted);
        self.copies = Ghost(target.copies);
    }
}

impl MemoryTransport {
    /// Which endpoint this is: 0 or 1.
    pub closed spec fn endpoint(&self) -> int {
        if self.local == 0 {
            0
        } else {
            1
        }
    }

    /// An endpoint is endpoint 0 or endpoint 1.
    pub proof fn lemma_endpoint_range(&self)
        ensures
            0 <= self.endpoint() < 2,
    {
    }

    #[verifier::type_invariant]
    spec fn endpoint_valid(self) -> bool {
        self.local < 2
    }

    /// The in-memory network carries the gameplay channel only, unreliably.
    pub fn delivery(&self, channel: ChannelId) -> (d: Option<Delivery>)
        ensures
            d == (if channel.0 == GAMEPLAY {
                Some(Delivery::Unreliable)
            } else {
                None
            }),
    {
        if channel.0 == GAMEPLAY {
            Some(Delivery::Unreliable)
        } else {
            None
        }
    }

    /// Offers `bytes` to the peer at the other endpoint. Refusals leave the
    /// network unchanged. An accepted message is counted as sent and then,
    /// as the seeded generator decides, lost, or put in flight once or twice
    /// with latency, jitter and reordering delay. Ok means accepted for
    /// sending, not delivered; nothing blocks.
    pub fn send(
        &self,
        network: &mut SimulatedNetwork,
        peer: PeerId,
        channel: ChannelId,
        bytes: &[u8],
    ) -> (r: Result<(), NetworkError>)
        requires
            old(network).wf(),
            old(network)@.send_refusal(self.endpoint(), peer, channel, bytes@.len()) is None
                ==> old(network)@.stats.sent + old(network)@.stats.duplicated + 2 <= u64::MAX,
        ensures
            final(network).wf(),
            match old(network)@.send_refusal(self.endpoint(), peer, channel, bytes@.len()) {
                Some(e) => r == Err::<(), NetworkError>(e) && final(network)@ == old(network)@,
                None => r is Ok && final(network)@ == old(network)@.transmitted(
                    self.endpoint(),
                    channel,
                    bytes@,
                ),
            },
    {
        proof {
            use_type_invariant(self);
        }
        if self.delivery(channel).is_none() {
            return Err(NetworkError::UnknownChannel);
        }
        if bytes.len() > MAX_PAYLOAD {
            return Err(NetworkError::PayloadTooLarge);
        }
        let local = self.local;
        if peer != network.peers[1 - local] {
            return Err(NetworkError::UnknownPeer);
        }
        if !network.connected {
            return Err(NetworkError::Disconnected);
        }
        // Reserve space for a possible duplicate before accepting the message.
        let queued = network.packets.len() + network.inbox0.len() + network.inbox1.len();
        if queued + 2 > MAX_QUEUED {
            return Err(NetworkError::Backpressure);
        }
        let c = network.conditions;
        // Validate the worst-case time before changing queue state or diagnostics.
        let max_delay = c.latency_ms as u64 + c.jitter_ms as u64 + c.reorder_delay_ms as u64;
        if network.now.checked_add(&Duration::from_millis(max_delay)).is_none() {
            return Err(NetworkError::TimeOverflow);
        }
        proof {
            lemma_transmitted_inv(network@, local as int, channel, bytes@);
            lemma_ledger_transmitted(network@, local as int, channel, bytes@);
        }
        network.transmit(local, channel, bytes);
        Ok(())
    }

    /// Takes the next event waiting at this endpoint, if any. Polling never
    /// fails and does not advance virtual time.
    pub fn poll(&self, network: &mut SimulatedNetwork) -> (r: Result<
        Option<TransportEvent>,
        NetworkError,
    >)
        requires
            old(network).wf(),
        ensures
            final(network).wf(),
            final(network)@ == old(network)@.polled(self.endpoint()),
            match r {
                Ok(Some(e)) => old(network)@.inbox(self.endpoint()).len() > 0 && e@ == old(
                    network,
                )@.inbox(self.endpoint())[0],
                Ok(None) => old(network)@.inbox(self.endpoint()).len() == 0,
                Err(_) => false,
            },
    {
        proof {
            use_type_invariant(self);
        }
        let ghost target = network@.polled(self.endpoint());
        let event = if self.local == 0 {
            network.inbox0.pop_front()
        } else {
            network.inbox1.pop_front()
        };
        network.origins = Ghost(target.origins);
        network.received = Ghost(target.received);
        proof {
            lemma_polled_inv(old(network)@, self.endpoint());
            lemma_ledger_polled(old(network)@, self.endpoint());
            assert(network@.inboxes.0 =~= old(network)@.polled(self.endpoint()).inboxes.0);
            assert(network@.inboxes.1 =~= old(network)@.polled(self.endpoint()).inboxes.1);
        }
        Ok(event)
    }
}

} // verus!
