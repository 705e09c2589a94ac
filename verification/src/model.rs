//! The mathematical model of the seeded in-memory network: its state, the
//! pseudo-random stream that decides faults, and the effect of each operation.
use crate::memory::{
    NetworkConditions, NetworkError, NetworkStats, GAMEPLAY, MAX_BPS, MAX_PAYLOAD, MAX_QUEUED,
};
use crate::time::{MAX_NANOS, NANOS_PER_MILLI};
use crate::transport::EventView;
use crate::types::{ChannelId, PeerId};
use vstd::multiset::Multiset;
use vstd::prelude::*;

verus! {

/// Multiplier of the linear congruential generator.
pub const LCG_MULTIPLIER: u64 = 6364136223846793005;

/// Increment of the linear congruential generator.
pub const LCG_INCREMENT: u64 = 1442695040888963407;

/// The generator state that follows `x`, with wrapping 64-bit arithmetic.
#[verifier::opaque]
pub open spec fn lcg_step(x: u64) -> u64 {
    vstd::wrapping::u64_specs::wrapping_add(
        vstd::wrapping::u64_specs::wrapping_mul(x, LCG_MULTIPLIER),
        LCG_INCREMENT,
    )
}

/// The value drawn from generator state `x`: the high 48 bits of the next state.
pub open spec fn lcg_draw(x: u64) -> u64 {
    lcg_step(x) >> 16u64
}

/// Whether a draw from state `x` falls under a rate of `bps` basis points.
pub open spec fn hits(x: u64, bps: u16) -> bool {
    lcg_draw(x) % 10_000 < bps as u64
}

/// A packet in flight: when it becomes deliverable (virtual nanoseconds),
/// which endpoint receives it, and what that endpoint will observe.
pub struct PacketView {
    pub due: nat,
    pub destination: nat,
    pub event: EventView,
    /// The send that this is a copy of: the sending endpoint and the index
    /// of the send among those it had accepted.
    pub origin: (int, int),
}

/// The origin recorded for a connection event, which copies no send.
pub open spec fn no_origin() -> (int, int) {
    (-1, -1)
}

/// The origins of packets `s`, in order.
pub open spec fn packet_origins(s: Seq<PacketView>) -> Seq<(int, int)> {
    s.map_values(|p: PacketView| p.origin)
}

/// The whole state of a simulated network.
pub struct NetworkView {
    /// Virtual time, in nanoseconds.
    pub now: nat,
    /// Generator state.
    pub rng: u64,
    /// The peer of endpoint 0 and of endpoint 1.
    pub peers: (PeerId, PeerId),
    pub connected: bool,
    pub conditions: NetworkConditions,
    /// Packets in flight, in delivery order.
    pub packets: Seq<PacketView>,
    /// Events waiting to be polled at endpoint 0 and at endpoint 1.
    pub inboxes: (Seq<EventView>, Seq<EventView>),
    pub stats: NetworkStats,
    /// The payloads of every send accepted from endpoint 0 and from
    /// endpoint 1, in order (a record for proofs; nothing reads it).
    pub accepted: (Seq<Seq<u8>>, Seq<Seq<u8>>),
    /// For each waiting event at endpoint 0 and at endpoint 1, the send it
    /// is a copy of (`no_origin()` for connection events).
    pub origins: (Seq<(int, int)>, Seq<(int, int)>),
    /// For each send accepted from endpoint 0 and from endpoint 1, how many
    /// copies it was given: 0 when lost, 2 when duplicated, otherwise 1.
    pub copies: (Seq<nat>, Seq<nat>),
    /// The sends of which a copy has been polled, once for every copy polled.
    pub received: Multiset<(int, int)>,
}

/// Whether every loss, duplication and reordering rate is at most 100%.
pub open spec fn conditions_valid(c: NetworkConditions) -> bool {
    &&& c.loss_bps <= MAX_BPS
    &&& c.duplicate_bps <= MAX_BPS
    &&& c.reorder_bps <= MAX_BPS
}

/// The largest delay, in milliseconds, that the conditions can give a packet.
pub open spec fn max_delay_ms(c: NetworkConditions) -> nat {
    (c.latency_ms + c.jitter_ms + c.reorder_delay_ms) as nat
}

/// Whether packets are ordered by their due time.
pub open spec fn sorted_by_due(s: Seq<PacketView>) -> bool {
    forall|i: int, j: int| 0 <= i <= j < s.len() ==> s[i].due <= s[j].due
}

/// Scanning from the back, the position just after the last packet due at or
/// before `d`: where a packet due at `d` goes after all that precede it.
pub open spec fn insertion_point(s: Seq<PacketView>, d: nat) -> nat
    decreases s.len(),
{
    if s.len() == 0 {
        0
    } else if d < s.last().due {
        insertion_point(s.drop_last(), d)
    } else {
        s.len()
    }
}

/// `s` with `p` placed after every packet due no later than `p`.
pub open spec fn insert_by_due(s: Seq<PacketView>, p: PacketView) -> Seq<PacketView> {
    let k = insertion_point(s, p.due) as int;
    s.take(k) + seq![p] + s.skip(k)
}

/// The origins of the packets `s` that go to endpoint `d`, in order.
pub open spec fn origins_for(s: Seq<PacketView>, d: nat) -> Seq<(int, int)>
    decreases s.len(),
{
    if s.len() == 0 {
        seq![]
    } else if s.last().destination == d {
        origins_for(s.drop_last(), d).push(s.last().origin)
    } else {
        origins_for(s.drop_last(), d)
    }
}

/// The events that packets `s` carry to endpoint `d`, in order.
pub open spec fn events_for(s: Seq<PacketView>, d: nat) -> Seq<EventView>
    decreases s.len(),
{
    if s.len() == 0 {
        seq![]
    } else if s.last().destination == d {
        events_for(s.drop_last(), d).push(s.last().event)
    } else {
        events_for(s.drop_last(), d)
    }
}

impl NetworkView {
    /// The peer reached through endpoint `i`.
    pub open spec fn peer(self, i: int) -> PeerId {
        if i == 0 {
            self.peers.0
        } else {
            self.peers.1
        }
    }

    /// The events waiting at endpoint `i`.
    pub open spec fn inbox(self, i: int) -> Seq<EventView> {
        if i == 0 {
            self.inboxes.0
        } else {
            self.inboxes.1
        }
    }

    /// The payloads of the sends accepted from endpoint `i`.
    pub open spec fn accepted_from(self, i: int) -> Seq<Seq<u8>> {
        if i == 0 {
            self.accepted.0
        } else {
            self.accepted.1
        }
    }

    /// Whether `e` may wait at endpoint `i`: a connection event names the
    /// other endpoint's peer and matches the connection state, and a message
    /// comes from the other endpoint's peer on the gameplay channel, with a
    /// payload within the size limit that endpoint had accepted for sending.
    pub open spec fn event_fits(self, e: EventView, i: int) -> bool {
        match e {
            EventView::Connected(p) => self.connected && p == self.peer(1 - i),
            EventView::Disconnected(p) => !self.connected && p == self.peer(1 - i),
            EventView::Message { peer, channel, payload } => {
                &&& self.connected
                &&& peer == self.peer(1 - i)
                &&& channel.0 == GAMEPLAY
                &&& payload.len() <= MAX_PAYLOAD
                &&& self.accepted_from(1 - i).contains(payload)
            },
        }
    }

    /// Whether `p` may be in flight: a message, addressed to an endpoint,
    /// that fits there, due within the time range.
    pub open spec fn packet_fits(self, p: PacketView) -> bool {
        &&& p.event is Message
        &&& p.destination < 2
        &&& p.due <= MAX_NANOS
        &&& self.event_fits(p.event, p.destination as int)
    }

    /// What every packet in flight and every waiting event satisfies; a
    /// disconnected network has nothing in flight and at most the one
    /// `Disconnected` event at each endpoint.
    pub open spec fn traffic_inv(self) -> bool {
        &&& forall|k: int| 0 <= k < self.packets.len() ==> self.packet_fits(#[trigger] self.packets[k])
        &&& forall|k: int| 0 <= k < self.inboxes.0.len() ==> self.event_fits(#[trigger] self.inboxes.0[k], 0)
        &&& forall|k: int| 0 <= k < self.inboxes.1.len() ==> self.event_fits(#[trigger] self.inboxes.1[k], 1)
        &&& !self.connected ==> {
            &&& self.packets.len() == 0
            &&& self.inboxes.0.len() <= 1
            &&& self.inboxes.1.len() <= 1
        }
    }

    /// The origins of the events waiting at endpoint `i`.
    pub open spec fn origins_at(self, i: int) -> Seq<(int, int)> {
        if i == 0 {
            self.origins.0
        } else {
            self.origins.1
        }
    }

    /// How many copies each send accepted from endpoint `i` was given.
    pub open spec fn copies_of(self, i: int) -> Seq<nat> {
        if i == 0 {
            self.copies.0
        } else {
            self.copies.1
        }
    }

    /// The copy counts once endpoint `local` has had one more send accepted,
    /// given `n` copies.
    pub open spec fn copies_logged(self, local: int, n: nat) -> (Seq<nat>, Seq<nat>) {
        if local == 0 {
            (self.copies.0.push(n), self.copies.1)
        } else {
            (self.copies.0, self.copies.1.push(n))
        }
    }

    /// Whether `o` names a send accepted from an endpoint.
    pub open spec fn valid_send(self, o: (int, int)) -> bool {
        &&& (o.0 == 0 || o.0 == 1)
        &&& 0 <= o.1 < self.copies_of(o.0).len()
    }

    /// Whether `o` may be the origin of event `e` at endpoint `i`: a message
    /// copies a send accepted from the other endpoint, with that send's
    /// payload; a connection event copies none.
    pub open spec fn origin_fits(self, o: (int, int), e: EventView, i: int) -> bool {
        match e {
            EventView::Message { payload, .. } => {
                &&& o.0 == 1 - i
                &&& 0 <= o.1 < self.accepted_from(1 - i).len()
                &&& payload == self.accepted_from(1 - i)[o.1]
            },
            _ => o == no_origin(),
        }
    }

    /// Every copy in existence or already polled, counted by the send it copies.
    pub open spec fn tally(self) -> Multiset<(int, int)> {
        packet_origins(self.packets).to_multiset().add(self.origins.0.to_multiset()).add(
            self.origins.1.to_multiset(),
        ).add(self.received)
    }

    /// How copies relate to sends: each packet and waiting message records
    /// the send it copies, and no send has more copies in flight, waiting or
    /// polled than it was given.
    pub open spec fn ledger_inv(self) -> bool {
        &&& self.origins.0.len() == self.inboxes.0.len()
        &&& self.origins.1.len() == self.inboxes.1.len()
        &&& self.copies.0.len() == self.accepted.0.len()
        &&& self.copies.1.len() == self.accepted.1.len()
        &&& forall|j: int| 0 <= j < self.copies.0.len() ==> #[trigger] self.copies.0[j] <= 2
        &&& forall|j: int| 0 <= j < self.copies.1.len() ==> #[trigger] self.copies.1[j] <= 2
        &&& forall|k: int|
            0 <= k < self.packets.len() ==> self.origin_fits(
                #[trigger] self.packets[k].origin,
                self.packets[k].event,
                self.packets[k].destination as int,
            )
        &&& forall|k: int|
            0 <= k < self.origins.0.len() ==> self.origin_fits(
                #[trigger] self.origins.0[k],
                self.inboxes.0[k],
                0,
            )
        &&& forall|k: int|
            0 <= k < self.origins.1.len() ==> self.origin_fits(
                #[trigger] self.origins.1[k],
                self.inboxes.1[k],
                1,
            )
        &&& forall|o: (int, int)| #[trigger] self.received.count(o) > 0 ==> self.valid_send(o)
        &&& forall|o: (int, int)|
            self.valid_send(o) ==> #[trigger] self.tally().count(o) <= self.copies_of(o.0)[o.1]
    }

    /// Packets in flight plus events waiting at either endpoint.
    pub open spec fn queued(self) -> nat {
        self.packets.len() + self.inboxes.0.len() + self.inboxes.1.len()
    }

    /// What holds of every reachable state.
    pub open spec fn inv(self) -> bool {
        &&& self.peers.0 != self.peers.1
        &&& conditions_valid(self.conditions)
        &&& self.now <= MAX_NANOS
        &&& sorted_by_due(self.packets)
        &&& self.traffic_inv()
        &&& self.queued() <= MAX_QUEUED
        &&& self.stats.dropped + self.stats.duplicated <= self.stats.sent
        &&& self.stats.sent + self.stats.duplicated <= u64::MAX
        &&& self.stats.delivered + self.packets.len() + self.stats.dropped <= self.stats.sent
            + self.stats.duplicated
        &&& self.connected ==> self.stats.delivered + self.packets.len() + self.stats.dropped
            == self.stats.sent + self.stats.duplicated
    }

    /// The packet that one copy of a message from endpoint `local` becomes
    /// when the generator stands at `r`: latency, plus jitter drawn from `r`,
    /// plus the reordering delay where the following draw hits.
    pub open spec fn scheduled(
        self,
        local: int,
        channel: ChannelId,
        bytes: Seq<u8>,
        r: u64,
    ) -> PacketView {
        let c = self.conditions;
        let jitter = lcg_draw(r) % (c.jitter_ms as u64 + 1) as u64;
        let reorder = if hits(lcg_step(r), c.reorder_bps) {
            c.reorder_delay_ms as int
        } else {
            0
        };
        PacketView {
            due: (self.now + (c.latency_ms + jitter + reorder) * NANOS_PER_MILLI) as nat,
            destination: (1 - local) as nat,
            event: EventView::Message { peer: self.peer(local), channel, payload: bytes },
            origin: (local, self.accepted_from(local).len() as int),
        }
    }

    /// Why a send from endpoint `local` is refused, checked in this order,
    /// or `None` when it is accepted.
    pub open spec fn send_refusal(
        self,
        local: int,
        peer: PeerId,
        channel: ChannelId,
        len: nat,
    ) -> Option<NetworkError> {
        if channel.0 != GAMEPLAY {
            Some(NetworkError::UnknownChannel)
        } else if len > MAX_PAYLOAD {
            Some(NetworkError::PayloadTooLarge)
        } else if peer != self.peer(1 - local) {
            Some(NetworkError::UnknownPeer)
        } else if !self.connected {
            Some(NetworkError::Disconnected)
        } else if self.queued() + 2 > MAX_QUEUED {
            Some(NetworkError::Backpressure)
        } else if self.now + max_delay_ms(self.conditions) * NANOS_PER_MILLI > MAX_NANOS {
            Some(NetworkError::TimeOverflow)
        } else {
            None
        }
    }

    /// The state after an accepted send of `bytes` from endpoint `local`:
    /// the first draw decides loss; otherwise the next decides duplication,
    /// and each copy then draws its jitter and its reordering.
    pub open spec fn transmitted(self, local: int, channel: ChannelId, bytes: Seq<u8>) -> NetworkView {
        let c = self.conditions;
        let counted = NetworkStats { sent: (self.stats.sent + 1) as u64, ..self.stats };
        let logged = if local == 0 {
            (self.accepted.0.push(bytes), self.accepted.1)
        } else {
            (self.accepted.0, self.accepted.1.push(bytes))
        };
        if hits(self.rng, c.loss_bps) {
            NetworkView {
                accepted: logged,
                copies: self.copies_logged(local, 0),
                rng: lcg_step(self.rng),
                stats: NetworkStats { dropped: (counted.dropped + 1) as u64, ..counted },
                ..self
            }
        } else {
            let r1 = lcg_step(self.rng);
            let r2 = lcg_step(r1);
            let first = self.scheduled(local, channel, bytes, r2);
            let r3 = lcg_step(lcg_step(r2));
            if hits(r1, c.duplicate_bps) {
                let second = self.scheduled(local, channel, bytes, r3);
                NetworkView {
                    accepted: logged,
                    copies: self.copies_logged(local, 2),
                    rng: lcg_step(lcg_step(r3)),
                    packets: insert_by_due(insert_by_due(self.packets, first), second),
                    stats: NetworkStats { duplicated: (counted.duplicated + 1) as u64, ..counted },
                    ..self
                }
            } else {
                NetworkView {
                    accepted: logged,
                    copies: self.copies_logged(local, 1),
                    rng: r3,
                    packets: insert_by_due(self.packets, first),
                    stats: counted,
                    ..self
                }
            }
        }
    }

    /// The state once virtual time reads `now`: every packet due by then
    /// moves, in order, to the inbox of its destination.
    pub open spec fn advanced(self, now: nat) -> NetworkView {
        let k = insertion_point(self.packets, now) as int;
        let ready = self.packets.take(k);
        NetworkView {
            now,
            packets: self.packets.skip(k),
            inboxes: (
                self.inboxes.0 + events_for(ready, 0),
                self.inboxes.1 + events_for(ready, 1),
            ),
            origins: (
                self.origins.0 + origins_for(ready, 0),
                self.origins.1 + origins_for(ready, 1),
            ),
            stats: NetworkStats { delivered: (self.stats.delivered + k) as u64, ..self.stats },
            ..self
        }
    }

    /// The state after a disconnect: traffic dropped, and each endpoint told
    /// once that its peer left. A second disconnect changes nothing.
    pub open spec fn disconnected(self) -> NetworkView {
        if !self.connected {
            self
        } else {
            NetworkView {
                connected: false,
                packets: seq![],
                inboxes: (
                    seq![EventView::Disconnected(self.peers.1)],
                    seq![EventView::Disconnected(self.peers.0)],
                ),
                origins: (seq![no_origin()], seq![no_origin()]),
                ..self
            }
        }
    }

    /// The state after endpoint `local` takes the first waiting event, if any.
    pub open spec fn polled(self, local: int) -> NetworkView {
        if self.inbox(local).len() == 0 {
            self
        } else {
            let received = if self.inbox(local)[0] is Message {
                self.received.insert(self.origins_at(local)[0])
            } else {
                self.received
            };
            if local == 0 {
                NetworkView {
                    inboxes: (self.inboxes.0.drop_first(), self.inboxes.1),
                    origins: (self.origins.0.drop_first(), self.origins.1),
                    received,
                    ..self
                }
            } else {
                NetworkView {
                    inboxes: (self.inboxes.0, self.inboxes.1.drop_first()),
                    origins: (self.origins.0, self.origins.1.drop_first()),
                    received,
                    ..self
                }
            }
        }
    }
}

/// A fresh network: time zero, generator seeded, connected, and each endpoint
/// holding one event that announces the other peer.
pub open spec fn initial_network(
    peers: (PeerId, PeerId),
    conditions: NetworkConditions,
    seed: u64,
) -> NetworkView {
    NetworkView {
        now: 0,
        rng: seed,
        peers,
        connected: true,
        conditions,
        packets: seq![],
        inboxes: (seq![EventView::Connected(peers.1)], seq![EventView::Connected(peers.0)]),
        stats: NetworkStats { sent: 0, dropped: 0, duplicated: 0, delivered: 0 },
        accepted: (seq![], seq![]),
        origins: (seq![no_origin()], seq![no_origin()]),
        copies: (seq![], seq![]),
        received: Multiset::empty(),
    }
}

/// Scanning back from the end stops at the right place: where the packets
/// are ordered by due time, exactly those before the insertion point are due
/// at or before `d`.
pub proof fn lemma_insertion_point(s: Seq<PacketView>, d: nat)
    requires
        sorted_by_due(s),
    ensures
        insertion_point(s, d) <= s.len(),
        forall|i: int| 0 <= i < insertion_point(s, d) ==> s[i].due <= d,
        forall|i: int| insertion_point(s, d) <= i < s.len() ==> d < s[i].due,
    decreases s.len(),
{
    if s.len() > 0 {
        let t = s.drop_last();
        if d < s.last().due {
            assert(sorted_by_due(t)) by {
                assert forall|i: int, j: int| 0 <= i <= j < t.len() implies t[i].due <= t[j].due by {
                    assert(t[i] == s[i] && t[j] == s[j]);
                }
            }
            lemma_insertion_point(t, d);
            assert forall|i: int| 0 <= i < insertion_point(s, d) implies s[i].due <= d by {
                assert(t[i] == s[i]);
            }
            assert forall|i: int| insertion_point(s, d) <= i < s.len() implies d < s[i].due by {
                if i < t.len() {
                    assert(t[i] == s[i]);
                }
            }
        } else {
            assert forall|i: int| 0 <= i < insertion_point(s, d) implies s[i].due <= d by {
                assert(s[i].due <= s[s.len() - 1].due);
            }
        }
    }
}

/// Scanning back over a prefix: the insertion point of `s.take(k)` steps to
/// that of `s.take(k - 1)` while the packet at `k - 1` is due after `d`, and
/// is `k` once it is not.
pub proof fn lemma_insertion_point_take(s: Seq<PacketView>, d: nat, k: int)
    requires
        0 < k <= s.len(),
    ensures
        d < s[k - 1].due ==> insertion_point(s.take(k), d) == insertion_point(s.take(k - 1), d),
        !(d < s[k - 1].due) ==> insertion_point(s.take(k), d) == k,
{
    assert(s.take(k).drop_last() =~= s.take(k - 1));
}

/// Delivery order is stable: a packet is placed after every packet due no
/// later than it (so among equal due times, earlier sends stay first) and
/// before every packet due later; the order by due time is kept.
pub proof fn lemma_insert_by_due(s: Seq<PacketView>, p: PacketView)
    requires
        sorted_by_due(s),
    ensures
        sorted_by_due(insert_by_due(s, p)),
        insert_by_due(s, p).len() == s.len() + 1,
        insert_by_due(s, p)[insertion_point(s, p.due) as int] == p,
        forall|i: int| 0 <= i < insertion_point(s, p.due) ==> s[i].due <= p.due,
        forall|i: int| insertion_point(s, p.due) <= i < s.len() ==> p.due < s[i].due,
        forall|q: PacketView| s.contains(q) ==> insert_by_due(s, p).contains(q),
        insert_by_due(s, p).contains(p),
{
    lemma_insertion_point(s, p.due);
    let k = insertion_point(s, p.due) as int;
    let t = insert_by_due(s, p);
    assert forall|i: int| 0 <= i < t.len() implies #[trigger] t[i] == (if i < k {
        s[i]
    } else if i == k {
        p
    } else {
        s[i - 1]
    }) by {}
    assert forall|q: PacketView| s.contains(q) implies t.contains(q) by {
        let j = choose|j: int| 0 <= j < s.len() && s[j] == q;
        if j < k {
            assert(t[j] == q);
        } else {
            assert(t[j + 1] == q);
        }
    }
    assert(t[k] == p);
}

/// The events of one more packet: those of the prefix, then its own where
/// it goes to `d`.
pub proof fn lemma_events_for_take(s: Seq<PacketView>, d: nat, i: int)
    requires
        0 <= i < s.len(),
    ensures
        events_for(s.take(i + 1), d) == if s[i].destination == d {
            events_for(s.take(i), d).push(s[i].event)
        } else {
            events_for(s.take(i), d)
        },
{
    assert(s.take(i + 1).drop_last() =~= s.take(i));
}

/// Every packet reaches exactly one of the two endpoints.
pub proof fn lemma_events_for_len(s: Seq<PacketView>)
    requires
        forall|i: int| 0 <= i < s.len() ==> #[trigger] s[i].destination < 2,
    ensures
        events_for(s, 0).len() + events_for(s, 1).len() == s.len(),
    decreases s.len(),
{
    if s.len() > 0 {
        let t = s.drop_last();
        assert forall|i: int| 0 <= i < t.len() implies #[trigger] t[i].destination < 2 by {
            assert(t[i] == s[i]);
        }
        lemma_events_for_len(t);
        assert(s.last().destination < 2);
    }
}

/// The tail of an ordered sequence is ordered.
pub proof fn lemma_sorted_skip(s: Seq<PacketView>, k: int)
    requires
        sorted_by_due(s),
        0 <= k <= s.len(),
    ensures
        sorted_by_due(s.skip(k)),
{
    let t = s.skip(k);
    assert forall|i: int, j: int| 0 <= i <= j < t.len() implies t[i].due <= t[j].due by {
        assert(t[i] == s[i + k] && t[j] == s[j + k]);
    }
}

/// The events that packets carry to `d` all fit at `d`, where each packet fits.
proof fn lemma_events_for_fit(v: NetworkView, s: Seq<PacketView>, d: nat)
    requires
        forall|k: int| 0 <= k < s.len() ==> v.packet_fits(#[trigger] s[k]),
    ensures
        forall|j: int|
            0 <= j < events_for(s, d).len() ==> v.event_fits(#[trigger] events_for(s, d)[j], d as int),
    decreases s.len(),
{
    if s.len() > 0 {
        let t = s.drop_last();
        assert forall|k: int| 0 <= k < t.len() implies v.packet_fits(#[trigger] t[k]) by {
            assert(t[k] == s[k]);
        }
        lemma_events_for_fit(v, t, d);
        assert(v.packet_fits(s[s.len() - 1]));
        if s.last().destination == d {
            let e = events_for(t, d).push(s.last().event);
            assert forall|j: int| 0 <= j < e.len() implies v.event_fits(#[trigger] e[j], d as int) by {
                if j < events_for(t, d).len() {
                    assert(e[j] == events_for(t, d)[j]);
                }
            }
        }
    }
}

/// Waiting events that fit still fit after more of them arrive.
proof fn lemma_append_fits(v: NetworkView, a: Seq<EventView>, b: Seq<EventView>, d: int)
    requires
        forall|k: int| 0 <= k < a.len() ==> v.event_fits(#[trigger] a[k], d),
        forall|k: int| 0 <= k < b.len() ==> v.event_fits(#[trigger] b[k], d),
    ensures
        forall|k: int| 0 <= k < (a + b).len() ==> v.event_fits(#[trigger] (a + b)[k], d),
{
    assert forall|k: int| 0 <= k < (a + b).len() implies v.event_fits(#[trigger] (a + b)[k], d) by {
        if k < a.len() {
            assert((a + b)[k] == a[k]);
        } else {
            assert((a + b)[k] == b[k - a.len()]);
        }
    }
}

/// Moving time forward and delivering what is due keeps every invariant:
/// nothing is lost or created on the way from flight to inbox.
pub proof fn lemma_advanced_inv(v: NetworkView, now: nat)
    requires
        v.inv(),
        now <= MAX_NANOS,
    ensures
        v.advanced(now).inv(),
{
    lemma_insertion_point(v.packets, now);
    let k = insertion_point(v.packets, now) as int;
    let ready = v.packets.take(k);
    let rest = v.packets.skip(k);
    let w = v.advanced(now);
    assert forall|i: int| 0 <= i < ready.len() implies v.packet_fits(#[trigger] ready[i]) && ready[
        i].destination < 2 by {
        assert(ready[i] == v.packets[i]);
    }
    lemma_events_for_len(ready);
    lemma_events_for_fit(v, ready, 0);
    lemma_events_for_fit(v, ready, 1);
    lemma_append_fits(v, v.inboxes.0, events_for(ready, 0), 0);
    lemma_append_fits(v, v.inboxes.1, events_for(ready, 1), 1);
    lemma_sorted_skip(v.packets, k);
    assert forall|i: int| 0 <= i < rest.len() implies w.packet_fits(#[trigger] rest[i]) by {
        assert(rest[i] == v.packets[i + k]);
        assert(v.packet_fits(v.packets[i + k]));
    }
    assert forall|i: int| 0 <= i < w.inboxes.0.len() implies w.event_fits(
        #[trigger] w.inboxes.0[i],
        0,
    ) by {
        assert(v.event_fits(w.inboxes.0[i], 0));
    }
    assert forall|i: int| 0 <= i < w.inboxes.1.len() implies w.event_fits(
        #[trigger] w.inboxes.1[i],
        1,
    ) by {
        assert(v.event_fits(w.inboxes.1[i], 1));
    }
    if !v.connected {
        assert(ready.len() == 0);
        assert(events_for(ready, 0) =~= Seq::<EventView>::empty());
        assert(events_for(ready, 1) =~= Seq::<EventView>::empty());
    }
}

/// A copy scheduled within the worst-case delay lies within the time range
/// and goes to the other endpoint.
pub proof fn lemma_scheduled_bounds(
    v: NetworkView,
    local: int,
    channel: ChannelId,
    bytes: Seq<u8>,
    r: u64,
)
    requires
        0 <= local < 2,
        v.now + max_delay_ms(v.conditions) * NANOS_PER_MILLI <= MAX_NANOS,
    ensures
        v.scheduled(local, channel, bytes, r).due <= MAX_NANOS,
        v.scheduled(local, channel, bytes, r).due >= v.now,
        v.scheduled(local, channel, bytes, r).destination == 1 - local,
{
    let c = v.conditions;
    let jitter = lcg_draw(r) % (c.jitter_ms as u64 + 1) as u64;
    assert(jitter <= c.jitter_ms);
}

/// Putting a packet that fits in flight keeps the packets ordered and fitting.
proof fn lemma_insert_keeps_packets(w: NetworkView, s: Seq<PacketView>, p: PacketView)
    requires
        sorted_by_due(s),
        forall|i: int| 0 <= i < s.len() ==> w.packet_fits(#[trigger] s[i]),
        w.packet_fits(p),
    ensures
        sorted_by_due(insert_by_due(s, p)),
        insert_by_due(s, p).len() == s.len() + 1,
        forall|i: int|
            0 <= i < insert_by_due(s, p).len() ==> w.packet_fits(#[trigger] insert_by_due(s, p)[i]),
{
    lemma_insert_by_due(s, p);
    lemma_insertion_point(s, p.due);
    let k = insertion_point(s, p.due) as int;
    let t = insert_by_due(s, p);
    assert forall|i: int| 0 <= i < t.len() implies w.packet_fits(#[trigger] t[i]) by {
        if i < k {
            assert(t[i] == s[i]);
        } else if i > k {
            assert(t[i] == s[i - 1]);
        }
    }
}

/// Whatever fits in `v` still fits once endpoint `local` has accepted one
/// more payload, and that payload now counts as accepted.
proof fn lemma_logging_keeps_fit(v: NetworkView, w: NetworkView, local: int, bytes: Seq<u8>)
    requires
        0 <= local < 2,
        w.peers == v.peers,
        w.connected == v.connected,
        w.accepted_from(local) == v.accepted_from(local).push(bytes),
        w.accepted_from(1 - local) == v.accepted_from(1 - local),
    ensures
        forall|e: EventView, i: int| 0 <= i < 2 && v.event_fits(e, i) ==> w.event_fits(e, i),
        forall|p: PacketView| v.packet_fits(p) ==> w.packet_fits(p),
        w.accepted_from(local).contains(bytes),
{
    assert forall|e: EventView, i: int| 0 <= i < 2 && v.event_fits(e, i) implies w.event_fits(
        e,
        i,
    ) by {
        if let EventView::Message { peer, channel, payload } = e {
            let j = choose|j: int|
                0 <= j < v.accepted_from(1 - i).len() && #[trigger] v.accepted_from(1 - i)[j]
                    == payload;
            assert(w.accepted_from(1 - i)[j] == payload);
        }
    }
    assert(w.accepted_from(local)[v.accepted_from(local).len() as int] == bytes);
}

/// An accepted send keeps every invariant: the queue bound holds because a
/// send is refused unless room for a duplicate remains, every accepted
/// message is counted as dropped or as one or two packets in flight, and
/// each copy names its sender, the gameplay channel and an accepted payload.
pub proof fn lemma_transmitted_inv(v: NetworkView, local: int, channel: ChannelId, bytes: Seq<u8>)
    requires
        v.inv(),
        0 <= local < 2,
        v.connected,
        channel.0 == GAMEPLAY,
        bytes.len() <= MAX_PAYLOAD,
        v.queued() + 2 <= MAX_QUEUED,
        v.now + max_delay_ms(v.conditions) * NANOS_PER_MILLI <= MAX_NANOS,
        v.stats.sent + v.stats.duplicated + 2 <= u64::MAX,
    ensures
        v.transmitted(local, channel, bytes).inv(),
{
    let c = v.conditions;
    let w = v.transmitted(local, channel, bytes);
    let r1 = lcg_step(v.rng);
    let r2 = lcg_step(r1);
    let r3 = lcg_step(lcg_step(r2));
    let first = v.scheduled(local, channel, bytes, r2);
    let second = v.scheduled(local, channel, bytes, r3);
    lemma_scheduled_bounds(v, local, channel, bytes, r2);
    lemma_scheduled_bounds(v, local, channel, bytes, r3);
    lemma_logging_keeps_fit(v, w, local, bytes);
    assert(w.packet_fits(first));
    assert(w.packet_fits(second));
    assert forall|i: int| 0 <= i < v.packets.len() implies w.packet_fits(#[trigger] v.packets[i]) by {
        assert(v.packet_fits(v.packets[i]));
    }
    assert forall|k: int| 0 <= k < w.inboxes.0.len() implies w.event_fits(#[trigger] w.inboxes.0[k], 0) by {
        assert(v.event_fits(v.inboxes.0[k], 0));
    }
    assert forall|k: int| 0 <= k < w.inboxes.1.len() implies w.event_fits(#[trigger] w.inboxes.1[k], 1) by {
        assert(v.event_fits(v.inboxes.1[k], 1));
    }
    lemma_insert_keeps_packets(w, v.packets, first);
    lemma_insert_keeps_packets(w, insert_by_due(v.packets, first), second);
}

/// Disconnecting keeps every invariant.
pub proof fn lemma_disconnected_inv(v: NetworkView)
    requires
        v.inv(),
    ensures
        v.disconnected().inv(),
{
    let w = v.disconnected();
    if v.connected {
        assert(w.event_fits(w.inboxes.0[0], 0));
        assert(w.event_fits(w.inboxes.1[0], 1));
    }
}

/// Polling keeps every invariant.
pub proof fn lemma_polled_inv(v: NetworkView, local: int)
    requires
        v.inv(),
    ensures
        v.polled(local).inv(),
{
    let w = v.polled(local);
    assert forall|k: int| 0 <= k < w.inboxes.0.len() implies w.event_fits(#[trigger] w.inboxes.0[k], 0) by {
        if w.inboxes.0.len() < v.inboxes.0.len() {
            assert(w.inboxes.0[k] == v.inboxes.0[k + 1]);
        }
    }
    assert forall|k: int| 0 <= k < w.inboxes.1.len() implies w.event_fits(#[trigger] w.inboxes.1[k], 1) by {
        if w.inboxes.1.len() < v.inboxes.1.len() {
            assert(w.inboxes.1[k] == v.inboxes.1[k + 1]);
        }
    }
}

/// A fresh network satisfies every invariant.
pub proof fn lemma_initial_inv(peers: (PeerId, PeerId), conditions: NetworkConditions, seed: u64)
    requires
        peers.0 != peers.1,
        conditions_valid(conditions),
    ensures
        initial_network(peers, conditions, seed).inv(),
{
    let v = initial_network(peers, conditions, seed);
    assert(v.event_fits(v.inboxes.0[0], 0));
    assert(v.event_fits(v.inboxes.1[0], 1));
}

} // verus!
