//! Properties of the seeded network that hold across operations and states.
use crate::memory::{
    NetworkConditions, NetworkError, NetworkStats, GAMEPLAY, MAX_BPS, MAX_PAYLOAD, MAX_QUEUED,
};
use crate::model::{
    conditions_valid, initial_network, lcg_step, max_delay_ms, events_for, hits, origins_for, insert_by_due, insertion_point, lemma_insertion_point, sorted_by_due,
    NetworkView, PacketView,
};
use crate::time::{MAX_NANOS, NANOS_PER_MILLI};
use crate::transport::EventView;
use crate::types::{ChannelId, PeerId};
use vstd::prelude::*;

verus! {

/// A total loss rate drops every accepted message: the send is counted as
/// sent and as dropped, and nothing is put in flight.
pub proof fn law_total_loss_drops_everything(v: NetworkView, local: int, channel: ChannelId, bytes: Seq<u8>)
    requires
        v.inv(),
        v.stats.sent + v.stats.duplicated + 2 <= u64::MAX,
        v.conditions.loss_bps == MAX_BPS,
    ensures
        v.transmitted(local, channel, bytes).packets == v.packets,
        v.transmitted(local, channel, bytes).stats.sent == v.stats.sent + 1,
        v.transmitted(local, channel, bytes).stats.dropped == v.stats.dropped + 1,
        v.transmitted(local, channel, bytes).inboxes == v.inboxes,
{
    assert(hits(v.rng, v.conditions.loss_bps));
}

/// Each of the (at most two) copies of a message lengthens the flight by one.
proof fn two_insertions(v: NetworkView, local: int, channel: ChannelId, bytes: Seq<u8>)
    requires
        v.inv(),
    ensures
        forall|r: u64|
            #![trigger v.scheduled(local, channel, bytes, r)]
            insert_by_due(v.packets, v.scheduled(local, channel, bytes, r)).len() == v.packets.len()
                + 1 && sorted_by_due(insert_by_due(v.packets, v.scheduled(local, channel, bytes, r))),
        forall|r1: u64, r2: u64|
            #![trigger v.scheduled(local, channel, bytes, r1), v.scheduled(local, channel, bytes, r2)]
            insert_by_due(
                insert_by_due(v.packets, v.scheduled(local, channel, bytes, r1)),
                v.scheduled(local, channel, bytes, r2),
            ).len() == v.packets.len() + 2,
{
    assert forall|r: u64| #![trigger v.scheduled(local, channel, bytes, r)]
        insert_by_due(v.packets, v.scheduled(local, channel, bytes, r)).len() == v.packets.len() + 1
            && sorted_by_due(insert_by_due(v.packets, v.scheduled(local, channel, bytes, r))) by {
        crate::model::lemma_insert_by_due(v.packets, v.scheduled(local, channel, bytes, r));
    }
    assert forall|r1: u64, r2: u64|
        #![trigger v.scheduled(local, channel, bytes, r1), v.scheduled(local, channel, bytes, r2)]
        insert_by_due(
            insert_by_due(v.packets, v.scheduled(local, channel, bytes, r1)),
            v.scheduled(local, channel, bytes, r2),
        ).len() == v.packets.len() + 2 by {
        let s1 = insert_by_due(v.packets, v.scheduled(local, channel, bytes, r1));
        crate::model::lemma_insert_by_due(v.packets, v.scheduled(local, channel, bytes, r1));
        crate::model::lemma_insert_by_due(s1, v.scheduled(local, channel, bytes, r2));
    }
}

/// Without loss, a total duplication rate puts every accepted message in
/// flight twice.
pub proof fn law_total_duplication_doubles(v: NetworkView, local: int, channel: ChannelId, bytes: Seq<u8>)
    requires
        v.inv(),
        v.stats.sent + v.stats.duplicated + 2 <= u64::MAX,
        v.conditions.loss_bps == 0,
        v.conditions.duplicate_bps == MAX_BPS,
    ensures
        v.transmitted(local, channel, bytes).packets.len() == v.packets.len() + 2,
        v.transmitted(local, channel, bytes).stats.sent == v.stats.sent + 1,
        v.transmitted(local, channel, bytes).stats.duplicated == v.stats.duplicated + 1,
        v.transmitted(local, channel, bytes).stats.dropped == v.stats.dropped,
{
    assert(!hits(v.rng, 0));
    two_insertions(v, local, channel, bytes);
}

/// Without loss or duplication, every accepted message is put in flight
/// exactly once.
pub proof fn law_no_faults_one_copy(v: NetworkView, local: int, channel: ChannelId, bytes: Seq<u8>)
    requires
        v.inv(),
        v.stats.sent + v.stats.duplicated + 2 <= u64::MAX,
        v.conditions.loss_bps == 0,
        v.conditions.duplicate_bps == 0,
    ensures
        v.transmitted(local, channel, bytes).packets.len() == v.packets.len() + 1,
        v.transmitted(local, channel, bytes).stats.sent == v.stats.sent + 1,
        v.transmitted(local, channel, bytes).stats.duplicated == v.stats.duplicated,
        v.transmitted(local, channel, bytes).stats.dropped == v.stats.dropped,
{
    assert(!hits(v.rng, 0));
    assert(!hits(crate::model::lcg_step(v.rng), 0));
    two_insertions(v, local, channel, bytes);
}

/// Without jitter or reordering delay, a copy is due exactly the latency
/// after the time it was sent, and it carries the sender's peer identity
/// to the other endpoint.
pub proof fn law_latency_without_jitter(
    v: NetworkView,
    local: int,
    channel: ChannelId,
    bytes: Seq<u8>,
    r: u64,
)
    requires
        0 <= local < 2,
        v.conditions.jitter_ms == 0,
        v.conditions.reorder_delay_ms == 0,
    ensures
        v.scheduled(local, channel, bytes, r).due == v.now + v.conditions.latency_ms
            * NANOS_PER_MILLI,
        v.scheduled(local, channel, bytes, r).destination == 1 - local,
        v.scheduled(local, channel, bytes, r).event == (EventView::Message {
            peer: v.peer(local),
            channel,
            payload: bytes,
        }),
{
    let x = crate::model::lcg_draw(r);
    assert(x % 1u64 == 0);
}

/// Advancing delivers exactly the packets due by the new time: every packet
/// still in flight is due later, and none due by then is left behind.
pub proof fn law_advance_delivers_exactly_what_is_due(v: NetworkView, now: nat)
    requires
        v.inv(),
    ensures
        forall|i: int|
            0 <= i < v.advanced(now).packets.len() ==> now < #[trigger] v.advanced(
                now,
            ).packets[i].due,
        v.advanced(now).stats.delivered == v.stats.delivered + (v.packets.len()
            - v.advanced(now).packets.len()),
        forall|i: int|
            0 <= i < v.packets.len() - v.advanced(now).packets.len() ==> #[trigger] v.packets[i].due
                <= now,
{
    lemma_insertion_point(v.packets, now);
    let k = insertion_point(v.packets, now) as int;
    assert forall|i: int| 0 <= i < v.advanced(now).packets.len() implies now < #[trigger] v.advanced(
        now,
    ).packets[i].due by {
        assert(v.advanced(now).packets[i] == v.packets[i + k]);
    }
}

/// Polling does not advance virtual time, and changes nothing but the
/// polling endpoint's inbox.
pub proof fn law_poll_keeps_time(v: NetworkView, local: int)
    requires
        0 <= local < 2,
    ensures
        v.polled(local).now == v.now,
        v.polled(local).packets == v.packets,
        v.polled(local).stats == v.stats,
        v.polled(local).rng == v.rng,
        v.polled(local).connected == v.connected,
        v.polled(local).inbox(1 - local) == v.inbox(1 - local),
{
}

/// Disconnecting twice is disconnecting once; afterwards nothing is in
/// flight and each endpoint holds exactly one event, naming the peer that left.
pub proof fn law_disconnect_is_idempotent(v: NetworkView)
    ensures
        v.disconnected().disconnected() == v.disconnected(),
        !v.disconnected().connected,
        v.connected ==> v.disconnected().packets.len() == 0,
        v.connected ==> v.disconnected().inbox(0) == seq![EventView::Disconnected(v.peer(1))],
        v.connected ==> v.disconnected().inbox(1) == seq![EventView::Disconnected(v.peer(0))],
{
}

/// Once disconnected, a network refuses every well-formed send with
/// `Disconnected`, whatever time passes.
pub proof fn law_disconnected_refuses_sends(
    v: NetworkView,
    local: int,
    channel: ChannelId,
    len: nat,
    now: nat,
)
    requires
        channel.0 == GAMEPLAY,
        len <= MAX_PAYLOAD,
    ensures
        v.disconnected().send_refusal(local, v.peer(1 - local), channel, len) == Some(
            crate::memory::NetworkError::Disconnected,
        ),
        v.disconnected().advanced(now).send_refusal(local, v.peer(1 - local), channel, len)
            == Some(crate::memory::NetworkError::Disconnected),
{
}

/// The step behind seeded repeatability: each operation of the model gives a
/// result and a new state that depend only on the state it starts from
/// (generator seed included) and its arguments. Determinism of whole call
/// histories is not a separate theorem here: it follows from the contracts of
/// `pair`, `send`, `advance`, `poll`, `disconnect` and `stats`, each of which
/// equates its result and the network's new state with these functions of
/// the old state and the arguments, by induction on the history.
pub proof fn law_same_state_same_outcome(
    v: NetworkView,
    w: NetworkView,
    local: int,
    peer: PeerId,
    channel: ChannelId,
    bytes: Seq<u8>,
    now: nat,
)
    requires
        v == w,
    ensures
        v.send_refusal(local, peer, channel, bytes.len()) == w.send_refusal(
            local,
            peer,
            channel,
            bytes.len(),
        ),
        v.transmitted(local, channel, bytes) == w.transmitted(local, channel, bytes),
        v.advanced(now) == w.advanced(now),
        v.polled(local) == w.polled(local),
        v.disconnected() == w.disconnected(),
{
}

/// The events of two runs of packets are those of the first, then those of
/// the second.
proof fn lemma_events_for_append(a: Seq<PacketView>, b: Seq<PacketView>, d: nat)
    ensures
        events_for(a + b, d) == events_for(a, d) + events_for(b, d),
    decreases b.len(),
{
    if b.len() == 0 {
        assert(a + b =~= a);
        assert(events_for(a, d) + events_for(b, d) =~= events_for(a, d));
    } else {
        lemma_events_for_append(a, b.drop_last(), d);
        assert((a + b).drop_last() =~= a + b.drop_last());
        assert((a + b).last() == b.last());
        if b.last().destination == d {
            assert(events_for(a, d) + events_for(b.drop_last(), d).push(b.last().event) =~= (
            events_for(a, d) + events_for(b.drop_last(), d)).push(b.last().event));
        }
    }
}

/// The origins of two runs of packets are those of the first, then those
/// of the second.
proof fn lemma_origins_for_append(a: Seq<PacketView>, b: Seq<PacketView>, d: nat)
    ensures
        origins_for(a + b, d) == origins_for(a, d) + origins_for(b, d),
    decreases b.len(),
{
    if b.len() == 0 {
        assert(a + b =~= a);
        assert(origins_for(a, d) + origins_for(b, d) =~= origins_for(a, d));
    } else {
        lemma_origins_for_append(a, b.drop_last(), d);
        assert((a + b).drop_last() =~= a + b.drop_last());
        assert((a + b).last() == b.last());
        if b.last().destination == d {
            assert(origins_for(a, d) + origins_for(b.drop_last(), d).push(b.last().origin) =~= (
            origins_for(a, d) + origins_for(b.drop_last(), d)).push(b.last().origin));
        }
    }
}

/// In an ordered sequence, the insertion point is the one index with every
/// packet before it due at or before `d` and every packet from it on due later.
proof fn lemma_insertion_point_unique(s: Seq<PacketView>, d: nat, k: int)
    requires
        sorted_by_due(s),
        0 <= k <= s.len(),
        forall|i: int| 0 <= i < k ==> #[trigger] s[i].due <= d,
        forall|i: int| k <= i < s.len() ==> d < #[trigger] s[i].due,
    ensures
        insertion_point(s, d) == k,
{
    lemma_insertion_point(s, d);
    let j = insertion_point(s, d) as int;
    if j < k {
        assert(s[j].due <= d);
    } else if k < j {
        assert(s[k].due <= d);
    }
}

/// Time steps compose: advancing to `t1` and then to `t2` leaves the network
/// exactly as advancing straight to `t2` does, with the same deliveries in
/// the same order.
pub proof fn law_advance_composes(v: NetworkView, t1: nat, t2: nat)
    requires
        v.inv(),
        t1 <= t2,
    ensures
        v.advanced(t1).advanced(t2) == v.advanced(t2),
{
    let p = v.packets;
    lemma_insertion_point(p, t1);
    lemma_insertion_point(p, t2);
    let k1 = insertion_point(p, t1) as int;
    let k2 = insertion_point(p, t2) as int;
    if k2 < k1 {
        assert(p[k2].due <= t1);
    }
    let rest = p.skip(k1);
    crate::model::lemma_sorted_skip(p, k1);
    assert forall|i: int| 0 <= i < k2 - k1 implies #[trigger] rest[i].due <= t2 by {
        assert(rest[i] == p[i + k1]);
    }
    assert forall|i: int| k2 - k1 <= i < rest.len() implies t2 < #[trigger] rest[i].due by {
        assert(rest[i] == p[i + k1]);
    }
    lemma_insertion_point_unique(rest, t2, k2 - k1);
    assert(p.take(k2) =~= p.take(k1) + rest.take(k2 - k1));
    lemma_events_for_append(p.take(k1), rest.take(k2 - k1), 0);
    lemma_events_for_append(p.take(k1), rest.take(k2 - k1), 1);
    lemma_origins_for_append(p.take(k1), rest.take(k2 - k1), 0);
    lemma_origins_for_append(p.take(k1), rest.take(k2 - k1), 1);
    assert(rest.skip(k2 - k1) =~= p.skip(k2));
    let a = v.advanced(t1).advanced(t2);
    let b = v.advanced(t2);
    assert(a.inboxes.0 =~= b.inboxes.0);
    assert(a.inboxes.1 =~= b.inboxes.1);
    assert(a.origins.0 =~= b.origins.0);
    assert(a.origins.1 =~= b.origins.1);
    assert(a.packets =~= b.packets);
}

/// A higher rate never turns a hit into a miss: with the generator in the
/// same state, whatever falls under `b1` basis points falls under `b2 >= b1`.
pub proof fn law_higher_rate_keeps_hits(x: u64, b1: u16, b2: u16)
    requires
        b1 <= b2,
    ensures
        hits(x, b1) ==> hits(x, b2),
{
}

/// In every reachable state at most `MAX_QUEUED` packets and events are
/// queued, and every message in flight to, or waiting at, an endpoint comes
/// from the other endpoint's peer on the gameplay channel, with a payload of
/// at most `MAX_PAYLOAD` bytes that the other endpoint had accepted for sending.
pub proof fn law_traffic_is_bounded_and_genuine(v: NetworkView)
    requires
        v.inv(),
    ensures
        v.queued() <= MAX_QUEUED,
        forall|k: int|
            #![trigger v.packets[k]]
            0 <= k < v.packets.len() ==> {
                let d = v.packets[k].destination as int;
                &&& d < 2
                &&& v.packets[k].event matches EventView::Message { peer, channel, payload }
                &&& peer == v.peer(1 - d)
                &&& channel.0 == GAMEPLAY
                &&& payload.len() <= MAX_PAYLOAD
                &&& v.accepted_from(1 - d).contains(payload)
            },
        forall|i: int, k: int|
            #![trigger v.inbox(i)[k]]
            0 <= i < 2 && 0 <= k < v.inbox(i).len() ==> (v.inbox(i)[k] matches EventView::Message {
                peer,
                channel,
                payload,
            } ==> {
                &&& peer == v.peer(1 - i)
                &&& channel.0 == GAMEPLAY
                &&& payload.len() <= MAX_PAYLOAD
                &&& v.accepted_from(1 - i).contains(payload)
            }),
{
    assert forall|i: int, k: int| #![trigger v.inbox(i)[k]] 0 <= i < 2 && 0 <= k < v.inbox(i).len() implies (v.inbox(
        i,
    )[k] matches EventView::Message { peer, channel, payload } ==> {
        &&& peer == v.peer(1 - i)
        &&& channel.0 == GAMEPLAY
        &&& payload.len() <= MAX_PAYLOAD
        &&& v.accepted_from(1 - i).contains(payload)
    }) by {
        if i == 0 {
            assert(v.event_fits(v.inboxes.0[k], 0));
        } else {
            assert(v.event_fits(v.inboxes.1[k], 1));
        }
    }
    assert forall|k: int| #![trigger v.packets[k]] 0 <= k < v.packets.len() implies {
        let d = v.packets[k].destination as int;
        &&& d < 2
        &&& v.packets[k].event matches EventView::Message { peer, channel, payload }
        &&& peer == v.peer(1 - d)
        &&& channel.0 == GAMEPLAY
        &&& payload.len() <= MAX_PAYLOAD
        &&& v.accepted_from(1 - d).contains(payload)
    } by {
        assert(v.packet_fits(v.packets[k]));
    }
}

/// A disconnected network stays disconnected and quiet: nothing is in flight,
/// each endpoint holds at most its one `Disconnected` event naming the peer
/// that left, every send is refused, advancing time delivers nothing and
/// changes no counter, disconnecting again changes nothing, and polling
/// empties an inbox for good.
pub proof fn law_disconnected_is_final(
    v: NetworkView,
    local: int,
    peer: PeerId,
    channel: ChannelId,
    len: nat,
    now: nat,
)
    requires
        v.inv(),
        !v.connected,
        0 <= local < 2,
    ensures
        v.packets.len() == 0,
        forall|i: int|
            0 <= i < 2 ==> v.inbox(i).len() == 0 || #[trigger] v.inbox(i) == seq![
                EventView::Disconnected(v.peer(1 - i)),
            ],
        v.send_refusal(local, peer, channel, len) is Some,
        channel.0 == GAMEPLAY && len <= MAX_PAYLOAD && peer == v.peer(1 - local) ==> v.send_refusal(
            local,
            peer,
            channel,
            len,
        ) == Some(crate::memory::NetworkError::Disconnected),
        !v.advanced(now).connected,
        v.advanced(now).packets.len() == 0,
        v.advanced(now).inboxes == v.inboxes,
        v.advanced(now).stats == v.stats,
        v.disconnected() == v,
        !v.polled(local).connected,
        v.polled(local).inbox(local).len() == 0,
        v.polled(local).inbox(1 - local) == v.inbox(1 - local),
{
    assert forall|i: int| 0 <= i < 2 implies v.inbox(i).len() == 0 || #[trigger] v.inbox(i) == seq![
        EventView::Disconnected(v.peer(1 - i)),
    ] by {
        if v.inbox(i).len() > 0 {
            if i == 0 {
                assert(v.event_fits(v.inboxes.0[0], 0));
            } else {
                assert(v.event_fits(v.inboxes.1[0], 1));
            }
            assert(v.inbox(i) =~= seq![EventView::Disconnected(v.peer(1 - i))]);
        }
    }
    assert(insertion_point(v.packets, now) == 0);
    assert(events_for(v.packets.take(0), 0) =~= Seq::<EventView>::empty());
    assert(events_for(v.packets.take(0), 1) =~= Seq::<EventView>::empty());
    assert(v.inboxes.0 + Seq::<EventView>::empty() =~= v.inboxes.0);
    assert(v.inboxes.1 + Seq::<EventView>::empty() =~= v.inboxes.1);
    assert(v.packets.skip(0) =~= v.packets);
}

/// No accepted send is received more often than it was copied, and no send
/// is copied more than twice: for every send accepted from either endpoint,
/// the copies of it polled so far number at most the copies it was given.
pub proof fn law_copies_per_send(v: NetworkView)
    requires
        v.inv(),
        v.ledger_inv(),
    ensures
        forall|o: (int, int)|
            v.valid_send(o) ==> #[trigger] v.received.count(o) <= v.copies_of(o.0)[o.1] <= 2,
{
    assert forall|o: (int, int)| v.valid_send(o) implies #[trigger] v.received.count(o)
        <= v.copies_of(o.0)[o.1] <= 2 by {
        assert(v.tally().count(o) >= v.received.count(o));
        if o.0 == 0 {
            assert(v.copies.0[o.1] <= 2);
        } else {
            assert(v.copies.1[o.1] <= 2);
        }
    }
}

/// An accepted send is recorded with its payload and the number of copies
/// it was given: none when it was dropped, two when it was duplicated, and
/// one otherwise; the other endpoint's record is untouched.
pub proof fn law_send_records_its_copies(v: NetworkView, local: int, channel: ChannelId, bytes: Seq<u8>)
    requires
        v.inv(),
        0 <= local < 2,
        v.stats.sent + v.stats.duplicated + 2 <= u64::MAX,
    ensures
        ({
            let w = v.transmitted(local, channel, bytes);
            let n = w.copies_of(local).last();
            &&& w.accepted_from(local) == v.accepted_from(local).push(bytes)
            &&& w.accepted_from(1 - local) == v.accepted_from(1 - local)
            &&& w.copies_of(1 - local) == v.copies_of(1 - local)
            &&& w.copies_of(local) == v.copies_of(local).push(n)
            &&& w.stats.sent == v.stats.sent + 1
            &&& (n == 0 <==> w.stats.dropped == v.stats.dropped + 1)
            &&& (n == 2 <==> w.stats.duplicated == v.stats.duplicated + 1)
            &&& (w.stats.dropped == v.stats.dropped || w.stats.dropped == v.stats.dropped + 1)
            &&& (w.stats.duplicated == v.stats.duplicated || w.stats.duplicated
                == v.stats.duplicated + 1)
            &&& n <= 2
        }),
{
}

/// Polling a message receives one copy of a send accepted from the other
/// endpoint: the message names that endpoint's peer and the gameplay
/// channel, carries that send's payload, and is counted as received.
pub proof fn law_poll_receives_a_copy(v: NetworkView, local: int)
    requires
        v.inv(),
        v.ledger_inv(),
        0 <= local < 2,
        v.inbox(local).len() > 0,
        v.inbox(local)[0] is Message,
    ensures
        ({
            let o = v.origins_at(local)[0];
            &&& o.0 == 1 - local
            &&& v.valid_send(o)
            &&& v.inbox(local)[0] matches EventView::Message { peer, channel, payload }
            &&& peer == v.peer(1 - local)
            &&& channel.0 == GAMEPLAY
            &&& payload == v.accepted_from(1 - local)[o.1]
            &&& v.polled(local).received == v.received.insert(o)
        }),
{
    if local == 0 {
        assert(v.origin_fits(v.origins.0[0], v.inboxes.0[0], 0));
        assert(v.event_fits(v.inboxes.0[0], 0));
    } else {
        assert(v.origin_fits(v.origins.1[0], v.inboxes.1[0], 1));
        assert(v.event_fits(v.inboxes.1[0], 1));
    }
}

/// Every accepted send draws from the seeded generator, dropped or not:
/// the loss decision is the draw at the generator's current state, a dropped
/// send leaves the generator one step on, a single copy four steps on and a
/// duplicated send six steps on, so successive sends draw successive values
/// of the seeded stream. An accepted send changes neither the time, the
/// connection, the waiting events nor the delivery count.
pub proof fn law_send_steps_generator(v: NetworkView, local: int, channel: ChannelId, bytes: Seq<u8>)
    requires
        v.inv(),
        0 <= local < 2,
        v.stats.sent + v.stats.duplicated + 2 <= u64::MAX,
    ensures
        ({
            let w = v.transmitted(local, channel, bytes);
            let lost = w.stats.dropped == v.stats.dropped + 1;
            let doubled = w.stats.duplicated == v.stats.duplicated + 1;
            &&& w.stats.sent == v.stats.sent + 1
            &&& (lost <==> hits(v.rng, v.conditions.loss_bps))
            &&& (!lost ==> w.stats.dropped == v.stats.dropped)
            &&& (lost ==> !doubled && w.stats.duplicated == v.stats.duplicated)
            &&& (!lost ==> (doubled <==> hits(lcg_step(v.rng), v.conditions.duplicate_bps)))
            &&& (!doubled ==> w.stats.duplicated == v.stats.duplicated)
            &&& (lost ==> w.rng == lcg_step(v.rng) && w.packets == v.packets)
            &&& (!lost && !doubled ==> w.rng == lcg_step(lcg_step(lcg_step(lcg_step(v.rng))))
                && w.packets.len() == v.packets.len() + 1)
            &&& (doubled ==> w.rng == lcg_step(
                lcg_step(lcg_step(lcg_step(lcg_step(lcg_step(v.rng))))),
            ) && w.packets.len() == v.packets.len() + 2)
            &&& w.now == v.now
            &&& w.connected == v.connected
            &&& w.peers == v.peers
            &&& w.conditions == v.conditions
            &&& w.inboxes == v.inboxes
            &&& w.stats.delivered == v.stats.delivered
        }),
{
    let r1 = lcg_step(v.rng);
    let r2 = lcg_step(r1);
    let r3 = lcg_step(lcg_step(r2));
    let first = v.scheduled(local, channel, bytes, r2);
    let second = v.scheduled(local, channel, bytes, r3);
    crate::model::lemma_insert_by_due(v.packets, first);
    crate::model::lemma_insert_by_due(insert_by_due(v.packets, first), second);
}

/// Every copy of an accepted send is due no earlier than the latency after
/// the time of sending and no later than the worst-case delay after it.
pub proof fn law_copies_are_due_within_the_delay(
    v: NetworkView,
    local: int,
    channel: ChannelId,
    bytes: Seq<u8>,
    r: u64,
)
    requires
        0 <= local < 2,
    ensures
        v.now + v.conditions.latency_ms * NANOS_PER_MILLI <= v.scheduled(local, channel, bytes, r).due,
        v.scheduled(local, channel, bytes, r).due <= v.now + max_delay_ms(v.conditions) * NANOS_PER_MILLI,
{
    let c = v.conditions;
    let jitter = crate::model::lcg_draw(r) % (c.jitter_ms as u64 + 1) as u64;
    assert(jitter <= c.jitter_ms);
}

/// Advancing time moves only time, packets, inboxes and the delivery
/// count: the generator, the connection, the conditions, the peers and the
/// other counters stay as they were, and waiting events stay first in line.
pub proof fn law_advance_leaves_generator_alone(v: NetworkView, now: nat)
    ensures
        v.advanced(now).now == now,
        v.advanced(now).rng == v.rng,
        v.advanced(now).connected == v.connected,
        v.advanced(now).conditions == v.conditions,
        v.advanced(now).peers == v.peers,
        v.advanced(now).stats.sent == v.stats.sent,
        v.advanced(now).stats.dropped == v.stats.dropped,
        v.advanced(now).stats.duplicated == v.stats.duplicated,
        v.advanced(now).accepted == v.accepted,
        v.advanced(now).copies == v.copies,
        v.advanced(now).received == v.received,
        v.advanced(now).inboxes.0.take(v.inboxes.0.len() as int) == v.inboxes.0,
        v.advanced(now).inboxes.1.take(v.inboxes.1.len() as int) == v.inboxes.1,
{
    let w = v.advanced(now);
    assert(w.inboxes.0.take(v.inboxes.0.len() as int) =~= v.inboxes.0);
    assert(w.inboxes.1.take(v.inboxes.1.len() as int) =~= v.inboxes.1);
}

/// Disconnecting drops traffic but keeps the record: the counters, the
/// generator, the time, the conditions and the peers stay as they were.
pub proof fn law_disconnect_keeps_counters(v: NetworkView)
    ensures
        v.disconnected().stats == v.stats,
        v.disconnected().rng == v.rng,
        v.disconnected().now == v.now,
        v.disconnected().conditions == v.conditions,
        v.disconnected().peers == v.peers,
        v.disconnected().accepted == v.accepted,
        v.disconnected().copies == v.copies,
        v.disconnected().received == v.received,
        !v.disconnected().connected,
{
}

/// Network conditions are valid exactly when the loss, duplication and
/// reordering rates are each at most 100%; latency, jitter and reordering
/// delay may take any value.
pub proof fn law_only_rates_are_validated(c: NetworkConditions)
    ensures
        conditions_valid(c) <==> (c.loss_bps <= 10_000 && c.duplicate_bps <= 10_000 && c.reorder_bps
            <= 10_000),
{
}

/// A fresh network starts at time zero with the generator at the seed,
/// connected, with nothing in flight, all counters zero, and each endpoint
/// holding exactly one event announcing the other peer.
pub proof fn law_fresh_network(peers: (PeerId, PeerId), c: NetworkConditions, seed: u64)
    ensures
        initial_network(peers, c, seed).now == 0,
        initial_network(peers, c, seed).rng == seed,
        initial_network(peers, c, seed).connected,
        initial_network(peers, c, seed).conditions == c,
        initial_network(peers, c, seed).peers == peers,
        initial_network(peers, c, seed).packets.len() == 0,
        initial_network(peers, c, seed).stats == (NetworkStats {
            sent: 0,
            dropped: 0,
            duplicated: 0,
            delivered: 0,
        }),
        initial_network(peers, c, seed).inbox(0) == seq![EventView::Connected(peers.1)],
        initial_network(peers, c, seed).inbox(1) == seq![EventView::Connected(peers.0)],
{
}

/// A send is accepted exactly when it goes to the other endpoint's peer on
/// the gameplay channel, with a payload within the limit, over a connected
/// network with room for two more queued items and the worst-case delay
/// within the time range. Each refusal names the first of these that fails.
pub proof fn law_send_acceptance(v: NetworkView, local: int, peer: PeerId, channel: ChannelId, len: nat)
    ensures
        v.send_refusal(local, peer, channel, len) is None <==> ({
            &&& channel.0 == GAMEPLAY
            &&& len <= MAX_PAYLOAD
            &&& peer == v.peer(1 - local)
            &&& v.connected
            &&& v.packets.len() + v.inboxes.0.len() + v.inboxes.1.len() + 2 <= MAX_QUEUED
            &&& v.now + max_delay_ms(v.conditions) * NANOS_PER_MILLI <= MAX_NANOS
        }),
        (v.send_refusal(local, peer, channel, len) == Some(NetworkError::UnknownChannel)) <==> channel.0
            != GAMEPLAY,
        v.send_refusal(local, peer, channel, len) == Some(NetworkError::PayloadTooLarge) <==> (
        channel.0 == GAMEPLAY && len > MAX_PAYLOAD),
        v.send_refusal(local, peer, channel, len) == Some(NetworkError::UnknownPeer) <==> (channel.0
            == GAMEPLAY && len <= MAX_PAYLOAD && peer != v.peer(1 - local)),
        v.send_refusal(local, peer, channel, len) == Some(NetworkError::Disconnected) <==> (
        channel.0 == GAMEPLAY && len <= MAX_PAYLOAD && peer == v.peer(1 - local) && !v.connected),
        v.send_refusal(local, peer, channel, len) == Some(NetworkError::Backpressure) <==> (
        channel.0 == GAMEPLAY && len <= MAX_PAYLOAD && peer == v.peer(1 - local) && v.connected
            && v.packets.len() + v.inboxes.0.len() + v.inboxes.1.len() + 2 > MAX_QUEUED),
        v.send_refusal(local, peer, channel, len) == Some(NetworkError::TimeOverflow) ==> v.now
            + max_delay_ms(v.conditions) * NANOS_PER_MILLI > MAX_NANOS,
{
}

/// Polling takes the first waiting event at the polling endpoint and
/// nothing else: the rest of that inbox stays in order.
pub proof fn law_poll_takes_the_first_event(v: NetworkView, local: int)
    requires
        0 <= local < 2,
    ensures
        v.inbox(local).len() > 0 ==> v.polled(local).inbox(local) == v.inbox(local).drop_first(),
        v.inbox(local).len() == 0 ==> v.polled(local) == v,
        v.polled(local).stats == v.stats,
{
}

/// The generator is the 64-bit linear congruential generator with
/// multiplier 6364136223846793005 and increment 1442695040888963407, and each
/// draw is the high 48 bits of the next state.
pub proof fn law_generator_is_the_seeded_lcg(x: u64)
    ensures
        lcg_step(x) == (x as int * 6364136223846793005 + 1442695040888963407) % 0x1_0000_0000_0000_0000,
        crate::model::lcg_draw(x) == lcg_step(x) / 0x1_0000,
{
    reveal(lcg_step);
    let m: int = 0x1_0000_0000_0000_0000;
    let p = x as int * 6364136223846793005;
    vstd::arithmetic::div_mod::lemma_add_mod_noop(p, 1442695040888963407, m);
    vstd::arithmetic::div_mod::lemma_mod_twice(p, m);
    let y = lcg_step(x);
    assert(y >> 16u64 == y / 0x1_0000) by (bit_vector);
}

} // verus!
