//! The accounting of copies: every packet in flight, every waiting message
//! and every polled message is traced to the accepted send it copies, and
//! no send ever has more copies than it was given.
use crate::model::{
    events_for, insert_by_due, insertion_point, lemma_insert_by_due, lemma_insertion_point,
    no_origin, origins_for, packet_origins, sorted_by_due, NetworkView, PacketView,
};
use crate::transport::EventView;
use crate::types::ChannelId;
use vstd::multiset::Multiset;
use vstd::prelude::*;

verus! {

/// Putting a packet in flight adds its origin to the origins in flight.
proof fn lemma_packet_origins_insert(s: Seq<PacketView>, p: PacketView)
    requires
        sorted_by_due(s),
    ensures
        packet_origins(insert_by_due(s, p)).to_multiset() =~= packet_origins(s).to_multiset().insert(
            p.origin,
        ),
{
    broadcast use vstd::seq_lib::group_to_multiset_ensures;

    lemma_insertion_point(s, p.due);
    let k = insertion_point(s, p.due) as int;
    assert(packet_origins(insert_by_due(s, p)) =~= packet_origins(s).insert(k, p.origin));
}

/// The origins of a run of packets are those of its first `k`, then those of the rest.
proof fn lemma_packet_origins_split(s: Seq<PacketView>, k: int)
    requires
        0 <= k <= s.len(),
    ensures
        packet_origins(s).to_multiset() =~= packet_origins(s.take(k)).to_multiset().add(
            packet_origins(s.skip(k)).to_multiset(),
        ),
{
    assert(packet_origins(s) =~= packet_origins(s.take(k)) + packet_origins(s.skip(k)));
    vstd::seq_lib::lemma_multiset_commutative(packet_origins(s.take(k)), packet_origins(s.skip(k)));
}

/// The origins of packets, each addressed to one of the two endpoints, are
/// those of the packets to endpoint 0 together with those to endpoint 1.
proof fn lemma_origins_by_destination(s: Seq<PacketView>)
    requires
        forall|k: int| 0 <= k < s.len() ==> #[trigger] s[k].destination < 2,
    ensures
        packet_origins(s).to_multiset() =~= origins_for(s, 0).to_multiset().add(
            origins_for(s, 1).to_multiset(),
        ),
    decreases s.len(),
{
    broadcast use vstd::seq_lib::group_to_multiset_ensures;

    if s.len() == 0 {
        assert(packet_origins(s) =~= Seq::<(int, int)>::empty());
    } else {
        let t = s.drop_last();
        assert forall|k: int| 0 <= k < t.len() implies #[trigger] t[k].destination < 2 by {
            assert(t[k] == s[k]);
        }
        lemma_origins_by_destination(t);
        assert(packet_origins(s) =~= packet_origins(t).push(s.last().origin));
        assert(s.last().destination < 2);
    }
}

/// Delivered packets carry their origins along with their events.
proof fn lemma_origins_for_fit(v: NetworkView, s: Seq<PacketView>, d: nat)
    requires
        forall|k: int|
            0 <= k < s.len() ==> v.origin_fits(
                #[trigger] s[k].origin,
                s[k].event,
                s[k].destination as int,
            ),
    ensures
        origins_for(s, d).len() == events_for(s, d).len(),
        forall|j: int|
            0 <= j < origins_for(s, d).len() ==> v.origin_fits(
                #[trigger] origins_for(s, d)[j],
                events_for(s, d)[j],
                d as int,
            ),
    decreases s.len(),
{
    if s.len() > 0 {
        let t = s.drop_last();
        assert forall|k: int| 0 <= k < t.len() implies v.origin_fits(
            #[trigger] t[k].origin,
            t[k].event,
            t[k].destination as int,
        ) by {
            assert(t[k] == s[k]);
        }
        lemma_origins_for_fit(v, t, d);
        assert(v.origin_fits(s[s.len() - 1].origin, s[s.len() - 1].event, s[s.len() - 1].destination as int));
        if s.last().destination == d {
            let o = origins_for(t, d).push(s.last().origin);
            let e = events_for(t, d).push(s.last().event);
            assert forall|j: int| 0 <= j < o.len() implies v.origin_fits(#[trigger] o[j], e[j], d as int) by {
                if j < origins_for(t, d).len() {
                    assert(o[j] == origins_for(t, d)[j]);
                    assert(e[j] == events_for(t, d)[j]);
                }
            }
        }
    }
}

/// Appending aligned origins and events keeps them aligned.
proof fn lemma_append_origins_fit(
    v: NetworkView,
    a: Seq<(int, int)>,
    ea: Seq<EventView>,
    b: Seq<(int, int)>,
    eb: Seq<EventView>,
    d: int,
)
    requires
        a.len() == ea.len(),
        b.len() == eb.len(),
        forall|k: int| 0 <= k < a.len() ==> v.origin_fits(#[trigger] a[k], ea[k], d),
        forall|k: int| 0 <= k < b.len() ==> v.origin_fits(#[trigger] b[k], eb[k], d),
    ensures
        forall|k: int| 0 <= k < (a + b).len() ==> v.origin_fits(#[trigger] (a + b)[k], (ea + eb)[k], d),
{
    assert forall|k: int| 0 <= k < (a + b).len() implies v.origin_fits(
        #[trigger] (a + b)[k],
        (ea + eb)[k],
        d,
    ) by {
        if k < a.len() {
            assert((a + b)[k] == a[k] && (ea + eb)[k] == ea[k]);
        } else {
            assert((a + b)[k] == b[k - a.len()] && (ea + eb)[k] == eb[k - a.len()]);
        }
    }
}

/// A fresh network keeps its accounts.
pub proof fn lemma_ledger_initial(v: NetworkView)
    requires
        v.packets.len() == 0,
        v.origins == (seq![no_origin()], seq![no_origin()]),
        v.inboxes.0.len() == 1,
        v.inboxes.1.len() == 1,
        !(v.inboxes.0[0] is Message),
        !(v.inboxes.1[0] is Message),
        v.accepted == (Seq::<Seq<u8>>::empty(), Seq::<Seq<u8>>::empty()),
        v.copies == (Seq::<nat>::empty(), Seq::<nat>::empty()),
        v.received == Multiset::<(int, int)>::empty(),
    ensures
        v.ledger_inv(),
{
    assert(v.origin_fits(v.origins.0[0], v.inboxes.0[0], 0));
    assert(v.origin_fits(v.origins.1[0], v.inboxes.1[0], 1));
}

/// Delivering packets moves their origins from flight to the inboxes: the
/// accounts do not change.
pub proof fn lemma_ledger_advanced(v: NetworkView, now: nat)
    requires
        v.inv(),
        v.ledger_inv(),
    ensures
        v.advanced(now).ledger_inv(),
        v.advanced(now).tally() == v.tally(),
{
    let w = v.advanced(now);
    let p = v.packets;
    lemma_insertion_point(p, now);
    let k = insertion_point(p, now) as int;
    let ready = p.take(k);
    let rest = p.skip(k);
    assert forall|i: int| 0 <= i < ready.len() implies #[trigger] ready[i].destination < 2
        && v.origin_fits(ready[i].origin, ready[i].event, ready[i].destination as int) by {
        assert(ready[i] == p[i]);
        assert(v.packet_fits(p[i]));
    }
    lemma_origins_for_fit(v, ready, 0);
    lemma_origins_for_fit(v, ready, 1);
    lemma_append_origins_fit(v, v.origins.0, v.inboxes.0, origins_for(ready, 0), events_for(ready, 0), 0);
    lemma_append_origins_fit(v, v.origins.1, v.inboxes.1, origins_for(ready, 1), events_for(ready, 1), 1);
    assert forall|i: int| 0 <= i < rest.len() implies v.origin_fits(
        #[trigger] rest[i].origin,
        rest[i].event,
        rest[i].destination as int,
    ) by {
        assert(rest[i] == p[i + k]);
    }
    lemma_packet_origins_split(p, k);
    lemma_origins_by_destination(ready);
    vstd::seq_lib::lemma_multiset_commutative(v.origins.0, origins_for(ready, 0));
    vstd::seq_lib::lemma_multiset_commutative(v.origins.1, origins_for(ready, 1));
    assert(w.tally() =~= v.tally());
}

/// Disconnecting destroys copies but creates none.
pub proof fn lemma_ledger_disconnected(v: NetworkView)
    requires
        v.inv(),
        v.ledger_inv(),
    ensures
        v.disconnected().ledger_inv(),
        forall|o: (int, int)|
            v.valid_send(o) ==> #[trigger] v.disconnected().tally().count(o) <= v.tally().count(o),
{
    broadcast use vstd::seq_lib::group_to_multiset_ensures;

    let w = v.disconnected();
    if v.connected {
        assert(w.origin_fits(w.origins.0[0], w.inboxes.0[0], 0));
        assert(w.origin_fits(w.origins.1[0], w.inboxes.1[0], 1));
        assert(packet_origins(w.packets) =~= Seq::<(int, int)>::empty());
        assert forall|o: (int, int)| v.valid_send(o) implies #[trigger] w.tally().count(o)
            <= v.tally().count(o) by {
            assert(seq![no_origin()].to_multiset().count(o) == 0) by {
                assert(!seq![no_origin()].contains(o)) by {
                    if seq![no_origin()].contains(o) {
                        assert(seq![no_origin()][0] == o);
                    }
                }
            }
            assert(packet_origins(w.packets).to_multiset().count(o) == 0);
        }
    }
}

/// Polling moves a message's origin from the inbox to the received copies
/// and leaves the accounts of every send as they were.
pub proof fn lemma_ledger_polled(v: NetworkView, local: int)
    requires
        v.inv(),
        v.ledger_inv(),
        0 <= local < 2,
    ensures
        v.polled(local).ledger_inv(),
        forall|o: (int, int)|
            v.valid_send(o) ==> #[trigger] v.polled(local).tally().count(o) == v.tally().count(o),
{
    broadcast use vstd::seq_lib::group_to_multiset_ensures;

    let w = v.polled(local);
    if v.inbox(local).len() > 0 {
        let s = v.origins_at(local);
        let o0 = s[0];
        assert(s.remove(0) =~= s.drop_first());
        assert(s.contains(o0));
        if local == 0 {
            assert(v.origin_fits(v.origins.0[0], v.inboxes.0[0], 0));
            assert forall|k: int| 0 <= k < w.origins.0.len() implies w.origin_fits(
                #[trigger] w.origins.0[k],
                w.inboxes.0[k],
                0,
            ) by {
                assert(v.origin_fits(v.origins.0[k + 1], v.inboxes.0[k + 1], 0));
            }
        } else {
            assert(v.origin_fits(v.origins.1[0], v.inboxes.1[0], 1));
            assert forall|k: int| 0 <= k < w.origins.1.len() implies w.origin_fits(
                #[trigger] w.origins.1[k],
                w.inboxes.1[k],
                1,
            ) by {
                assert(v.origin_fits(v.origins.1[k + 1], v.inboxes.1[k + 1], 1));
            }
        }
        assert forall|o: (int, int)| v.valid_send(o) implies #[trigger] w.tally().count(o)
            == v.tally().count(o) by {
            if o == o0 {
                assert(v.inbox(local)[0] is Message);
            }
        }
        assert forall|o: (int, int)| #[trigger] w.received.count(o) > 0 implies w.valid_send(o) by {
            if o == o0 && v.inbox(local)[0] is Message {
                assert(v.origin_fits(o0, v.inbox(local)[0], local));
            } else {
                assert(v.received.count(o) > 0);
            }
        }
    }
}

/// An accepted send records how many copies it was given, and exactly
/// those copies enter flight, each naming the new send as its origin.
pub proof fn lemma_ledger_transmitted(v: NetworkView, local: int, channel: ChannelId, bytes: Seq<u8>)
    requires
        v.inv(),
        v.ledger_inv(),
        0 <= local < 2,
    ensures
        v.transmitted(local, channel, bytes).ledger_inv(),
{
    broadcast use vstd::seq_lib::group_to_multiset_ensures;

    let w = v.transmitted(local, channel, bytes);
    let n0 = v.accepted_from(local).len() as int;
    let o_new = (local, n0);
    // No copy of the new send exists yet.
    assert(!packet_origins(v.packets).contains(o_new)) by {
        if packet_origins(v.packets).contains(o_new) {
            let k = choose|k: int| 0 <= k < packet_origins(v.packets).len() && #[trigger] packet_origins(v.packets)[k] == o_new;
            assert(v.packet_fits(v.packets[k]));
            assert(v.origin_fits(v.packets[k].origin, v.packets[k].event, v.packets[k].destination as int));
        }
    }
    assert(!v.origins.0.contains(o_new)) by {
        if v.origins.0.contains(o_new) {
            let k = choose|k: int| 0 <= k < v.origins.0.len() && #[trigger] v.origins.0[k] == o_new;
            assert(v.origin_fits(v.origins.0[k], v.inboxes.0[k], 0));
        }
    }
    assert(!v.origins.1.contains(o_new)) by {
        if v.origins.1.contains(o_new) {
            let k = choose|k: int| 0 <= k < v.origins.1.len() && #[trigger] v.origins.1[k] == o_new;
            assert(v.origin_fits(v.origins.1[k], v.inboxes.1[k], 1));
        }
    }
    assert(v.received.count(o_new) == 0) by {
        if v.received.count(o_new) > 0 {
            assert(v.valid_send(o_new));
        }
    }
    assert(v.tally().count(o_new) == 0);
    // Everything that fitted still fits: earlier payloads keep their places.
    assert forall|o: (int, int), e: EventView, i: int|
        0 <= i < 2 && #[trigger] v.origin_fits(o, e, i) implies w.origin_fits(o, e, i) by {
        if e is Message {
            assert(w.accepted_from(1 - i)[o.1] == v.accepted_from(1 - i)[o.1]);
        }
    }
    assert forall|k: int| 0 <= k < w.origins.0.len() implies w.origin_fits(
        #[trigger] w.origins.0[k],
        w.inboxes.0[k],
        0,
    ) by {
        assert(v.origin_fits(v.origins.0[k], v.inboxes.0[k], 0));
    }
    assert forall|k: int| 0 <= k < w.origins.1.len() implies w.origin_fits(
        #[trigger] w.origins.1[k],
        w.inboxes.1[k],
        1,
    ) by {
        assert(v.origin_fits(v.origins.1[k], v.inboxes.1[k], 1));
    }
    assert forall|o: (int, int)| #[trigger] w.received.count(o) > 0 implies w.valid_send(o) by {
        assert(v.valid_send(o));
    }
    assert forall|j: int| 0 <= j < w.copies.0.len() implies #[trigger] w.copies.0[j] <= 2 by {
        if j < v.copies.0.len() {
            assert(w.copies.0[j] == v.copies.0[j]);
        }
    }
    assert forall|j: int| 0 <= j < w.copies.1.len() implies #[trigger] w.copies.1[j] <= 2 by {
        if j < v.copies.1.len() {
            assert(w.copies.1[j] == v.copies.1[j]);
        }
    }
    // The copies in flight.
    let r1 = crate::model::lcg_step(v.rng);
    let r2 = crate::model::lcg_step(r1);
    let r3 = crate::model::lcg_step(crate::model::lcg_step(r2));
    let first = v.scheduled(local, channel, bytes, r2);
    let second = v.scheduled(local, channel, bytes, r3);
    assert(w.accepted_from(local)[n0] == bytes);
    assert(w.origin_fits(first.origin, first.event, first.destination as int));
    assert(w.origin_fits(second.origin, second.event, second.destination as int));
    lemma_insert_by_due(v.packets, first);
    lemma_packet_origins_insert(v.packets, first);
    let once = insert_by_due(v.packets, first);
    lemma_packet_origins_insert(once, second);
    lemma_insertion_point(v.packets, first.due);
    lemma_insertion_point(once, second.due);
    assert forall|k: int| 0 <= k < once.len() implies w.origin_fits(
        #[trigger] once[k].origin,
        once[k].event,
        once[k].destination as int,
    ) by {
        let m = insertion_point(v.packets, first.due) as int;
        if k < m {
            assert(once[k] == v.packets[k]);
            assert(v.origin_fits(v.packets[k].origin, v.packets[k].event, v.packets[k].destination as int));
        } else if k > m {
            assert(once[k] == v.packets[k - 1]);
            assert(v.origin_fits(v.packets[k - 1].origin, v.packets[k - 1].event, v.packets[k - 1].destination as int));
        }
    }
    let twice = insert_by_due(once, second);
    assert forall|k: int| 0 <= k < twice.len() implies w.origin_fits(
        #[trigger] twice[k].origin,
        twice[k].event,
        twice[k].destination as int,
    ) by {
        let m = insertion_point(once, second.due) as int;
        if k < m {
            assert(twice[k] == once[k]);
        } else if k > m {
            assert(twice[k] == once[k - 1]);
        }
    }
    assert forall|k: int| 0 <= k < w.packets.len() implies w.origin_fits(
        #[trigger] w.packets[k].origin,
        w.packets[k].event,
        w.packets[k].destination as int,
    ) by {
        if w.packets.len() == v.packets.len() {
            assert(v.origin_fits(v.packets[k].origin, v.packets[k].event, v.packets[k].destination as int));
        }
    }
    // No send has more copies than it was given.
    assert forall|o: (int, int)| w.valid_send(o) implies #[trigger] w.tally().count(o)
        <= w.copies_of(o.0)[o.1] by {
        if o != o_new {
            assert(v.valid_send(o));
            assert(w.copies_of(o.0)[o.1] == v.copies_of(o.0)[o.1]);
            assert(w.tally().count(o) == v.tally().count(o));
        }
    }
}

} // verus!
