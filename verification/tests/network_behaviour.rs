use netplaycraft::memory::{
    MemoryTransport, NetworkConditions, NetworkError, NetworkStats, SimulatedNetwork, GAMEPLAY,
    MAX_PAYLOAD, MAX_QUEUED,
};
use netplaycraft::time::Duration;
use netplaycraft::transport::{Delivery, TransportEvent};
use netplaycraft::types::{ChannelId, PeerId};

const GAME: ChannelId = ChannelId(GAMEPLAY);

fn connected(c: NetworkConditions, seed: u64) -> (SimulatedNetwork, MemoryTransport, MemoryTransport) {
    let (mut n, a, b) = SimulatedNetwork::pair([PeerId(10), PeerId(20)], c, seed).unwrap();
    assert_eq!(a.poll(&mut n), Ok(Some(TransportEvent::Connected(PeerId(20)))));
    assert_eq!(b.poll(&mut n), Ok(Some(TransportEvent::Connected(PeerId(10)))));
    (n, a, b)
}

fn payloads(n: &mut SimulatedNetwork, endpoint: &MemoryTransport) -> Vec<Vec<u8>> {
    let mut result = Vec::new();
    while let Some(event) = endpoint.poll(n).unwrap() {
        if let TransportEvent::Message { payload, .. } = event {
            result.push(payload);
        }
    }
    result
}

#[test]
fn pair_rejects_duplicate_peers_first() {
    let bad = NetworkConditions {
        reorder_bps: 20_000,
        ..Default::default()
    };
    assert!(matches!(
        SimulatedNetwork::pair([PeerId(3), PeerId(3)], bad, 0),
        Err(NetworkError::DuplicatePeer)
    ));
    assert!(matches!(
        SimulatedNetwork::pair([PeerId(3), PeerId(4)], bad, 0),
        Err(NetworkError::InvalidConditions)
    ));
    let duplicate = NetworkConditions {
        duplicate_bps: 10_001,
        ..Default::default()
    };
    assert!(matches!(
        SimulatedNetwork::pair([PeerId(3), PeerId(4)], duplicate, 0),
        Err(NetworkError::InvalidConditions)
    ));
    let full = NetworkConditions {
        loss_bps: 10_000,
        duplicate_bps: 10_000,
        reorder_bps: 10_000,
        ..Default::default()
    };
    assert!(SimulatedNetwork::pair([PeerId(3), PeerId(4)], full, 0).is_ok());
}

#[test]
fn each_endpoint_first_sees_the_other_peer() {
    let (mut n, a, b) = SimulatedNetwork::pair([PeerId(7), PeerId(8)], Default::default(), 1).unwrap();
    assert_eq!(b.poll(&mut n), Ok(Some(TransportEvent::Connected(PeerId(7)))));
    assert_eq!(b.poll(&mut n), Ok(None));
    assert_eq!(a.poll(&mut n), Ok(Some(TransportEvent::Connected(PeerId(8)))));
    assert_eq!(a.poll(&mut n), Ok(None));
}

#[test]
fn only_the_gameplay_channel_exists() {
    let (_, a, _) = connected(Default::default(), 0);
    assert_eq!(a.delivery(GAME), Some(Delivery::Unreliable));
    assert_eq!(a.delivery(ChannelId(1)), None);
}

#[test]
fn messages_carry_sender_and_channel() {
    let (mut n, a, b) = connected(Default::default(), 5);
    b.send(&mut n, PeerId(10), GAME, &[4, 5, 6]).unwrap();
    n.advance(Duration::zero()).unwrap();
    assert_eq!(
        a.poll(&mut n),
        Ok(Some(TransportEvent::Message {
            peer: PeerId(20),
            channel: GAME,
            payload: vec![4, 5, 6],
        }))
    );
    assert_eq!(a.poll(&mut n), Ok(None));
}

#[test]
fn largest_payload_is_accepted() {
    let (mut n, a, b) = connected(Default::default(), 5);
    a.send(&mut n, PeerId(20), GAME, &[9; MAX_PAYLOAD]).unwrap();
    n.advance(Duration::zero()).unwrap();
    assert_eq!(payloads(&mut n, &b), vec![vec![9; MAX_PAYLOAD]]);
}

#[test]
fn loss_threshold_follows_the_seeded_draw() {
    // From seed 42 the first draw is 8382 modulo 10_000.
    let (mut n, a, b) = connected(NetworkConditions { loss_bps: 8382, ..Default::default() }, 42);
    a.send(&mut n, PeerId(20), GAME, &[1]).unwrap();
    n.advance(Duration::zero()).unwrap();
    assert_eq!(payloads(&mut n, &b), vec![vec![1]]);
    assert_eq!(n.stats(), NetworkStats { sent: 1, dropped: 0, duplicated: 0, delivered: 1 });
    let (mut n, a, b) = connected(NetworkConditions { loss_bps: 8383, ..Default::default() }, 42);
    a.send(&mut n, PeerId(20), GAME, &[1]).unwrap();
    n.advance(Duration::zero()).unwrap();
    assert!(payloads(&mut n, &b).is_empty());
    assert_eq!(n.stats(), NetworkStats { sent: 1, dropped: 1, duplicated: 0, delivered: 0 });
}

#[test]
fn duplication_threshold_follows_the_seeded_draw() {
    // From seed 42 the second draw is 2172 modulo 10_000.
    let (mut n, a, b) = connected(NetworkConditions { duplicate_bps: 2172, ..Default::default() }, 42);
    a.send(&mut n, PeerId(20), GAME, &[3]).unwrap();
    n.advance(Duration::zero()).unwrap();
    assert_eq!(payloads(&mut n, &b), vec![vec![3]]);
    let (mut n, a, b) = connected(NetworkConditions { duplicate_bps: 2173, ..Default::default() }, 42);
    a.send(&mut n, PeerId(20), GAME, &[3]).unwrap();
    n.advance(Duration::zero()).unwrap();
    assert_eq!(payloads(&mut n, &b), vec![vec![3], vec![3]]);
    assert_eq!(n.stats(), NetworkStats { sent: 1, dropped: 0, duplicated: 1, delivered: 2 });
}

#[test]
fn jitter_and_reordering_delay_follow_the_seeded_draws() {
    // From seed 42 the third draw is 7 modulo 11 and the fourth 7043 modulo 10_000:
    // 20 ms latency + 7 ms jitter + 100 ms reordering delay.
    let conditions = NetworkConditions {
        latency_ms: 20,
        jitter_ms: 10,
        loss_bps: 0,
        duplicate_bps: 0,
        reorder_bps: 7044,
        reorder_delay_ms: 100,
    };
    let (mut n, a, b) = connected(conditions, 42);
    a.send(&mut n, PeerId(20), GAME, &[8]).unwrap();
    n.advance(Duration::from_millis(126)).unwrap();
    assert!(payloads(&mut n, &b).is_empty());
    n.advance(Duration::from_millis(1)).unwrap();
    assert_eq!(payloads(&mut n, &b), vec![vec![8]]);

    let without_reorder = NetworkConditions { reorder_bps: 7043, ..conditions };
    let (mut n, a, b) = connected(without_reorder, 42);
    a.send(&mut n, PeerId(20), GAME, &[8]).unwrap();
    n.advance(Duration::from_millis(26)).unwrap();
    assert!(payloads(&mut n, &b).is_empty());
    n.advance(Duration::from_millis(1)).unwrap();
    assert_eq!(payloads(&mut n, &b), vec![vec![8]]);
}

#[test]
fn equal_due_times_keep_send_order() {
    let (mut n, a, b) = connected(NetworkConditions { latency_ms: 5, ..Default::default() }, 9);
    for byte in 0..10u8 {
        a.send(&mut n, PeerId(20), GAME, &[byte]).unwrap();
    }
    n.advance(Duration::from_millis(5)).unwrap();
    let expected: Vec<Vec<u8>> = (0..10u8).map(|b| vec![b]).collect();
    assert_eq!(payloads(&mut n, &b), expected);
}

#[test]
fn earlier_due_times_overtake_later_sends() {
    let conditions = NetworkConditions { latency_ms: 50, ..Default::default() };
    let (mut n, a, b) = connected(conditions, 9);
    a.send(&mut n, PeerId(20), GAME, &[1]).unwrap();
    n.advance(Duration::from_millis(10)).unwrap();
    a.send(&mut n, PeerId(20), GAME, &[2]).unwrap();
    n.advance(Duration::from_millis(39)).unwrap();
    assert!(payloads(&mut n, &b).is_empty());
    n.advance(Duration::from_millis(1)).unwrap();
    assert_eq!(payloads(&mut n, &b), vec![vec![1]]);
    n.advance(Duration::from_millis(10)).unwrap();
    assert_eq!(payloads(&mut n, &b), vec![vec![2]]);
}

#[test]
fn advancing_in_steps_equals_advancing_at_once() {
    let conditions = NetworkConditions {
        latency_ms: 20,
        jitter_ms: 10,
        loss_bps: 2000,
        duplicate_bps: 2000,
        reorder_bps: 5000,
        reorder_delay_ms: 100,
    };
    let run = |steps: &[u64]| {
        let (mut n, a, b) = connected(conditions, 77);
        for byte in 0..50u8 {
            a.send(&mut n, PeerId(20), GAME, &[byte]).unwrap();
        }
        for &ms in steps {
            n.advance(Duration::from_millis(ms)).unwrap();
        }
        (payloads(&mut n, &b), n.stats())
    };
    let once = run(&[200]);
    assert_eq!(once, run(&[25, 25, 50, 100]));
    assert_eq!(once, run(&[1; 200]));
}

#[test]
fn counters_account_for_every_accepted_message() {
    let conditions = NetworkConditions {
        latency_ms: 20,
        jitter_ms: 10,
        loss_bps: 3000,
        duplicate_bps: 3000,
        reorder_bps: 5000,
        reorder_delay_ms: 100,
    };
    let (mut n, a, b) = connected(conditions, 1234);
    for byte in 0..200u8 {
        a.send(&mut n, PeerId(20), GAME, &[byte]).unwrap();
    }
    n.advance(Duration::from_secs(1)).unwrap();
    let received = payloads(&mut n, &b).len() as u64;
    let s = n.stats();
    assert_eq!(s.sent, 200);
    assert_eq!(s.delivered, received);
    assert_eq!(s.sent - s.dropped + s.duplicated, s.delivered);
    assert!(s.dropped > 0 && s.duplicated > 0);
}

#[test]
fn refused_sends_leave_counters_alone() {
    let (mut n, a, _) = connected(Default::default(), 3);
    assert_eq!(a.send(&mut n, PeerId(10), GAME, &[1]), Err(NetworkError::UnknownPeer));
    assert_eq!(a.send(&mut n, PeerId(20), ChannelId(2), &[1]), Err(NetworkError::UnknownChannel));
    assert_eq!(n.stats(), NetworkStats::default());
}

#[test]
fn backpressure_reserves_room_for_a_duplicate() {
    let (mut n, a, _) = connected(Default::default(), 3);
    for _ in 0..MAX_QUEUED - 1 {
        a.send(&mut n, PeerId(20), GAME, &[0]).unwrap();
    }
    assert_eq!(a.send(&mut n, PeerId(20), GAME, &[0]), Err(NetworkError::Backpressure));
    assert_eq!(n.stats().sent, (MAX_QUEUED - 1) as u64);
}

#[test]
fn delivered_events_still_count_toward_the_queue_bound() {
    let (mut n, a, b) = connected(Default::default(), 3);
    for _ in 0..MAX_QUEUED - 1 {
        a.send(&mut n, PeerId(20), GAME, &[0]).unwrap();
    }
    n.advance(Duration::zero()).unwrap();
    assert_eq!(a.send(&mut n, PeerId(20), GAME, &[0]), Err(NetworkError::Backpressure));
    b.poll(&mut n).unwrap();
    assert_eq!(a.send(&mut n, PeerId(20), GAME, &[0]), Ok(()));
}

#[test]
fn advance_past_the_time_range_fails_without_change() {
    let (mut n, a, b) = connected(NetworkConditions { latency_ms: 1000, ..Default::default() }, 3);
    a.send(&mut n, PeerId(20), GAME, &[1]).unwrap();
    n.advance(Duration::from_secs(u64::MAX)).unwrap();
    assert_eq!(n.advance(Duration::from_secs(1)), Err(NetworkError::TimeOverflow));
    assert_eq!(payloads(&mut n, &b), vec![vec![1]]);
    // The worst-case delay no longer fits, so the send is refused.
    assert_eq!(a.send(&mut n, PeerId(20), GAME, &[2]), Err(NetworkError::TimeOverflow));
    assert_eq!(n.stats().sent, 1);
}

#[test]
fn disconnect_tells_both_endpoints_once() {
    let (mut n, a, b) = connected(NetworkConditions { latency_ms: 10, ..Default::default() }, 3);
    b.send(&mut n, PeerId(10), GAME, &[1]).unwrap();
    n.advance(Duration::from_millis(10)).unwrap();
    n.disconnect();
    assert_eq!(a.poll(&mut n), Ok(Some(TransportEvent::Disconnected(PeerId(20)))));
    assert_eq!(a.poll(&mut n), Ok(None));
    assert_eq!(b.poll(&mut n), Ok(Some(TransportEvent::Disconnected(PeerId(10)))));
    n.disconnect();
    assert_eq!(b.poll(&mut n), Ok(None));
    assert_eq!(b.send(&mut n, PeerId(10), GAME, &[2]), Err(NetworkError::Disconnected));
    // Channel, size and peer are checked before the connection.
    assert_eq!(b.send(&mut n, PeerId(10), ChannelId(3), &[2]), Err(NetworkError::UnknownChannel));
}

#[test]
fn sub_millisecond_steps_reach_the_due_time() {
    let (mut n, a, b) = connected(NetworkConditions { latency_ms: 1, ..Default::default() }, 3);
    a.send(&mut n, PeerId(20), GAME, &[5]).unwrap();
    n.advance(Duration::from_micros(999)).unwrap();
    assert!(payloads(&mut n, &b).is_empty());
    n.advance(Duration::from_nanos(999)).unwrap();
    assert!(payloads(&mut n, &b).is_empty());
    n.advance(Duration::from_nanos(1)).unwrap();
    assert_eq!(payloads(&mut n, &b), vec![vec![5]]);
}

#[test]
fn advancing_to_the_end_of_time_then_one_step_overflows() {
    let (mut n, _, _) = connected(Default::default(), 3);
    n.advance(Duration::maximum()).unwrap();
    assert_eq!(n.advance(Duration::from_nanos(1)), Err(NetworkError::TimeOverflow));
    assert_eq!(n.advance(Duration::zero()), Ok(()));
}

#[test]
fn a_disconnected_network_stays_quiet() {
    let conditions = NetworkConditions { latency_ms: 10, duplicate_bps: 5000, ..Default::default() };
    let (mut n, a, b) = connected(conditions, 3);
    for byte in 0..5u8 {
        a.send(&mut n, PeerId(20), GAME, &[byte]).unwrap();
        b.send(&mut n, PeerId(10), GAME, &[byte]).unwrap();
    }
    n.disconnect();
    let stats = n.stats();
    n.advance(Duration::from_secs(5)).unwrap();
    assert_eq!(n.stats(), stats);
    assert_eq!(a.send(&mut n, PeerId(20), GAME, &[1]), Err(NetworkError::Disconnected));
    assert_eq!(b.send(&mut n, PeerId(10), GAME, &[1]), Err(NetworkError::Disconnected));
    assert_eq!(a.poll(&mut n), Ok(Some(TransportEvent::Disconnected(PeerId(20)))));
    for _ in 0..3 {
        n.advance(Duration::from_secs(1)).unwrap();
        n.disconnect();
        assert_eq!(a.poll(&mut n), Ok(None));
    }
    assert_eq!(b.poll(&mut n), Ok(Some(TransportEvent::Disconnected(PeerId(10)))));
    assert_eq!(b.poll(&mut n), Ok(None));
    assert_eq!(n.stats(), stats);
}

#[test]
fn a_higher_loss_rate_never_rescues_a_dropped_message() {
    for seed in 0..50u64 {
        let mut dropped_at = Vec::new();
        for loss in [0u16, 2500, 5000, 7500, 10_000] {
            let (mut n, a, _) = connected(NetworkConditions { loss_bps: loss, ..Default::default() }, seed);
            a.send(&mut n, PeerId(20), GAME, &[1]).unwrap();
            dropped_at.push(n.stats().dropped);
        }
        assert!(dropped_at.windows(2).all(|w| w[0] <= w[1]), "seed {seed}");
        assert_eq!(dropped_at[0], 0);
        assert_eq!(dropped_at[4], 1);
    }
}

#[test]
fn received_messages_come_from_the_other_peer() {
    let conditions = NetworkConditions {
        latency_ms: 5,
        jitter_ms: 5,
        loss_bps: 1000,
        duplicate_bps: 3000,
        reorder_bps: 3000,
        reorder_delay_ms: 20,
    };
    let (mut n, a, b) = connected(conditions, 11);
    let mut sent_by_a = Vec::new();
    for byte in 0..40u8 {
        a.send(&mut n, PeerId(20), GAME, &[byte, 1]).unwrap();
        sent_by_a.push(vec![byte, 1]);
        b.send(&mut n, PeerId(10), GAME, &[byte, 2]).unwrap();
    }
    n.advance(Duration::from_secs(1)).unwrap();
    while let Some(event) = b.poll(&mut n).unwrap() {
        match event {
            TransportEvent::Message { peer, channel, payload } => {
                assert_eq!(peer, PeerId(10));
                assert_eq!(channel, GAME);
                assert!(payload.len() <= MAX_PAYLOAD);
                assert!(sent_by_a.contains(&payload));
            }
            other => panic!("unexpected {other:?}"),
        }
    }
}

#[test]
fn no_send_is_received_more_than_twice() {
    let conditions = NetworkConditions {
        latency_ms: 5,
        jitter_ms: 20,
        loss_bps: 2000,
        duplicate_bps: 5000,
        reorder_bps: 5000,
        reorder_delay_ms: 30,
    };
    let (mut n, a, b) = connected(conditions, 99);
    for byte in 0..120u8 {
        a.send(&mut n, PeerId(20), GAME, &[byte]).unwrap();
    }
    n.advance(Duration::from_secs(1)).unwrap();
    let received = payloads(&mut n, &b);
    let mut counts = [0u32; 120];
    for payload in &received {
        counts[payload[0] as usize] += 1;
    }
    assert!(counts.iter().all(|&c| c <= 2));
    let s = n.stats();
    assert_eq!(counts.iter().filter(|&&c| c == 0).count() as u64, s.dropped);
    assert_eq!(counts.iter().filter(|&&c| c == 2).count() as u64, s.duplicated);
}
