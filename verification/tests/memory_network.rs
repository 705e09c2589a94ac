use netplaycraft::memory::{
    MemoryTransport, NetworkConditions, NetworkError, NetworkStats, SimulatedNetwork, GAMEPLAY,
    MAX_PAYLOAD, MAX_QUEUED,
};
use netplaycraft::time::Duration;
use netplaycraft::transport::TransportEvent;
use netplaycraft::types::{ChannelId, PeerId};

fn pair(c: NetworkConditions) -> (SimulatedNetwork, MemoryTransport, MemoryTransport) {
    let (mut n, a, b) = SimulatedNetwork::pair([PeerId(10), PeerId(20)], c, 42).unwrap();
    assert_eq!(a.poll(&mut n), Ok(Some(TransportEvent::Connected(PeerId(20)))));
    b.poll(&mut n).unwrap();
    (n, a, b)
}

fn messages(n: &mut SimulatedNetwork, endpoint: &MemoryTransport) -> Vec<Vec<u8>> {
    let mut result = Vec::new();
    while let Some(event) = endpoint.poll(n).unwrap() {
        if let TransportEvent::Message { payload, .. } = event {
            result.push(payload);
        }
    }
    result
}

#[test]
fn latency_and_poll_do_not_advance_time() {
    let (mut n, a, b) = pair(NetworkConditions {
        latency_ms: 80,
        ..Default::default()
    });
    a.send(&mut n, PeerId(20), ChannelId(GAMEPLAY), &[1]).unwrap();
    n.advance(Duration::from_millis(79)).unwrap();
    assert!(messages(&mut n, &b).is_empty());
    assert!(messages(&mut n, &b).is_empty());
    n.advance(Duration::from_millis(1)).unwrap();
    assert_eq!(messages(&mut n, &b), vec![vec![1]]);
}

#[test]
fn total_loss_and_duplication_are_real() {
    let (mut n, a, b) = pair(NetworkConditions {
        loss_bps: 10_000,
        ..Default::default()
    });
    a.send(&mut n, PeerId(20), ChannelId(GAMEPLAY), &[1]).unwrap();
    n.advance(Duration::from_secs(1)).unwrap();
    assert!(messages(&mut n, &b).is_empty());
    assert_eq!(n.stats().dropped, 1);
    let (mut n, a, b) = pair(NetworkConditions {
        duplicate_bps: 10_000,
        ..Default::default()
    });
    a.send(&mut n, PeerId(20), ChannelId(GAMEPLAY), &[2]).unwrap();
    n.advance(Duration::zero()).unwrap();
    assert_eq!(messages(&mut n, &b), vec![vec![2], vec![2]]);
}

#[test]
fn seeded_faults_repeat_and_reorder() {
    fn run() -> (Vec<Vec<u8>>, NetworkStats) {
        let (mut n, a, b) = pair(NetworkConditions {
            latency_ms: 20,
            jitter_ms: 10,
            loss_bps: 2000,
            duplicate_bps: 2000,
            reorder_bps: 5000,
            reorder_delay_ms: 100,
        });
        for byte in 0..100 {
            a.send(&mut n, PeerId(20), ChannelId(GAMEPLAY), &[byte]).unwrap();
        }
        n.advance(Duration::from_secs(1)).unwrap();
        (messages(&mut n, &b), n.stats())
    }
    let (packets, stats) = run();
    assert_eq!((packets.clone(), stats), run());
    assert!(stats.dropped > 0 && stats.duplicated > 0);
    assert!(packets.windows(2).any(|p| p[0] > p[1]));
}

#[test]
fn disconnect_clears_traffic_and_rejects_sends() {
    let (mut n, a, b) = pair(Default::default());
    a.send(&mut n, PeerId(20), ChannelId(GAMEPLAY), &[1]).unwrap();
    n.disconnect();
    n.disconnect();
    n.advance(Duration::from_secs(1)).unwrap();
    assert_eq!(b.poll(&mut n), Ok(Some(TransportEvent::Disconnected(PeerId(10)))));
    assert_eq!(b.poll(&mut n), Ok(None));
    assert_eq!(
        a.send(&mut n, PeerId(20), ChannelId(GAMEPLAY), &[1]),
        Err(NetworkError::Disconnected)
    );
}

#[test]
fn invalid_configuration_and_send_limits_are_errors() {
    assert!(matches!(
        SimulatedNetwork::pair(
            [PeerId(1), PeerId(2)],
            NetworkConditions {
                loss_bps: 10_001,
                ..Default::default()
            },
            1
        ),
        Err(NetworkError::InvalidConditions)
    ));
    let (mut n, a, _) = pair(Default::default());
    assert_eq!(
        a.send(&mut n, PeerId(99), ChannelId(GAMEPLAY), &[]),
        Err(NetworkError::UnknownPeer)
    );
    assert_eq!(
        a.send(&mut n, PeerId(20), ChannelId(9), &[]),
        Err(NetworkError::UnknownChannel)
    );
    assert_eq!(
        a.send(&mut n, PeerId(20), ChannelId(GAMEPLAY), &[0; MAX_PAYLOAD + 1]),
        Err(NetworkError::PayloadTooLarge)
    );
    let mut bounded = false;
    for _ in 0..MAX_QUEUED {
        if a.send(&mut n, PeerId(20), ChannelId(GAMEPLAY), &[0]) == Err(NetworkError::Backpressure) {
            bounded = true;
            break;
        }
    }
    assert!(bounded);
}
