use heat::support::Network;
use rand::SeedableRng;

#[test]
fn peers_start_idle() {
    let mut network: Network<String> = Network::new();
    assert!(network.is_idle());
    network.add_peer(3);
    network.add_peer(1);
    network.add_peer(3);
    assert!(network.is_idle());
    assert!(!network.has_unreceived(1));
    assert!(!network.has_unreceived(3));
}

#[test]
fn broadcast_reaches_every_other_peer() {
    let mut rng = rand::rngs::StdRng::seed_from_u64(7);
    let mut network: Network<u32> = Network::new();
    for id in [1, 2, 3] {
        network.add_peer(id);
    }
    network.broadcast(1, vec![10, 20], &mut rng);
    assert!(!network.has_unreceived(1));
    assert!(network.has_unreceived(2));
    assert!(network.has_unreceived(3));
    assert!(!network.is_idle());

    let mut received = Vec::new();
    for _ in 0..1000 {
        received.extend(network.receive(2, &mut rng));
    }
    assert!(!network.has_unreceived(2));
    assert!(received.len() >= 2 && received.len() <= 6);
    assert!(received.contains(&10) && received.contains(&20));
    // the first copy of each message arrives in the order sent
    let first_10 = received.iter().position(|m| *m == 10).unwrap();
    let first_20 = received.iter().position(|m| *m == 20).unwrap();
    assert!(first_10 < first_20);
}
