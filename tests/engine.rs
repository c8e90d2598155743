use boring_sdn::{
    on_local_packet, on_remote_packet, Endpoint, ForwardDecision, Hop, LocalAction, RemoteAction,
    Route, RouteError, RoutingOracle, SocketCache,
};

fn ipv4_packet(dst: [u8; 4]) -> Vec<u8> {
    let mut p = vec![0u8; 28];
    p[0] = 0x45;
    p[16..20].copy_from_slice(&dst);
    p
}

fn table() -> RoutingOracle {
    RoutingOracle::Table(vec![
        Route { net: 0x0a00_0000, prefix_len: 8, hop: Hop::Peer(Endpoint::v4(0xcb00_7105, 55001)) },
        Route { net: 0x0a01_0000, prefix_len: 16, hop: Hop::Peer(Endpoint::v4(0xcb00_7106, 55001)) },
        Route { net: 0xc0a8_0000, prefix_len: 16, hop: Hop::Local },
    ])
}

#[test]
fn longest_prefix_wins() {
    let o = table();
    assert_eq!(o.resolve_outbound(&ipv4_packet([10, 1, 2, 3])), Ok(Endpoint::v4(0xcb00_7106, 55001)));
    assert_eq!(o.resolve_outbound(&ipv4_packet([10, 2, 2, 3])), Ok(Endpoint::v4(0xcb00_7105, 55001)));
}

#[test]
fn unmatched_or_local_is_no_route() {
    let o = table();
    assert_eq!(o.resolve_outbound(&ipv4_packet([11, 0, 0, 1])), Err(RouteError::NoRoute));
    assert_eq!(o.resolve_outbound(&ipv4_packet([192, 168, 0, 1])), Err(RouteError::NoRoute));
    assert_eq!(o.resolve_outbound(&[0x45u8, 0, 0]), Err(RouteError::NoRoute));
    assert_eq!(o.resolve_inbound(&ipv4_packet([11, 0, 0, 1])), Err(RouteError::NoRoute));
}

#[test]
fn inbound_decisions() {
    let o = table();
    assert_eq!(o.resolve_inbound(&ipv4_packet([192, 168, 3, 4])), Ok(ForwardDecision::Deliver));
    assert_eq!(
        o.resolve_inbound(&ipv4_packet([10, 9, 9, 9])),
        Ok(ForwardDecision::Relay(Endpoint::v4(0xcb00_7105, 55001)))
    );
    let s = RoutingOracle::Static(Endpoint::v4(1, 2));
    assert_eq!(s.resolve_inbound(&[1u8, 2]), Ok(ForwardDecision::Deliver));
}

#[test]
fn decisions_are_deterministic() {
    let o = table();
    let p = ipv4_packet([10, 1, 9, 9]);
    let q = p.clone();
    assert_eq!(o.resolve_outbound(&p), o.resolve_outbound(&q));
    assert_eq!(o.resolve_inbound(&p), o.resolve_inbound(&q));
}

#[test]
fn second_lookup_reuses_the_socket() {
    let mut c = SocketCache::new(180, 180);
    let a = Endpoint::v4(0x0a00_0001, 1000);
    let (id, created) = c.get_or_create(&a).unwrap();
    assert!(created);
    assert_eq!(c.get_or_create(&a), Some((id, false)));
}

#[test]
fn expired_entry_gets_a_fresh_socket() {
    let mut c = SocketCache::new(0, 180);
    let a = Endpoint::v4(0x0a00_0001, 1000);
    let (first, _) = c.get_or_create(&a).unwrap();
    let mut renewed = false;
    for _ in 0..1_000_000 {
        let (id, created) = c.get_or_create(&a).unwrap();
        if created {
            assert_ne!(id, first);
            renewed = true;
            break;
        }
    }
    assert!(renewed);
}

#[test]
fn capacity_two_keeps_the_last_two() {
    let mut c = SocketCache::without_expiry(2);
    let a = Endpoint::v4(1, 1);
    let b = Endpoint::v4(2, 2);
    let d = Endpoint::v4(3, 3);
    c.get_or_create(&a).unwrap();
    c.get_or_create(&b).unwrap();
    c.get_or_create(&d).unwrap();
    assert!(!c.contains(&a));
    assert!(c.contains(&b));
    assert!(c.contains(&d));
}

#[test]
fn recently_used_entry_survives_eviction() {
    let mut c = SocketCache::without_expiry(2);
    let a = Endpoint::v4(1, 1);
    let b = Endpoint::v4(2, 2);
    let d = Endpoint::v4(3, 3);
    let (ia, _) = c.get_or_create(&a).unwrap();
    c.get_or_create(&b).unwrap();
    assert_eq!(c.get_or_create(&a), Some((ia, false)));
    c.get_or_create(&d).unwrap();
    assert!(c.contains(&a));
    assert!(!c.contains(&b));
    assert!(c.contains(&d));
}

#[test]
fn no_route_leaves_the_cache_alone() {
    let o = table();
    let mut c = SocketCache::without_expiry(1);
    let peer = Endpoint::v4(0xcb00_7105, 55001);
    c.get_or_create(&peer).unwrap();
    assert_eq!(on_local_packet(&o, &mut c, &ipv4_packet([11, 0, 0, 1])), LocalAction::Drop);
    assert!(c.contains(&peer));
}

#[test]
fn local_packet_goes_to_its_peer_unchanged() {
    let e = Endpoint::v4(0xcb00_7105, 55001);
    let o = RoutingOracle::Static(e);
    let mut c = SocketCache::new(180, 180);
    let p = vec![0x45u8, 1, 2, 3, 4];
    assert_eq!(on_local_packet(&o, &mut c, &p), LocalAction::Connect(e));
    let id = c.file_new(&e).unwrap();
    assert_eq!(on_local_packet(&o, &mut c, &p), LocalAction::Send { socket: id, to: e });
    assert_eq!(p, vec![0x45u8, 1, 2, 3, 4]);
}

#[test]
fn relay_decision_is_not_delivered() {
    let o = table();
    let a = on_remote_packet(&o, &ipv4_packet([10, 1, 0, 1]));
    assert_eq!(a, RemoteAction::Relay(Endpoint::v4(0xcb00_7106, 55001)));
    assert_ne!(a, RemoteAction::Deliver);
    assert_eq!(on_remote_packet(&o, &ipv4_packet([192, 168, 0, 9])), RemoteAction::Deliver);
    assert_eq!(on_remote_packet(&o, &ipv4_packet([8, 8, 8, 8])), RemoteAction::Drop);
}

#[test]
fn distinct_endpoints_keep_the_last_capacity() {
    let mut c = SocketCache::without_expiry(3);
    let es: Vec<Endpoint> = (1u32..=6).map(|i| Endpoint::v4(i, 100)).collect();
    for e in &es {
        assert!(c.get_or_create(e).unwrap().1);
    }
    for e in &es[..3] {
        assert!(!c.contains(e));
    }
    for e in &es[3..] {
        assert!(c.contains(e));
    }
}
