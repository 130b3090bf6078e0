//! Lifetimes of advertised information.
use ipv6_router_advertisement::address::Ipv6Addr;
use ipv6_router_advertisement::detector::{DnsDomains, DnsServers, Event as DetectorEvent, Key};
use ipv6_router_advertisement::lifecycle::{Event, Lifecycle};
use ipv6_router_advertisement::time::{Duration, Instant};
use ipv6_router_advertisement::{InterfaceIndex, PrefixInfo};

const NOW: Instant = Instant { nanos: 1_000_000 };

fn later(secs: u64) -> Instant {
    NOW.after(Duration::from_secs(secs))
}

fn if0() -> InterfaceIndex {
    0
}

fn ip(a: u16) -> Ipv6Addr {
    Ipv6Addr::new(0x2001, 0xdb8, 0, 0, 0, 0, 0, a)
}

fn router_event(lifetime: Duration) -> DetectorEvent {
    let key = Key::new(if0(), ip(1));
    DetectorEvent::Router {
        key,
        managed: true,
        other_config: false,
        lifetime,
    }
}

fn dns_servers(ips: &[Ipv6Addr], lifetime: Duration) -> DnsServers {
    DnsServers {
        servers: ips.to_vec(),
        lifetime,
    }
}

fn prefix(prefix: Ipv6Addr, len: u8) -> PrefixInfo {
    PrefixInfo {
        prefix,
        prefix_len: len,
    }
}

fn prefix_event(key: Key, info: PrefixInfo, valid: u64, preferred: u64) -> DetectorEvent {
    DetectorEvent::Prefix {
        key,
        prefix_info: info,
        lifetime: Duration::from_secs(valid),
        preferred_lifetime: Duration::from_secs(preferred),
    }
}

#[test]
fn key_ifindex_extraction() {
    let key = Key::new(if0(), ip(1));
    assert_eq!(key.ifindex, if0());
}

#[test]
fn update_inserts_and_emits_event() {
    let mut lc = Lifecycle::default();

    let events = lc.update(vec![router_event(Duration::from_secs(10))], NOW);

    assert_eq!(events.len(), 1);
    match &events[0] {
        Event::Router { managed, .. } => assert!(*managed),
        ev => panic!("unexpected event: {:?}", ev),
    }

    assert_eq!(lc.router_store.len(), 1);
}

#[test]
fn update_refreshes_expiry() {
    let mut lc = Lifecycle::default();

    let ev = router_event(Duration::from_secs(10));
    lc.update(vec![ev.clone()], NOW);

    let first_expiry = lc.router_store.entries.first().expect("missing entry").1;

    lc.update(vec![ev], later(5));

    let refreshed_expiry = lc.router_store.entries.first().expect("missing entry").1;

    assert!(refreshed_expiry > first_expiry);
    assert_eq!(refreshed_expiry, later(15));
}

#[test]
fn expire_emits_expiry_event() {
    let mut lc = Lifecycle::default();

    lc.update(vec![router_event(Duration::from_secs(1))], NOW);

    let events = lc.expire(later(2));

    assert_eq!(events.0.len(), 1);
    match &events.0[0] {
        Event::RouterExpiry { .. } => {}
        ev => panic!("unexpected event: {:?}", ev),
    }

    assert!(lc.router_store.is_empty());
}

#[test]
fn no_expiry_before_deadline() {
    let mut lc = Lifecycle::default();

    lc.update(vec![router_event(Duration::from_secs(10))], NOW);

    let events = lc.expire(later(5));
    assert!(events.0.is_empty());
    assert!(!lc.router_store.is_empty());
}

#[test]
fn prefix_insert_creates_single_lease() {
    let mut lc = Lifecycle::default();
    let key = Key::new(if0(), ip(1));

    let events = lc.update(
        vec![DetectorEvent::Prefix {
            key,
            prefix_info: prefix(ip(10), 64),
            lifetime: Duration::from_secs(30),
            preferred_lifetime: Duration::from_secs(0),
        }],
        NOW,
    );

    assert_eq!(events.len(), 1);
    assert!(matches!(events[0], Event::Prefix { .. }));

    let entries = lc.prefix_store.get(&key).unwrap();
    assert_eq!(entries.len(), 1);
    assert!(entries[0].expires_at > NOW);
}

#[test]
fn prefix_refresh_replaces_existing_lease() {
    let mut lc = Lifecycle::default();
    let key = Key::new(if0(), ip(1));

    lc.update(vec![prefix_event(key, prefix(ip(10), 64), 30, 0)], NOW);

    lc.update(vec![prefix_event(key, prefix(ip(10), 64), 60, 0)], later(10));

    let entries = lc.prefix_store.get(&key).unwrap();
    assert_eq!(entries.len(), 1);
    assert!(entries[0].expires_at > later(40));
    assert_eq!(entries[0].expires_at, later(70));
}

#[test]
fn prefix_expiry_removes_only_target() {
    let mut lc = Lifecycle::default();
    let key = Key::new(if0(), ip(1));

    lc.update(
        vec![
            prefix_event(key, prefix(ip(10), 64), 5, 0),
            prefix_event(key, prefix(ip(20), 56), 30, 0),
        ],
        NOW,
    );

    let (events, _) = lc.expire(later(10));

    assert!(events.iter().any(|e| matches!(
        e,
        Event::PrefixExpiry { prefix_info, .. } if prefix_info.prefix == ip(10)
    )));

    let remaining = lc.prefix_store.get(&key).unwrap();
    assert_eq!(remaining.len(), 1);
    assert_eq!(remaining[0].data.prefix, ip(20));
}

#[test]
fn prefix_soft_expiry_does_not_remove_lease() {
    let mut lc = Lifecycle::default();
    let key = Key::new(if0(), ip(1));

    lc.update(vec![prefix_event(key, prefix(ip(10), 64), 30, 10)], NOW);

    let (_, soft_events) = lc.expire(later(15));

    assert!(soft_events.iter().any(|e| matches!(
        e,
        Event::PrefixSoftExpiry { prefix_info, .. }
        if prefix_info.prefix == ip(10)
    )));

    assert_eq!(lc.prefix_store.get(&key).unwrap().len(), 1);
}

#[test]
fn dns_expiry_emits_state_update() {
    let mut lc = Lifecycle::default();
    let key = Key::new(if0(), ip(1));

    lc.update(
        vec![DetectorEvent::DnsServers(
            key,
            vec![
                dns_servers(&[ip(10)], Duration::from_secs(5)),
                dns_servers(&[ip(20)], Duration::from_secs(30)),
            ],
        )],
        NOW,
    );

    let (events, _) = lc.expire(later(10));

    match &events[0] {
        Event::DnsServers { servers, .. } => {
            assert_eq!(servers.len(), 1);
            assert_eq!(servers[0].servers, vec![ip(20)]);
        }
        _ => panic!("expected DNS state update"),
    }
}

// Edge cases

#[test]
fn a_deadline_is_reached_exactly() {
    let mut lc = Lifecycle::default();
    lc.update(vec![router_event(Duration::from_secs(10))], NOW);
    let just_before = Instant { nanos: later(10).nanos - 1 };
    assert!(lc.expire(just_before).0.is_empty());
    assert_eq!(lc.expire(later(10)).0.len(), 1);
}

#[test]
fn next_expiry_is_the_earliest_deadline() {
    let mut lc = Lifecycle::default();
    assert_eq!(lc.next_expiry(), None);
    let key = Key::new(if0(), ip(1));
    lc.update(vec![router_event(Duration::from_secs(100))], NOW);
    assert_eq!(lc.next_expiry(), Some(later(100)));
    lc.update(
        vec![DetectorEvent::DnsServers(
            key,
            vec![
                dns_servers(&[ip(10)], Duration::from_secs(90)),
                dns_servers(&[ip(20)], Duration::from_secs(80)),
            ],
        )],
        NOW,
    );
    assert_eq!(lc.next_expiry(), Some(later(80)));
    lc.update(
        vec![DetectorEvent::DnsDomains(
            key,
            vec![DnsDomains {
                domains: vec!["example.com.".to_string()],
                lifetime: Duration::from_secs(70),
            }],
        )],
        NOW,
    );
    assert_eq!(lc.next_expiry(), Some(later(70)));
    lc.update(vec![prefix_event(key, prefix(ip(10), 64), 60, 0)], NOW);
    assert_eq!(lc.next_expiry(), Some(later(60)));
    lc.update(vec![prefix_event(key, prefix(ip(11), 64), 60, 50)], NOW);
    assert_eq!(lc.next_expiry(), Some(later(50)));
}

#[test]
fn a_zero_router_lifetime_withdraws_everything_of_the_router() {
    let mut lc = Lifecycle::default();
    let key = Key::new(if0(), ip(1));
    let other = Key::new(if0(), ip(2));
    lc.update(
        vec![
            router_event(Duration::from_secs(100)),
            DetectorEvent::DnsServers(key, vec![dns_servers(&[ip(10)], Duration::from_secs(9))]),
            prefix_event(key, prefix(ip(10), 64), 60, 30),
            prefix_event(other, prefix(ip(20), 64), 60, 0),
        ],
        NOW,
    );
    let events = lc.update(vec![router_event(Duration::from_secs(0))], NOW);
    assert_eq!(events.len(), 1);
    assert!(matches!(&events[0], Event::RouterExpiry { key: k } if *k == key));
    assert!(lc.router_store.is_empty());
    assert!(lc.dns_servers_store.is_empty());
    assert!(lc.dns_domains_store.is_empty());
    assert!(lc.soft_prefix_store.is_empty());
    assert!(lc.prefix_store.get(&key).is_none());
    assert_eq!(lc.prefix_store.get(&other).unwrap().len(), 1);
}

#[test]
fn an_expired_router_takes_everything_with_it() {
    let mut lc = Lifecycle::default();
    let key = Key::new(if0(), ip(1));
    lc.update(
        vec![
            router_event(Duration::from_secs(10)),
            DetectorEvent::DnsServers(key, vec![dns_servers(&[ip(10)], Duration::from_secs(99))]),
            prefix_event(key, prefix(ip(10), 64), 99, 50),
        ],
        NOW,
    );
    let (events, soft) = lc.expire(later(10));
    assert_eq!(events.len(), 1);
    assert!(soft.is_empty());
    assert_eq!(lc.next_expiry(), None);
}

#[test]
fn new_dns_data_replaces_the_old() {
    let mut lc = Lifecycle::default();
    let key = Key::new(if0(), ip(1));
    lc.update(
        vec![DetectorEvent::DnsServers(
            key,
            vec![dns_servers(&[ip(1)], Duration::from_secs(9))],
        )],
        NOW,
    );
    lc.update(
        vec![DetectorEvent::DnsServers(
            key,
            vec![dns_servers(&[ip(2)], Duration::from_secs(20))],
        )],
        NOW,
    );
    let entries = lc.dns_servers_store.get(&key).unwrap();
    assert_eq!(entries.len(), 1);
    assert_eq!(entries[0].data.servers, vec![ip(2)]);
    assert_eq!(entries[0].expires_at, later(20));
    lc.update(vec![DetectorEvent::DnsServers(key, vec![])], NOW);
    assert!(lc.dns_servers_store.is_empty());
}

#[test]
fn the_last_dns_group_to_expire_leaves_an_empty_list() {
    let mut lc = Lifecycle::default();
    let key = Key::new(if0(), ip(1));
    lc.update(
        vec![DetectorEvent::DnsDomains(
            key,
            vec![DnsDomains {
                domains: vec!["example.com.".to_string()],
                lifetime: Duration::from_secs(5),
            }],
        )],
        NOW,
    );
    let (events, _) = lc.expire(later(5));
    assert_eq!(events.len(), 1);
    assert!(matches!(&events[0], Event::DnsDomains { domains, .. } if domains.is_empty()));
    let (events, _) = lc.expire(later(6));
    assert!(events.is_empty());
}

#[test]
fn a_zero_valid_lifetime_ends_one_lease() {
    let mut lc = Lifecycle::default();
    let key = Key::new(if0(), ip(1));
    lc.update(
        vec![
            prefix_event(key, prefix(ip(10), 64), 30, 0),
            prefix_event(key, prefix(ip(20), 64), 30, 0),
        ],
        NOW,
    );
    let events = lc.update(vec![prefix_event(key, prefix(ip(10), 64), 0, 0)], NOW);
    assert!(matches!(
        &events[0],
        Event::PrefixExpiry { prefix_info, .. } if prefix_info.prefix == ip(10)
    ));
    assert_eq!(lc.prefix_store.get(&key).unwrap().len(), 1);
    lc.update(vec![prefix_event(key, prefix(ip(20), 64), 0, 0)], NOW);
    assert!(lc.prefix_store.is_empty());
    lc.update(vec![prefix_event(key, prefix(ip(30), 64), 0, 0)], NOW);
    assert!(lc.prefix_store.is_empty());
}

#[test]
fn a_router_that_withdraws_itself_is_reported_once() {
    let mut lc = Lifecycle::default();
    let events = lc.update(vec![router_event(Duration::from_secs(0))], NOW);
    assert_eq!(events.len(), 1);
    assert!(matches!(&events[0], Event::RouterExpiry { .. }));
    assert_eq!(lc.next_expiry(), None);
}

#[test]
fn every_observation_is_reported_once_and_in_order() {
    let mut lc = Lifecycle::default();
    let key = Key::new(if0(), ip(1));
    let observe = |lc: &mut Lifecycle| {
        lc.update(
            vec![
                router_event(Duration::from_secs(100)),
                DetectorEvent::DnsServers(
                    key,
                    vec![dns_servers(&[ip(10)], Duration::from_secs(9))],
                ),
                DetectorEvent::DnsDomains(key, vec![]),
                prefix_event(key, prefix(ip(10), 64), 30, 10),
                prefix_event(key, prefix(ip(20), 64), 0, 0),
            ],
            NOW,
        )
    };
    // A refresh is reported like the first time.
    for _ in 0..2 {
        let events = observe(&mut lc);
        assert_eq!(events.len(), 5);
        assert!(matches!(&events[0], Event::Router { key: k, .. } if *k == key));
        assert!(matches!(
            &events[1],
            Event::DnsServers { servers, .. }
                if servers.len() == 1 && servers[0].servers == [ip(10)]
        ));
        assert!(matches!(&events[2], Event::DnsDomains { domains, .. } if domains.is_empty()));
        assert!(matches!(
            &events[3],
            Event::Prefix { prefix_info, .. } if *prefix_info == prefix(ip(10), 64)
        ));
        assert!(matches!(
            &events[4],
            Event::PrefixExpiry { prefix_info, .. } if *prefix_info == prefix(ip(20), 64)
        ));
    }
}

#[test]
fn a_refreshed_prefix_soft_expires_at_its_new_time() {
    let mut lc = Lifecycle::default();
    let key = Key::new(if0(), ip(1));
    lc.update(vec![prefix_event(key, prefix(ip(10), 64), 30, 10)], NOW);
    lc.update(vec![prefix_event(key, prefix(ip(10), 64), 30, 10)], later(5));
    assert_eq!(lc.next_expiry(), Some(later(15)));
    let (events, soft) = lc.expire(later(12));
    assert_eq!((events.len(), soft.len()), (0, 0));
    let (events, soft) = lc.expire(later(15));
    assert_eq!((events.len(), soft.len()), (0, 1));
    assert!(matches!(
        &soft[0],
        Event::PrefixSoftExpiry { prefix_info, .. } if prefix_info.prefix == ip(10)
    ));
    assert_eq!(lc.next_expiry(), Some(later(35)));
}

#[test]
fn a_refresh_without_preferred_lifetime_ends_the_earlier_one() {
    let mut lc = Lifecycle::default();
    let key = Key::new(if0(), ip(1));
    lc.update(
        vec![
            prefix_event(key, prefix(ip(10), 64), 30, 10),
            prefix_event(key, prefix(ip(20), 64), 30, 20),
        ],
        NOW,
    );
    lc.update(vec![prefix_event(key, prefix(ip(10), 64), 30, 30)], later(5));
    assert_eq!(lc.next_expiry(), Some(later(20)));
    let (_, soft) = lc.expire(later(29));
    assert_eq!(soft.len(), 1);
    assert!(matches!(
        &soft[0],
        Event::PrefixSoftExpiry { prefix_info, .. } if prefix_info.prefix == ip(20)
    ));
}

#[test]
fn a_zero_preferred_lifetime_leaves_the_earlier_one() {
    let mut lc = Lifecycle::default();
    let key = Key::new(if0(), ip(1));
    lc.update(vec![prefix_event(key, prefix(ip(10), 64), 30, 10)], NOW);
    lc.update(vec![prefix_event(key, prefix(ip(10), 64), 30, 0)], later(5));
    assert_eq!(lc.next_expiry(), Some(later(10)));
    let (events, soft) = lc.expire(later(12));
    assert_eq!((events.len(), soft.len()), (0, 1));
    assert!(matches!(
        &soft[0],
        Event::PrefixSoftExpiry { prefix_info, .. } if prefix_info.prefix == ip(10)
    ));
    assert_eq!(lc.next_expiry(), Some(later(35)));
}

#[test]
fn a_withdrawn_prefix_does_not_soft_expire() {
    let mut lc = Lifecycle::default();
    let key = Key::new(if0(), ip(1));
    lc.update(vec![prefix_event(key, prefix(ip(10), 64), 30, 10)], NOW);
    lc.update(vec![prefix_event(key, prefix(ip(10), 64), 0, 10)], later(5));
    assert!(lc.soft_prefix_store.is_empty());
    assert_eq!(lc.next_expiry(), None);
    let (events, soft) = lc.expire(later(30));
    assert_eq!((events.len(), soft.len()), (0, 0));
}

#[test]
fn equal_lifetimes_give_no_soft_expiry() {
    let mut lc = Lifecycle::default();
    let key = Key::new(if0(), ip(1));
    lc.update(vec![prefix_event(key, prefix(ip(10), 64), 30, 30)], NOW);
    assert!(lc.soft_prefix_store.is_empty());
    let (events, soft) = lc.expire(later(30));
    assert_eq!(events.len(), 1);
    assert!(soft.is_empty());
}

#[test]
fn expiring_twice_reports_once() {
    let mut lc = Lifecycle::default();
    let key = Key::new(if0(), ip(1));
    lc.update(
        vec![
            prefix_event(key, prefix(ip(10), 64), 30, 10),
            DetectorEvent::DnsServers(key, vec![dns_servers(&[ip(10)], Duration::from_secs(9))]),
        ],
        NOW,
    );
    let (events, soft) = lc.expire(later(30));
    assert_eq!((events.len(), soft.len()), (2, 1));
    let (events, soft) = lc.expire(later(30));
    assert_eq!((events.len(), soft.len()), (0, 0));
    assert_eq!(lc.next_expiry(), None);
}
