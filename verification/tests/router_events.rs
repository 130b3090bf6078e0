//! The whole pipeline, from messages on the wire to events.
use ipv6_router_advertisement::address::Ipv6Addr;
use ipv6_router_advertisement::monitor::RouterMonitor;
use ipv6_router_advertisement::time::{Duration, Instant};
use ipv6_router_advertisement::{Event, InterfaceIndex};

const START: Instant = Instant { nanos: 5_000_000_000 };

fn at(secs: u64) -> Instant {
    START.after(Duration::from_secs(secs))
}

/// Documentation addresses `2001:db8::x`.
fn ip(x: u16) -> Ipv6Addr {
    Ipv6Addr::new(0x2001, 0x0db8, 0, 0, 0, 0, 0, x)
}

/// Link-local addresses `fe80::x`.
fn link_local(x: u16) -> Ipv6Addr {
    Ipv6Addr::new(0xfe80, 0, 0, 0, 0, 0, 0, x)
}

fn ra_minimal(lifetime: u16) -> Vec<u8> {
    // Managed and Other Configuration
    let mut buf = vec![134, 0, 0, 0, 64, 0b1100_0000];
    buf.extend_from_slice(&lifetime.to_be_bytes());
    buf.extend_from_slice(&[0; 8]);
    buf
}

fn push_rdnss(buf: &mut Vec<u8>, lifetime: u32, servers: &[u8]) {
    buf.push(25);
    buf.push((1 + 2 * servers.len()) as u8);
    buf.extend_from_slice(&[0, 0]);
    buf.extend_from_slice(&lifetime.to_be_bytes());
    for s in servers {
        buf.extend_from_slice(&[0x20, 0x01, 0x0d, 0xb8, 0, 0, 0, 0, 0, 0, 0, 0, 0, 0, 0, *s]);
    }
}

fn push_dnssl(buf: &mut Vec<u8>, lifetime: u32, domains: &[&str]) {
    let start = buf.len();
    buf.push(31);
    buf.push(0);
    buf.extend_from_slice(&[0, 0]);
    buf.extend_from_slice(&lifetime.to_be_bytes());
    for d in domains {
        buf.extend_from_slice(&dns_name(d));
    }
    let len = buf.len() - start;
    let padded = (len + 7) & !7;
    buf.resize(start + padded, 0);
    buf[start + 1] = (padded / 8) as u8;
}

fn dns_name(name: &str) -> Vec<u8> {
    let mut out = Vec::new();
    for label in name.trim_end_matches('.').split('.') {
        out.push(label.len() as u8);
        out.extend_from_slice(label.as_bytes());
    }
    out.push(0);
    out
}

fn ra_with_rdnss_dnssl(
    lifetime: u16,
    rdnss_lifetime: u32,
    servers: &[u8],
    dnssl_lifetime: u32,
    domains: &[&str],
) -> Vec<u8> {
    let mut buf = ra_minimal(lifetime);
    push_rdnss(&mut buf, rdnss_lifetime, servers);
    push_dnssl(&mut buf, dnssl_lifetime, domains);
    buf
}

fn push_prefix(buf: &mut Vec<u8>, prefix: Ipv6Addr, prefix_len: u8, valid: u32, preferred: u32) {
    buf.push(3);
    buf.push(4);
    buf.push(prefix_len);
    buf.push(0b1100_0000);
    buf.extend_from_slice(&valid.to_be_bytes());
    buf.extend_from_slice(&preferred.to_be_bytes());
    buf.extend_from_slice(&[0, 0, 0, 0]);
    buf.extend_from_slice(&prefix.bits.to_be_bytes());
}

fn ra_with_prefix(
    router_lifetime: u16,
    prefix: Ipv6Addr,
    prefix_len: u8,
    valid: u32,
    preferred: u32,
) -> Vec<u8> {
    let mut buf = ra_minimal(router_lifetime);
    push_prefix(&mut buf, prefix, prefix_len, valid, preferred);
    buf
}

fn inject(
    monitor: &mut RouterMonitor<u32>,
    ifindex: InterfaceIndex,
    router: u16,
    payload: Vec<u8>,
    now: Instant,
) -> Vec<Event> {
    monitor
        .receive(ifindex, link_local(router), &payload, now)
        .expect("no advertisement")
        .events
}

/// Lets time pass up to `now`, expiring at every deadline on the way.
fn advance(monitor: &mut RouterMonitor<u32>, now: Instant) -> Vec<Event> {
    let mut events = Vec::new();
    while let Some(next) = monitor.next_expiry() {
        if next > now {
            break;
        }
        events.append(&mut monitor.expire(next));
    }
    events
}

fn assert_router_updates(events: &[Event], ifindex: InterfaceIndex) {
    assert!(events
        .iter()
        .any(|e| matches!(e, Event::RouterUpdate { ifindex: i, .. } if *i == ifindex)));
}

fn assert_router_down(events: &[Event], ifindex: InterfaceIndex) {
    assert!(events
        .iter()
        .any(|e| matches!(e, Event::RouterDown { ifindex: i } if *i == ifindex)));
}

fn assert_dns(
    events: &mut Vec<Event>,
    ifindex: InterfaceIndex,
    servers: &[u16],
    domains: &[&str],
) {
    let mut expected_servers: Vec<Ipv6Addr> = servers.iter().map(|i| ip(*i)).collect();
    expected_servers.sort();
    let mut expected_domains: Vec<String> = domains.iter().map(|s| s.to_string()).collect();
    expected_domains.sort();
    let found = events.iter().position(|e| match e {
        Event::RaDns {
            ifindex: i,
            servers,
            domains,
        } if *i == ifindex => {
            let mut got_servers = servers.clone();
            got_servers.sort();
            let mut got_domains = domains.clone();
            got_domains.sort();
            got_servers == expected_servers && got_domains == expected_domains
        }
        _ => false,
    });
    match found {
        Some(n) => {
            events.remove(n);
        }
        None => panic!("missing RaDns event for {ifindex}: {events:?}"),
    }
}

fn assert_prefixes(events: &mut Vec<Event>, ifindex: InterfaceIndex, expected: &[Ipv6Addr]) {
    let n = events
        .iter()
        .position(|e| matches!(e, Event::RaPrefix { ifindex: i, .. } if *i == ifindex))
        .expect("expected RaPrefix event not found");
    match events.remove(n) {
        Event::RaPrefix { prefixes, .. } => {
            let mut got: Vec<Ipv6Addr> = prefixes.iter().map(|p| p.prefix).collect();
            let mut expected = expected.to_vec();
            got.sort();
            expected.sort();
            assert_eq!(got, expected, "prefix mismatch for interface {ifindex}");
        }
        _ => unreachable!(),
    }
}

#[test]
fn emits_router_up_after_ra() {
    let mut monitor: RouterMonitor<u32> = RouterMonitor::default();

    let (mut burst, _) = monitor.link_up(2, 0);
    let sent = burst.next_solicitation().expect("no RS sent");
    assert_eq!(sent.ifindex, 2);
    assert_eq!(sent.destination, Ipv6Addr::new(0xff02, 0, 0, 0, 0, 0, 0, 2));

    let events = inject(&mut monitor, 2, 1, ra_minimal(1800), at(1));

    assert_eq!(events.len(), 1);
    match events[0] {
        Event::RouterUpdate {
            managed,
            other_config,
            ..
        } => {
            assert!(managed);
            assert!(other_config);
        }
        ref other => panic!("unexpected event: {:?}", other),
    }
}

#[test]
fn rs_burst_aborts_on_ra() {
    let mut monitor: RouterMonitor<u32> = RouterMonitor::default();
    let (mut burst, stop) = monitor.link_up(2, 7);
    assert!(stop.is_none());
    assert!(burst.next_solicitation().is_some(), "RS not sent");

    let reaction = monitor
        .receive(2, link_local(1), &ra_minimal(1800), at(1))
        .expect("event expected");
    assert_eq!(reaction.stop, Some(7), "RS burst was not aborted");

    let reaction = monitor.receive(2, link_local(1), &ra_minimal(1800), at(2)).unwrap();
    assert_eq!(reaction.stop, None);
}

#[test]
fn lifecycle_expiry_emits_event() {
    let mut monitor: RouterMonitor<u32> = RouterMonitor::default();

    inject(&mut monitor, 2, 1, ra_minimal(1800), at(0));
    assert_eq!(monitor.next_expiry(), Some(at(1800)));

    let events = monitor.expire(at(1801));
    assert_eq!(events.len(), 1);
    assert!(matches!(events[0], Event::RouterDown { .. }));
    assert_eq!(monitor.next_expiry(), None);
}

#[test]
fn parses_rdnss_and_dnssl_end_to_end() {
    let mut monitor: RouterMonitor<u32> = RouterMonitor::default();

    let events = inject(
        &mut monitor,
        2,
        1,
        ra_with_rdnss_dnssl(1800, 60, &[1, 2], 60, &["example.com"]),
        at(0),
    );

    assert_eq!(events.len(), 2);
    assert!(matches!(events[0], Event::RouterUpdate { .. }));
    match &events[1] {
        Event::RaDns {
            servers, domains, ..
        } => {
            assert_eq!(*servers, vec![ip(1), ip(2)]);
            assert_eq!(*domains, vec!["example.com."]);
        }
        other => panic!("unexpected event: {other:?}"),
    }
}

#[test]
fn multi_interface_multi_router_expiry() {
    let mut monitor: RouterMonitor<u32> = RouterMonitor::default();

    assert_eq!(inject(&mut monitor, 2, 1, ra_minimal(1000), at(0)).len(), 1);
    assert_eq!(inject(&mut monitor, 2, 2, ra_minimal(1200), at(0)).len(), 0);
    assert_eq!(inject(&mut monitor, 3, 3, ra_minimal(1800), at(0)).len(), 1);

    // Only interface 2 expires
    let events = advance(&mut monitor, at(1201));
    assert_eq!(events.len(), 1);
    assert!(matches!(events[0], Event::RouterDown { ifindex: 2 }));
}

#[test]
fn multi_interface_multi_router_dns_expiry() {
    let mut monitor: RouterMonitor<u32> = RouterMonitor::default();
    let mut evs = Vec::new();

    // Initial Router Advertisements
    evs.append(&mut inject(
        &mut monitor,
        2,
        1,
        ra_with_rdnss_dnssl(200, 60, &[1, 2, 3], 60, &["example1.com", "example2.com"]),
        at(0),
    ));
    evs.append(&mut inject(
        &mut monitor,
        2,
        2,
        ra_with_rdnss_dnssl(90, 120, &[3, 4], 100, &["example2.com", "example3.com"]),
        at(0),
    ));
    evs.append(&mut inject(
        &mut monitor,
        3,
        3,
        ra_with_rdnss_dnssl(280, 280, &[5, 6], 280, &["example3.com", "example4.com"]),
        at(0),
    ));
    evs.append(&mut inject(
        &mut monitor,
        3,
        4,
        ra_with_rdnss_dnssl(400, 500, &[7, 8], 450, &["example4.com"]),
        at(0),
    ));

    // Phase 1: initial aggregation
    // Interface 2
    assert_router_updates(&evs, 2);
    assert_dns(&mut evs, 2, &[1, 2, 3], &["example1.com.", "example2.com."]);
    assert_dns(
        &mut evs,
        2,
        &[1, 2, 3, 4],
        &["example1.com.", "example2.com.", "example3.com."],
    );

    // Interface 3
    assert_router_updates(&evs, 3);
    assert_dns(&mut evs, 3, &[5, 6], &["example3.com.", "example4.com."]);
    assert_dns(&mut evs, 3, &[5, 6, 7, 8], &["example3.com.", "example4.com."]);

    // Phase 2: DNS data of the first router expires
    let mut evs = advance(&mut monitor, at(61));
    assert_dns(&mut evs, 2, &[3, 4], &["example2.com.", "example3.com."]);

    // Phase 3: the second router expires, and its DNS data with it
    let mut evs = advance(&mut monitor, at(91));
    assert!(
        !evs.iter()
            .any(|e| matches!(e, Event::RouterDown { ifindex: 2 })),
        "did not expect RouterDown for interface 2 yet"
    );
    assert_dns(&mut evs, 2, &[], &[]);

    // Phase 4: the first router expires
    let evs = advance(&mut monitor, at(201));
    assert_router_down(&evs, 2);

    // Phase 5: the third router is refreshed. Its lifetimes count from the
    // time that is handed over.
    let evs = inject(
        &mut monitor,
        3,
        3,
        ra_with_rdnss_dnssl(80, 70, &[5, 6], 60, &["example3.com", "example4.com"]),
        at(201),
    );
    assert!(evs.is_empty(), "events should be empty but: {evs:?}");
    let mut evs = monitor.expire(at(311));
    assert_eq!(evs.len(), 1);
    assert_dns(&mut evs, 3, &[7, 8], &["example4.com."]);

    // Phase 6: the remaining router expires with its DNS data
    let mut evs = advance(&mut monitor, at(401));
    assert_router_down(&evs, 3);
    assert_dns(&mut evs, 3, &[], &[]);
}

#[test]
fn parses_prefix_end_to_end() {
    let mut monitor: RouterMonitor<u32> = RouterMonitor::default();

    let events = inject(
        &mut monitor,
        2,
        1,
        ra_with_prefix(
            1800,
            ip(10),
            64,
            300, // valid lifetime
            100, // preferred lifetime
        ),
        at(0),
    );

    assert_eq!(events.len(), 2);
    assert!(matches!(events[0], Event::RouterUpdate { .. }));
    match &events[1] {
        Event::RaPrefix { ifindex, prefixes } => {
            assert_eq!(*ifindex, 2);
            assert_eq!(prefixes.len(), 1);
            assert_eq!(prefixes[0].prefix, ip(10));
            assert_eq!(prefixes[0].prefix_len, 64);
        }
        other => panic!("unexpected event: {other:?}"),
    }
}

#[test]
fn prefix_valid_lifetime_expiry_emits_update() {
    let mut monitor: RouterMonitor<u32> = RouterMonitor::default();

    inject(
        &mut monitor,
        2,
        1,
        ra_with_prefix(
            1000,
            ip(20),
            64,
            60, // valid lifetime
            30, // preferred lifetime
        ),
        at(0),
    );

    // After preferred lifetime (soft expiry)
    let events = monitor.expire(at(31));
    assert_eq!(events.len(), 1);
    match &events[0] {
        Event::RaPrefixSoftExpiry { ifindex, prefix } => {
            assert_eq!(*ifindex, 2);
            assert_eq!(prefix.prefix, ip(20));
        }
        other => panic!("unexpected event: {other:?}"),
    }

    // After valid lifetime
    let events = monitor.expire(at(71));
    assert_eq!(events.len(), 1);
    match &events[0] {
        Event::RaPrefix { prefixes, .. } => {
            assert!(prefixes.is_empty());
        }
        other => panic!("unexpected event: {other:?}"),
    }
}

#[test]
fn multi_interface_multi_router_prefix_expiry() {
    let mut monitor: RouterMonitor<u32> = RouterMonitor::default();
    let mut evs = Vec::new();

    // Interface 2
    evs.append(&mut inject(
        &mut monitor,
        2,
        1,
        ra_with_prefix(200, ip(10), 64, 60, 30),
        at(0),
    ));
    evs.append(&mut inject(
        &mut monitor,
        2,
        2,
        ra_with_prefix(300, ip(20), 56, 120, 0),
        at(0),
    ));

    // Interface 3
    evs.append(&mut inject(
        &mut monitor,
        3,
        3,
        ra_with_prefix(500, ip(30), 64, 400, 0),
        at(0),
    ));

    assert_prefixes(&mut evs, 2, &[ip(10)]);
    assert_prefixes(&mut evs, 2, &[ip(10), ip(20)]);
    assert_prefixes(&mut evs, 3, &[ip(30)]);

    // The first prefix on interface 2 expires
    let mut evs = advance(&mut monitor, at(61));
    assert_prefixes(&mut evs, 2, &[ip(20)]);
    assert!(
        !evs.iter().any(|e| matches!(e, Event::RouterDown { .. })),
        "router should still be alive"
    );
}

#[test]
fn multi_interface_multi_router_dns_and_prefix_expiry() {
    let mut monitor: RouterMonitor<u32> = RouterMonitor::default();
    let mut evs = Vec::new();

    evs.append(&mut inject(
        &mut monitor,
        2,
        1,
        ra_with_rdnss_dnssl(200, 60, &[1, 2], 60, &["example.com"]),
        at(0),
    ));
    evs.append(&mut inject(
        &mut monitor,
        2,
        1,
        ra_with_prefix(200, ip(10), 64, 120, 60),
        at(0),
    ));

    assert_dns(&mut evs, 2, &[1, 2], &["example.com."]);
    assert_prefixes(&mut evs, 2, &[ip(10)]);

    // DNS expires first
    let mut evs = advance(&mut monitor, at(61));
    assert_dns(&mut evs, 2, &[], &[]);
    assert!(!evs.iter().any(|e| matches!(e, Event::RouterDown { .. })));

    // The prefix expires next
    let mut evs = advance(&mut monitor, at(122));
    assert_prefixes(&mut evs, 2, &[]);
}

#[test]
fn other_messages_change_nothing() {
    let mut monitor: RouterMonitor<u32> = RouterMonitor::default();
    monitor.link_up(2, 1);
    let mut echo = ra_minimal(1800);
    echo[0] = 128;
    assert!(monitor.receive(2, link_local(1), &echo, at(0)).is_none());
    assert!(monitor.receive(2, link_local(1), &[134, 0], at(0)).is_none());
    assert_eq!(monitor.next_expiry(), None);
    assert_eq!(monitor.pending_rs.len(), 1);
}

#[test]
fn a_second_link_up_replaces_the_burst() {
    let mut monitor: RouterMonitor<u32> = RouterMonitor::default();
    assert!(monitor.link_up(2, 1).1.is_none());
    assert!(monitor.link_up(3, 2).1.is_none());
    let (burst, stop) = monitor.link_up(2, 3);
    assert_eq!(stop, Some(1));
    assert_eq!(burst.remaining, 3);
    assert_eq!(burst.interval, Duration::from_secs(1));
    assert_eq!(monitor.pending_rs.get(&2), Some(&3));
    assert_eq!(monitor.pending_rs.get(&3), Some(&2));
}

#[test]
fn a_withdrawn_router_takes_its_prefixes_along() {
    let mut monitor: RouterMonitor<u32> = RouterMonitor::default();
    inject(&mut monitor, 2, 1, ra_with_prefix(200, ip(10), 64, 60, 30), at(0));
    let events = inject(&mut monitor, 2, 1, ra_minimal(0), at(1));
    assert_eq!(events.len(), 2);
    assert_router_down(&events, 2);
    assert!(matches!(&events[1], Event::RaPrefix { prefixes, .. } if prefixes.is_empty()));
    assert_eq!(monitor.next_expiry(), None);
}

#[test]
fn a_prefix_withdrawn_before_its_soft_expiry_is_not_reported() {
    let mut monitor: RouterMonitor<u32> = RouterMonitor::default();
    inject(&mut monitor, 2, 1, ra_with_prefix(200, ip(10), 64, 60, 30), at(0));
    inject(&mut monitor, 2, 1, ra_with_prefix(200, ip(10), 64, 0, 0), at(1));
    assert!(monitor.expire(at(31)).is_empty());
}

#[test]
fn a_repeated_advertisement_keeps_its_prefix_preferred() {
    let mut monitor: RouterMonitor<u32> = RouterMonitor::default();
    inject(&mut monitor, 2, 1, ra_with_prefix(200, ip(10), 64, 30, 10), at(0));
    assert!(inject(&mut monitor, 2, 1, ra_with_prefix(200, ip(10), 64, 30, 10), at(5)).is_empty());
    assert_eq!(monitor.next_expiry(), Some(at(15)));
    assert!(monitor.expire(at(12)).is_empty());
    let events = monitor.expire(at(15));
    assert_eq!(events.len(), 1);
    assert!(matches!(
        &events[0],
        Event::RaPrefixSoftExpiry { ifindex: 2, prefix } if prefix.prefix == ip(10)
    ));
    assert_eq!(monitor.next_expiry(), Some(at(35)));
}

#[test]
fn dns_data_of_a_refreshed_router_ends_group_by_group() {
    let mut monitor: RouterMonitor<u32> = RouterMonitor::default();
    let (servers, domains): (&[u8], &[&str]) = (&[5, 6], &["example3.com", "example4.com"]);
    inject(&mut monitor, 3, 3, ra_with_rdnss_dnssl(280, 280, servers, 280, domains), at(0));
    let refresh = ra_with_rdnss_dnssl(80, 70, servers, 60, domains);
    assert!(inject(&mut monitor, 3, 3, refresh, at(251)).is_empty());
    assert!(advance(&mut monitor, at(310)).is_empty());
    let mut evs = advance(&mut monitor, at(321));
    assert_dns(&mut evs, 3, &[5, 6], &[]);
    assert_dns(&mut evs, 3, &[], &[]);
    assert_router_down(&advance(&mut monitor, at(331)), 3);
}

#[test]
fn a_prefix_that_is_withdrawn_and_one_that_is_announced_together() {
    let mut monitor: RouterMonitor<u32> = RouterMonitor::default();
    let mut ra = ra_minimal(200);
    push_prefix(&mut ra, ip(10), 64, 0, 0);
    push_prefix(&mut ra, ip(20), 64, 60, 0);
    let mut events = inject(&mut monitor, 2, 1, ra, at(0));
    assert_prefixes(&mut events, 2, &[ip(20)]);
}

#[test]
fn nothing_happens_before_the_next_deadline() {
    let mut monitor: RouterMonitor<u32> = RouterMonitor::default();
    inject(&mut monitor, 2, 1, ra_with_prefix(200, ip(10), 64, 60, 30), at(0));
    assert_eq!(monitor.next_expiry(), Some(at(30)));
    assert!(monitor.expire(at(29)).is_empty());
    assert_eq!(monitor.next_expiry(), Some(at(30)));
    // The prefix is still valid after its preferred lifetime.
    assert_eq!(monitor.expire(at(30)).len(), 1);
    assert_eq!(monitor.next_expiry(), Some(at(60)));
    assert!(monitor.expire(at(30)).is_empty());
}

#[test]
fn the_same_advertisement_again_is_not_reported() {
    let mut monitor: RouterMonitor<u32> = RouterMonitor::default();
    let ra = ra_with_rdnss_dnssl(200, 60, &[1], 60, &["example.com"]);
    assert_eq!(inject(&mut monitor, 2, 1, ra.clone(), at(0)).len(), 2);
    assert!(inject(&mut monitor, 2, 1, ra, at(5)).is_empty());
    assert_eq!(monitor.next_expiry(), Some(at(65)));
}

#[test]
fn prefixes_may_repeat_in_an_advertisement_that_comes_again() {
    let mut monitor: RouterMonitor<u32> = RouterMonitor::default();
    let mut ra = ra_minimal(200);
    push_prefix(&mut ra, ip(10), 64, 60, 0);
    push_prefix(&mut ra, ip(20), 64, 60, 0);
    push_prefix(&mut ra, ip(10), 56, 60, 0);
    push_prefix(&mut ra, ip(30), 64, 60, 0);
    push_prefix(&mut ra, ip(30), 64, 0, 0);
    let events = inject(&mut monitor, 2, 1, ra.clone(), at(0));
    assert_eq!(prefix_order(&events), vec![(ip(10), 56), (ip(20), 64)]);
    assert!(inject(&mut monitor, 2, 1, ra, at(5)).is_empty());
}

#[test]
fn a_prefix_that_is_withdrawn_and_announced_again_moves_to_the_end_once() {
    let mut monitor: RouterMonitor<u32> = RouterMonitor::default();
    let mut ra = ra_minimal(200);
    push_prefix(&mut ra, ip(10), 64, 0, 0);
    push_prefix(&mut ra, ip(10), 64, 60, 0);
    push_prefix(&mut ra, ip(20), 64, 60, 0);
    let events = inject(&mut monitor, 2, 1, ra.clone(), at(0));
    assert_eq!(prefix_order(&events), vec![(ip(10), 64), (ip(20), 64)]);
    let events = inject(&mut monitor, 2, 1, ra.clone(), at(5));
    assert_eq!(events.len(), 1);
    assert_eq!(prefix_order(&events), vec![(ip(20), 64), (ip(10), 64)]);
    assert!(inject(&mut monitor, 2, 1, ra, at(10)).is_empty());
}

/// The prefixes of the one prefix event, in their order.
fn prefix_order(events: &[Event]) -> Vec<(Ipv6Addr, u8)> {
    let lists: Vec<_> = events
        .iter()
        .filter_map(|e| match e {
            Event::RaPrefix { prefixes, .. } => {
                Some(prefixes.iter().map(|p| (p.prefix, p.prefix_len)).collect::<Vec<_>>())
            }
            _ => None,
        })
        .collect();
    assert_eq!(lists.len(), 1);
    lists[0].clone()
}

/// What an observer of one interface knows from the events alone.
#[derive(Debug, Default, PartialEq)]
struct Known {
    flags: Option<(bool, bool)>,
    servers: Vec<Ipv6Addr>,
    domains: Vec<String>,
    prefixes: Vec<Ipv6Addr>,
}

fn observe(known: &mut Known, events: Vec<Event>) {
    for event in events {
        match event {
            Event::RouterUpdate {
                managed,
                other_config,
                ..
            } => known.flags = Some((managed, other_config)),
            Event::RouterDown { .. } => known.flags = None,
            Event::RaDns {
                servers, domains, ..
            } => {
                known.servers = servers;
                known.domains = domains;
            }
            Event::RaPrefix { prefixes, .. } => {
                known.prefixes = prefixes.iter().map(|p| p.prefix).collect();
            }
            Event::RaPrefixSoftExpiry { .. } => {}
        }
    }
}

#[test]
fn events_alone_tell_the_state_of_an_interface() {
    let mut monitor: RouterMonitor<u32> = RouterMonitor::default();
    let mut known = Known::default();
    let check = |monitor: &RouterMonitor<u32>, known: &Known| {
        let state = monitor.aggregator.aggregate_interface(2);
        assert_eq!(known.flags, state.router.map(|r| (r.managed, r.other_config)));
        assert_eq!(known.servers, state.dns_servers);
        assert_eq!(known.domains, state.domains);
        let prefixes: Vec<Ipv6Addr> = state.prefixes.iter().map(|p| p.prefix).collect();
        assert_eq!(known.prefixes, prefixes);
    };
    let mut ra = ra_with_rdnss_dnssl(100, 50, &[1, 2], 60, &["example.com"]);
    push_prefix(&mut ra, ip(10), 64, 70, 20);
    observe(&mut known, inject(&mut monitor, 2, 1, ra, at(0)));
    check(&monitor, &known);
    assert_eq!(known.servers, vec![ip(1), ip(2)]);
    let ra = ra_with_rdnss_dnssl(40, 90, &[2, 3], 90, &["example.org"]);
    observe(&mut known, inject(&mut monitor, 2, 2, ra, at(1)));
    check(&monitor, &known);
    assert_eq!(known.servers, vec![ip(1), ip(2), ip(3)]);
    for secs in [20, 41, 50, 60, 70, 100] {
        observe(&mut known, monitor.expire(at(secs)));
        check(&monitor, &known);
    }
    assert_eq!(known, Known::default());
}
