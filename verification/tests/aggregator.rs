//! Aggregation of contributions and reports of changes.
use ipv6_router_advertisement::address::Ipv6Addr;
use ipv6_router_advertisement::aggregator::{
    diff_aggregate_parts, Aggregate, Aggregator, Router,
};
use ipv6_router_advertisement::detector::{DnsDomains, DnsServers, Key};
use ipv6_router_advertisement::lifecycle::{Event as LifecycleEvent, Lifecycle};
use ipv6_router_advertisement::merge::{extend_dedup, flatten_sorted_dedup_by_lifetime};
use ipv6_router_advertisement::table::Table;
use ipv6_router_advertisement::time::{Duration, Instant};
use ipv6_router_advertisement::{detector, Event, InterfaceIndex, Lifetime, PrefixInfo};

fn if0() -> InterfaceIndex {
    InterfaceIndex::from(0u32)
}

fn if1() -> InterfaceIndex {
    InterfaceIndex::from(1u32)
}

fn ip(a: u8) -> Ipv6Addr {
    Ipv6Addr::new(0x2001, 0xdb8, 0, 0, 0, 0, 0, a as u16)
}

fn raw(bits: u128) -> Ipv6Addr {
    Ipv6Addr { bits }
}

fn prefix_update(key: Key, prefix: Ipv6Addr, prefix_len: u8) -> LifecycleEvent {
    LifecycleEvent::Prefix {
        key,
        prefix_info: PrefixInfo { prefix, prefix_len },
    }
}

fn prefix_gone(key: Key, prefix: Ipv6Addr, prefix_len: u8) -> LifecycleEvent {
    LifecycleEvent::PrefixExpiry {
        key,
        prefix_info: PrefixInfo { prefix, prefix_len },
    }
}

#[test]
fn extend_dedup_adds_only_new_items() {
    let mut v = vec![1, 2, 3];
    extend_dedup(&mut v, vec![3, 4, 2, 5]);

    assert_eq!(v, vec![1, 2, 3, 4, 5]);
}

#[test]
fn aggregate_apply_router_or_combines_flags() {
    let mut agg = Aggregate::default();

    agg.apply_router(&Router {
        managed: true,
        other_config: false,
    });
    agg.apply_router(&Router {
        managed: false,
        other_config: true,
    });

    let router = agg.router.expect("missing router");
    assert!(router.managed);
    assert!(router.other_config);
}

#[test]
fn aggregate_apply_dns_expands_and_dedups() {
    let mut agg = Aggregate::default();

    agg.apply_dns_servers(&[ip(1), ip(2)]);
    agg.apply_dns_servers(&[ip(2), ip(3)]);

    assert_eq!(agg.dns_servers, vec![ip(1), ip(2), ip(3)]);
}

#[test]
fn aggregate_apply_domains_and_prefixes_dedups() {
    let mut agg = Aggregate::default();
    agg.apply_domains(&["a.".to_string(), "b.".to_string()]);
    agg.apply_domains(&["b.".to_string(), "c.".to_string()]);
    assert_eq!(agg.domains, vec!["a.", "b.", "c."]);
    let p = PrefixInfo {
        prefix: ip(1),
        prefix_len: 64,
    };
    let q = PrefixInfo {
        prefix: ip(1),
        prefix_len: 56,
    };
    agg.apply_prefixes(&[p, p, q]);
    assert_eq!(agg.prefixes, vec![p, q]);
}

#[test]
fn aggregate_groups_by_interface() {
    let mut a = Aggregator::default();

    a.routers.insert(
        Key::new(if0(), raw(1)),
        Router {
            managed: true,
            other_config: false,
        },
    );
    a.routers.insert(
        Key::new(if1(), raw(1)),
        Router {
            managed: false,
            other_config: true,
        },
    );

    let result = a.aggregate();

    let r0 = result
        .get(&if0())
        .expect("missing if0 aggregate")
        .router
        .as_ref()
        .expect("missing router if0");

    let r1 = result
        .get(&if1())
        .expect("missing if1 aggregate")
        .router
        .as_ref()
        .expect("missing router if1");

    assert!(r0.managed && !r0.other_config);
    assert!(!r1.managed && r1.other_config);
}

#[test]
fn process_emits_router_up() {
    let mut a = Aggregator::default();

    let events = vec![LifecycleEvent::Router {
        key: Key::new(if0(), raw(1)),
        managed: true,
        other_config: false,
    }];

    let updates = a.process(events);

    assert_eq!(updates.len(), 1);

    match &updates[0] {
        Event::RouterUpdate {
            ifindex: _,
            managed,
            other_config,
        } => {
            assert!(*managed);
            assert!(!*other_config);
        }
        ev => panic!("unexpected event: {:?}", ev),
    }
}

#[test]
fn process_emits_router_down() {
    let mut a = Aggregator::default();

    a.process(vec![LifecycleEvent::Router {
        key: Key::new(if0(), raw(1)),
        managed: true,
        other_config: false,
    }]);

    let updates = a.process(vec![LifecycleEvent::RouterExpiry {
        key: Key::new(if0(), raw(1)),
    }]);

    assert_eq!(updates.len(), 1);

    match updates[0] {
        Event::RouterDown { ifindex: _ } => {}
        ref ev => panic!("unexpected event: {:?}", ev),
    }
}

#[test]
fn process_emits_router_down_and_others() {
    let mut a = Aggregator::default();
    let key = Key::new(if0(), raw(1));
    let updates = a.process(vec![
        LifecycleEvent::Router {
            key,
            managed: true,
            other_config: false,
        },
        LifecycleEvent::DnsServers {
            key,
            servers: vec![DnsServers {
                servers: vec![raw(1)],
                lifetime: Duration::from_secs(1),
            }],
        },
        LifecycleEvent::Prefix {
            key,
            prefix_info: PrefixInfo {
                prefix: raw(1),
                prefix_len: 64,
            },
        },
    ]);

    assert_eq!(updates.len(), 3, "updates: {updates:?}");

    let updates = a.process(vec![LifecycleEvent::RouterExpiry { key }]);

    assert_eq!(updates.len(), 3, "updates: {updates:?}");

    match updates[0] {
        Event::RouterDown { ifindex: _ } => {}
        ref ev => panic!("unexpected event: {:?}", ev),
    }
    match updates[1] {
        Event::RaDns { ifindex: _, .. } => {}
        ref ev => panic!("unexpected event: {:?}", ev),
    }
    match updates[2] {
        Event::RaPrefix { ifindex: _, .. } => {}
        ref ev => panic!("unexpected event: {:?}", ev),
    }
}

#[test]
fn process_emits_dns_on_change() {
    let mut a = Aggregator::default();

    a.process(vec![LifecycleEvent::DnsServers {
        key: Key::new(if0(), raw(1)),
        servers: vec![DnsServers {
            servers: vec![ip(1)],
            lifetime: Duration::from_secs(1),
        }],
    }]);

    let updates = a.process(vec![
        LifecycleEvent::DnsServers {
            key: Key::new(if0(), raw(2)),
            servers: vec![DnsServers {
                servers: vec![ip(2)],
                lifetime: Duration::from_secs(1),
            }],
        },
        LifecycleEvent::DnsDomains {
            key: Key::new(if0(), raw(1)),
            domains: vec![DnsDomains {
                domains: vec!["example.com".into()],
                lifetime: Duration::from_secs(1),
            }],
        },
    ]);

    assert_eq!(updates.len(), 1);

    match &updates[0] {
        Event::RaDns {
            ifindex: _,
            servers,
            domains,
        } => {
            let mut servers = servers.clone();
            servers.sort();
            assert_eq!(servers, vec![ip(1), ip(2)]);
            assert_eq!(domains, &vec!["example.com"]);
        }
        ev => panic!("unexpected event: {:?}", ev),
    }
}

#[test]
fn process_does_not_emit_when_aggregate_is_identical() {
    let mut a = Aggregator::default();

    let e = LifecycleEvent::Router {
        key: Key::new(if0(), raw(1)),
        managed: true,
        other_config: false,
    };

    a.process(vec![e.clone()]);
    let updates = a.process(vec![e]);

    assert!(updates.is_empty());
}

#[test]
fn diff_start_condition_emits_all_sections() {
    let before = Table::default();

    let mut after = Table::default();
    after.insert(
        if0(),
        Aggregate {
            router: Some(Router {
                managed: true,
                other_config: false,
            }),
            dns_servers: vec![ip(1)],
            domains: vec!["example.com".into()],
            prefixes: vec![],
        },
    );

    let updates = diff_aggregate_parts(before, after);

    assert_eq!(updates.len(), 2);

    let mut saw_router = false;
    let mut saw_dns = false;

    for ev in updates {
        match ev {
            Event::RouterUpdate {
                ifindex: _,
                managed,
                other_config,
            } => {
                assert!(managed);
                assert!(!other_config);
                saw_router = true;
            }
            Event::RaDns {
                ifindex: _,
                servers,
                domains,
            } => {
                assert_eq!(servers, vec![ip(1)]);
                assert_eq!(domains, vec!["example.com"]);
                saw_dns = true;
            }
            other => panic!("unexpected event: {:?}", other),
        }
    }

    assert!(saw_router && saw_dns);
}

#[test]
fn diff_router_down_emits_router_down_only() {
    let mut before = Table::default();
    before.insert(
        if0(),
        Aggregate {
            router: Some(Router {
                managed: true,
                other_config: true,
            }),
            dns_servers: vec![ip(1)],
            domains: vec![],
            prefixes: vec![],
        },
    );

    let mut after = Table::default();
    after.insert(
        if0(),
        Aggregate {
            router: None,
            dns_servers: vec![ip(1)],
            domains: vec![],
            prefixes: vec![],
        },
    );

    let updates = diff_aggregate_parts(before, after);

    assert_eq!(updates.len(), 1);

    match updates[0] {
        Event::RouterDown { ifindex: _ } => {}
        ref ev => panic!("unexpected event: {:?}", ev),
    }
}

#[test]
fn diff_router_and_dns_change_emits_both() {
    let mut before = Table::default();
    before.insert(
        if0(),
        Aggregate {
            router: Some(Router {
                managed: false,
                other_config: false,
            }),
            dns_servers: vec![ip(1)],
            domains: vec!["old.example".into()],
            prefixes: vec![],
        },
    );

    let mut after = Table::default();
    after.insert(
        if0(),
        Aggregate {
            router: Some(Router {
                managed: true,
                other_config: true,
            }),
            dns_servers: vec![ip(2)],
            domains: vec!["new.example".into()],
            prefixes: vec![],
        },
    );

    let updates = diff_aggregate_parts(before, after);

    assert_eq!(updates.len(), 2);

    let mut saw_router = false;
    let mut saw_dns = false;

    for ev in updates {
        match ev {
            Event::RouterUpdate {
                ifindex: _,
                managed,
                other_config,
            } => {
                assert!(managed);
                assert!(other_config);
                saw_router = true;
            }
            Event::RaDns {
                ifindex: _,
                servers,
                domains,
            } => {
                assert_eq!(servers, vec![ip(2)]);
                assert_eq!(domains, vec!["new.example"]);
                saw_dns = true;
            }
            other => panic!("unexpected event: {:?}", other),
        }
    }

    assert!(saw_router && saw_dns);
}

#[test]
fn process_emits_prefix_on_insert() {
    let mut a = Aggregator::default();
    let key = Key::new(if0(), raw(1));

    let updates = a.process(vec![prefix_update(key, ip(0), 64)]);

    assert_eq!(updates.len(), 1);

    match &updates[0] {
        Event::RaPrefix { ifindex, prefixes } => {
            assert_eq!(*ifindex, if0());
            assert_eq!(prefixes.len(), 1);
            assert_eq!(prefixes[0].prefix_len, 64);
        }
        ev => panic!("unexpected event: {:?}", ev),
    }
}

#[test]
fn prefix_update_replaces_existing_prefix() {
    let mut a = Aggregator::default();
    let key = Key::new(if0(), raw(1));

    a.process(vec![prefix_update(key, ip(0), 64)]);

    let updates = a.process(vec![prefix_update(key, ip(0), 56)]);

    assert_eq!(updates.len(), 1);

    match &updates[0] {
        Event::RaPrefix { prefixes, .. } => {
            assert_eq!(prefixes.len(), 1);
            assert_eq!(prefixes[0].prefix_len, 56);
        }
        ev => panic!("unexpected event: {:?}", ev),
    }
}

#[test]
fn multiple_prefixes_from_same_router() {
    let mut a = Aggregator::default();
    let key = Key::new(if0(), raw(1));

    let updates = a.process(vec![
        prefix_update(key, ip(0), 64),
        prefix_update(key, ip(1), 56),
    ]);

    assert_eq!(updates.len(), 1);

    match &updates[0] {
        Event::RaPrefix { prefixes, .. } => {
            assert_eq!(prefixes.len(), 2);
        }
        ev => panic!("unexpected event: {:?}", ev),
    }
}

#[test]
fn prefix_expiry_removes_only_one_prefix() {
    let mut a = Aggregator::default();
    let key = Key::new(if0(), raw(1));

    a.process(vec![
        prefix_update(key, ip(0), 64),
        prefix_update(key, ip(1), 56),
    ]);

    let updates = a.process(vec![prefix_gone(key, ip(0), 64)]);

    assert_eq!(updates.len(), 1);

    match &updates[0] {
        Event::RaPrefix { prefixes, .. } => {
            assert_eq!(prefixes.len(), 1);
            assert_eq!(prefixes[0].prefix, ip(1));
        }
        ev => panic!("unexpected event: {:?}", ev),
    }
}

#[test]
fn last_prefix_expired_emits_empty_prefix_state() {
    let mut a = Aggregator::default();
    let key = Key::new(if0(), raw(1));

    a.process(vec![prefix_update(key, ip(0), 64)]);

    let updates = a.process(vec![prefix_gone(key, ip(0), 64)]);

    assert_eq!(updates.len(), 1);

    match &updates[0] {
        Event::RaPrefix { prefixes, .. } => {
            assert!(prefixes.is_empty());
        }
        ev => panic!("unexpected event: {:?}", ev),
    }
    assert!(a.get_prefixes(&key).is_none());
}

#[test]
fn prefix_noop_does_not_emit() {
    let mut a = Aggregator::default();
    let key = Key::new(if0(), raw(1));

    let ev = prefix_update(key, ip(0), 64);

    a.process(vec![ev.clone()]);
    let updates = a.process(vec![ev]);

    assert!(updates.is_empty());
}

#[test]
fn a_stale_prefix_expiry_does_not_stop_what_follows() {
    let mut a = Aggregator::default();
    let key = Key::new(if0(), raw(1));
    let updates = a.process(vec![
        prefix_gone(key, ip(9), 64),
        prefix_update(key, ip(0), 64),
    ]);
    assert_eq!(updates.len(), 1);
    assert_eq!(a.get_prefixes(&key).unwrap().len(), 1);
}

#[test]
fn soft_expiry_changes_nothing() {
    let mut a = Aggregator::default();
    let key = Key::new(if0(), raw(1));
    a.process(vec![prefix_update(key, ip(0), 64)]);
    let updates = a.process(vec![LifecycleEvent::PrefixSoftExpiry {
        key,
        prefix_info: PrefixInfo {
            prefix: ip(0),
            prefix_len: 64,
        },
    }]);
    assert!(updates.is_empty());
    assert_eq!(a.get_prefixes(&key).unwrap().len(), 1);
}

#[test]
fn flags_of_routers_are_combined_until_one_goes() {
    let mut a = Aggregator::default();
    let (k1, k2) = (Key::new(if0(), raw(1)), Key::new(if0(), raw(2)));
    a.process(vec![LifecycleEvent::Router {
        key: k1,
        managed: true,
        other_config: false,
    }]);
    let updates = a.process(vec![LifecycleEvent::Router {
        key: k2,
        managed: false,
        other_config: true,
    }]);
    assert!(matches!(
        updates[0],
        Event::RouterUpdate { ifindex: 0, managed: true, other_config: true }
    ));
    let updates = a.process(vec![LifecycleEvent::RouterExpiry { key: k1 }]);
    assert!(matches!(
        updates[0],
        Event::RouterUpdate { ifindex: 0, managed: false, other_config: true }
    ));
}

#[test]
fn other_interfaces_are_not_reported() {
    let mut a = Aggregator::default();
    a.process(vec![
        prefix_update(Key::new(if0(), raw(1)), ip(0), 64),
        prefix_update(Key::new(if1(), raw(1)), ip(0), 64),
    ]);
    let updates = a.process(vec![LifecycleEvent::RouterExpiry {
        key: Key::new(if1(), raw(1)),
    }]);
    assert_eq!(updates.len(), 1);
    assert!(matches!(&updates[0], Event::RaPrefix { ifindex: 1, prefixes } if prefixes.is_empty()));
}

#[test]
fn servers_of_several_routers_come_in_order_of_arrival() {
    let mut a = Aggregator::default();
    let group = |servers: Vec<Ipv6Addr>, secs: u64| DnsServers {
        servers,
        lifetime: Duration::from_secs(secs),
    };
    let updates = a.process(vec![
        LifecycleEvent::DnsServers {
            key: Key::new(if0(), raw(1)),
            servers: vec![group(vec![ip(1)], 5), group(vec![ip(2)], 9)],
        },
        LifecycleEvent::DnsServers {
            key: Key::new(if0(), raw(2)),
            servers: vec![group(vec![ip(3), ip(1)], 100)],
        },
    ]);
    assert!(matches!(
        &updates[0],
        Event::RaDns { servers, .. } if *servers == vec![ip(2), ip(1), ip(3)]
    ));
}

// The layers together

#[test]
fn lifecycle_expiry_triggers_router_down() {
    let mut lifecycle = Lifecycle::default();
    let mut aggregator = Aggregator::default();

    let now = Instant { nanos: 0 };

    // Pretend we detected a router
    let events = lifecycle.update(
        vec![detector::Event::Router {
            key: Key::new(1, raw(1)),
            managed: false,
            other_config: false,
            lifetime: Duration::from_secs(1),
        }],
        now,
    );
    let _aggregated = aggregator.process(events);

    // Advance time past expiry
    let (expired, _soft_expired) = lifecycle.expire(now.after(Duration::from_secs(2)));
    let aggregated = aggregator.process(expired);

    assert!(aggregated
        .iter()
        .any(|e| matches!(e, Event::RouterDown { ifindex: 1 })));
}

#[test]
fn ra_dns_event_is_emitted() {
    let mut aggregator = Aggregator::default();

    let events = vec![LifecycleEvent::DnsServers {
        key: detector::Key::new(1, raw(1)),
        servers: vec![DnsServers {
            servers: vec![Ipv6Addr::new(0x2001, 0xdb8, 0, 0, 0, 0, 0, 1)],
            lifetime: Duration::from_secs(1),
        }],
    }];

    let aggregated = aggregator.process(events);

    assert!(aggregated
        .iter()
        .any(|e| matches!(e, Event::RaDns { ifindex: 1, .. })));
}

// Ranking by lifetime

#[derive(Clone, Debug)]
struct Group {
    items: Vec<Ipv6Addr>,
    lifetime: Duration,
}

impl Lifetime for Group {
    fn spec_lifetime(&self) -> Duration {
        self.lifetime
    }

    fn lifetime(&self) -> Duration {
        self.lifetime
    }
}

#[test]
fn sorts_by_lifetime_descending() {
    let a = Group {
        items: vec![raw(1)],
        lifetime: Duration::from_secs(10),
    };
    let b = Group {
        items: vec![raw(2)],
        lifetime: Duration::from_secs(20),
    };

    let out = flatten_sorted_dedup_by_lifetime(&[a, b], |g: &Group| g.items.clone());

    assert_eq!(out, vec![raw(2), raw(1)]);
}

#[test]
fn removes_duplicates_preserving_first_seen() {
    let short = Group {
        items: vec![raw(1), raw(2)],
        lifetime: Duration::from_secs(5),
    };
    let long = Group {
        items: vec![raw(1), raw(3)],
        lifetime: Duration::from_secs(10),
    };

    let out = flatten_sorted_dedup_by_lifetime(&[short, long], |g: &Group| g.items.clone());

    // 1 comes from `long` (longer lifetime), and 2 only from `short`.
    assert_eq!(out, vec![raw(1), raw(3), raw(2)]);
}

#[test]
fn preserves_order_within_same_lifetime() {
    let a = Group {
        items: vec![raw(1), raw(2)],
        lifetime: Duration::from_secs(10),
    };
    let b = Group {
        items: vec![raw(3), raw(4)],
        lifetime: Duration::from_secs(10),
    };

    let out =
        flatten_sorted_dedup_by_lifetime(&[a.clone(), b.clone()], |g: &Group| g.items.clone());

    // Same lifetime: stable order as provided in input slice.
    assert_eq!(out, vec![raw(1), raw(2), raw(3), raw(4)]);
}

#[test]
fn empty_input_produces_empty_output() {
    let out: Vec<Ipv6Addr> = flatten_sorted_dedup_by_lifetime(&[], |g: &Group| g.items.clone());

    assert!(out.is_empty());
}
