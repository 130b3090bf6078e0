//! Detection of events in advertisements.
use ipv6_router_advertisement::address::Ipv6Addr;
use ipv6_router_advertisement::detector::{
    detect, detect_multi_option, DnsDomains, DnsServers, Event, Key,
};
use ipv6_router_advertisement::router_advertisement;
use ipv6_router_advertisement::router_advertisement::RouterAdvertisement;
use ipv6_router_advertisement::time::Duration;
use ipv6_router_advertisement::Lifetime;

fn ip(a: u16) -> Ipv6Addr {
    Ipv6Addr::new(0x2001, 0xdb8, 0, 0, 0, 0, 0, a)
}

fn base_ra() -> RouterAdvertisement {
    RouterAdvertisement {
        ifindex: 1,
        router_ip: ip(1),
        managed: true,
        other_config: false,
        router_lifetime: 30,
        rdnss: vec![],
        dnssl: vec![],
        prefixes: vec![],
    }
}

#[test]
fn detect_emits_router_update() {
    let ra = base_ra();
    let events = detect(ra);

    assert_eq!(events.len(), 1);

    match &events[0] {
        Event::Router {
            managed,
            other_config,
            lifetime,
            ..
        } => {
            assert!(*managed);
            assert!(!*other_config);
            assert_eq!(*lifetime, Duration::from_secs(30));
        }
        ev => panic!("unexpected event: {:?}", ev),
    }
}

#[test]
fn detect_emits_dns_servers_event() {
    let mut ra = base_ra();
    ra.rdnss = vec![router_advertisement::Rdnss {
        servers: vec![ip(2), ip(3)],
        lifetime: 60,
    }];

    let events = detect(ra);

    let dns = events
        .iter()
        .find_map(|e| match e {
            Event::DnsServers(_key, servers) => Some(servers),
            _ => None,
        })
        .expect("missing RouterDnsServers event");

    assert_eq!(dns.len(), 1);
    assert_eq!(dns[0].servers.len(), 2);
    assert_eq!(dns[0].lifetime, Duration::from_secs(60));
}

#[test]
fn detect_emits_dns_domains_event() {
    let mut ra = base_ra();
    ra.dnssl = vec![
        router_advertisement::Dnssl {
            domains: vec!["example.com".into()],
            lifetime: 120,
        },
        router_advertisement::Dnssl {
            domains: vec!["example1.com".into(), "example2.com".into()],
            lifetime: 100,
        },
    ];

    let events = detect(ra);

    let domains = events
        .iter()
        .find_map(|e| match e {
            Event::DnsDomains(_key, domains) => Some(domains),
            _ => None,
        })
        .expect("missing RouterDnsDomains event");

    assert_eq!(domains.len(), 2);
    assert_eq!(domains[0].domains.len(), 1);
    assert_eq!(domains[0].lifetime, Duration::from_secs(120));
    assert_eq!(domains[0].domains, vec!["example.com".to_string()]);
    assert_eq!(domains[1].domains.len(), 2);
    assert_eq!(domains[1].lifetime, Duration::from_secs(100));
    assert_eq!(
        domains[1].domains,
        vec!["example1.com".to_string(), "example2.com".to_string()]
    );
}

#[test]
fn detect_allows_empty_dns_lists() {
    let mut ra = base_ra();
    ra.rdnss = vec![router_advertisement::Rdnss {
        servers: Vec::new(),
        lifetime: 10,
    }];

    let events = detect(ra);

    let dns = events
        .iter()
        .find_map(|e| match e {
            Event::DnsServers(_key, servers) => Some(servers),
            _ => None,
        })
        .expect("missing RouterDnsServers event");

    assert_eq!(dns.len(), 1);
    assert!(dns[0].servers.is_empty());
}

#[test]
fn detect_emits_single_prefix() {
    let mut ra = base_ra();
    ra.prefixes = vec![router_advertisement::PrefixInfo {
        prefix: ip(10),
        prefix_len: 64,
        valid_lifetime: 100,
        preferred_lifetime: 50,
        autonomous: false,
        on_link: false,
    }];

    let events = detect(ra);

    let prefix = events
        .iter()
        .find_map(|e| match e {
            Event::Prefix {
                prefix_info,
                lifetime,
                preferred_lifetime,
                ..
            } => Some((prefix_info, lifetime, preferred_lifetime)),
            _ => None,
        })
        .expect("missing Prefix event");

    assert_eq!(prefix.0.prefix, ip(10));
    assert_eq!(*prefix.1, Duration::from_secs(100));
    assert_eq!(*prefix.2, Duration::from_secs(50));
}

#[test]
fn detect_emits_prefix_with_zero_lifetime() {
    let mut ra = base_ra();
    ra.prefixes = vec![router_advertisement::PrefixInfo {
        prefix: ip(30),
        prefix_len: 64,
        valid_lifetime: 0,
        preferred_lifetime: 0,
        autonomous: false,
        on_link: false,
    }];

    let events = detect(ra);

    let prefix = events
        .iter()
        .find(|e| matches!(e, Event::Prefix { .. }))
        .expect("missing Prefix event");

    match prefix {
        Event::Prefix { lifetime, .. } => {
            assert!(lifetime.is_zero());
        }
        _ => unreachable!(),
    }
}

#[test]
fn detect_emits_router_dns_and_prefix() {
    let mut ra = base_ra();
    ra.rdnss = vec![router_advertisement::Rdnss {
        servers: vec![ip(1)],
        lifetime: 100,
    }];
    ra.prefixes = vec![router_advertisement::PrefixInfo {
        prefix: ip(10),
        prefix_len: 64,
        valid_lifetime: 200,
        preferred_lifetime: 0,
        autonomous: false,
        on_link: false,
    }];

    let events = detect(ra);

    assert!(events.iter().any(|e| matches!(e, Event::Router { .. })));
    assert!(events.iter().any(|e| matches!(e, Event::DnsServers(_, _))));
    assert!(events.iter().any(|e| matches!(e, Event::Prefix { .. })));
}

#[test]
fn a_withdrawn_router_announces_nothing_else() {
    let mut ra = base_ra();
    ra.router_lifetime = 0;
    ra.rdnss = vec![router_advertisement::Rdnss {
        servers: vec![ip(1)],
        lifetime: 100,
    }];
    let events = detect(ra);
    assert_eq!(events.len(), 1);
    assert!(matches!(events[0], Event::Router { .. }));
}

#[test]
fn a_zero_option_lifetime_withdraws_all_servers() {
    let mut ra = base_ra();
    ra.rdnss = vec![
        router_advertisement::Rdnss {
            servers: vec![ip(1)],
            lifetime: 100,
        },
        router_advertisement::Rdnss {
            servers: vec![ip(2)],
            lifetime: 0,
        },
    ];
    let events = detect(ra);
    assert_eq!(events.len(), 2);
    match &events[1] {
        Event::DnsServers(key, servers) => {
            assert_eq!(*key, Key::new(1, ip(1)));
            assert!(servers.is_empty());
        }
        ev => panic!("unexpected event: {:?}", ev),
    }
}

#[test]
fn option_lifetimes_are_told_in_seconds() {
    let rdnss = router_advertisement::Rdnss {
        servers: vec![],
        lifetime: 7,
    };
    assert_eq!(rdnss.lifetime(), Duration { nanos: 7_000_000_000 });
    let prefix = router_advertisement::PrefixInfo {
        prefix: ip(1),
        prefix_len: 64,
        valid_lifetime: 9,
        preferred_lifetime: 3,
        on_link: true,
        autonomous: true,
    };
    assert_eq!(prefix.lifetime(), Duration::from_secs(9));
}

// Options that may occur several times

#[derive(Debug)]
struct TestOpt {
    id: u8,
    lifetime: Duration,
}

impl Lifetime for TestOpt {
    fn spec_lifetime(&self) -> Duration {
        self.lifetime
    }

    fn lifetime(&self) -> Duration {
        self.lifetime
    }
}

#[test]
fn detect_multi_option_collects_all_items() {
    let key = Key::new(1, Ipv6Addr { bits: 1 });
    let mut out = Vec::new();

    let input = vec![
        TestOpt {
            id: 1,
            lifetime: Duration::from_secs(10),
        },
        TestOpt {
            id: 2,
            lifetime: Duration::from_secs(20),
        },
    ];

    detect_multi_option(
        &mut out,
        key,
        input,
        |o: TestOpt| o.id,
        |k, v: Vec<u8>| {
            Event::DnsServers(
                k,
                vec![DnsServers {
                    servers: vec![
                        Ipv6Addr { bits: v[0] as u128 },
                        Ipv6Addr { bits: v[1] as u128 },
                    ],
                    lifetime: Duration::from_secs(1),
                }],
            )
        },
    );

    assert_eq!(out.len(), 1);
    match &out[0] {
        Event::DnsServers(_, groups) => {
            assert_eq!(groups[0].servers, vec![Ipv6Addr { bits: 1 }, Ipv6Addr { bits: 2 }]);
        }
        ev => panic!("unexpected event: {:?}", ev),
    }
}

#[test]
fn detect_multi_option_zero_lifetime_short_circuits() {
    let key = Key::new(1, Ipv6Addr { bits: 1 });
    let mut out = Vec::new();

    let input = vec![
        TestOpt {
            id: 1,
            lifetime: Duration::from_secs(10),
        },
        TestOpt {
            id: 2,
            lifetime: Duration::from_secs(0),
        },
        TestOpt {
            id: 3,
            lifetime: Duration::from_secs(20),
        },
    ];

    detect_multi_option(
        &mut out,
        key,
        input,
        |o: TestOpt| o.id,
        |k, v: Vec<u8>| {
            Event::DnsDomains(
                k,
                vec![DnsDomains {
                    domains: v.iter().map(|i| i.to_string()).collect(),
                    lifetime: Duration::from_secs(1),
                }],
            )
        },
    );

    assert_eq!(out.len(), 1);

    match &out[0] {
        Event::DnsDomains(_, domains) => {
            // Empty vector = explicit withdraw
            assert_eq!(domains.len(), 1);
            assert_eq!(domains[0].domains.len(), 0);
        }
        _ => panic!("unexpected event"),
    }
}

#[test]
fn detect_multi_option_empty_input_emits_nothing() {
    let key = Key::new(1, Ipv6Addr { bits: 1 });
    let mut out = Vec::new();

    let input: Vec<TestOpt> = vec![];

    detect_multi_option(
        &mut out,
        key,
        input,
        |o: TestOpt| o.id,
        |k, _: Vec<u8>| Event::DnsServers(k, vec![]),
    );

    assert!(out.is_empty());
}
