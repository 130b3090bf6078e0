//! What values stand for: their own fields, and nothing else.
use vstd::prelude::*;

use crate::address::Ipv6Addr;
use crate::aggregator::{Aggregate, Aggregator, Router};
use crate::detector;
use crate::detector::{DnsDomains, DnsServers, Key};
use crate::lifecycle;
use crate::lifecycle::{converted, Lifecycle, LifecycleEntry};
use crate::router_advertisement::{Dnssl, Rdnss, RouterAdvertisement};
use crate::table::Table;
use crate::time::{Duration, Instant};
use crate::{router_advertisement, Event, EventView, Lifetime, PrefixInfo};

verus! {

/// Plain values stand for themselves.
pub proof fn law_plain_views(
    address: Ipv6Addr,
    prefix: PrefixInfo,
    option: router_advertisement::PrefixInfo,
    key: Key,
    router: Router,
    span: Duration,
    point: Instant,
)
    ensures
        address.deep_view() == address,
        prefix.deep_view() == prefix,
        option.deep_view() == option,
        key.deep_view() == key,
        router.deep_view() == router,
        span.deep_view() == span,
        point.deep_view() == point,
{
}

/// An advertisement stands for all of its fields.
pub proof fn law_advertisement_view(ra: RouterAdvertisement, rdnss: Rdnss, dnssl: Dnssl)
    ensures
        ra.deep_view().ifindex == ra.ifindex,
        ra.deep_view().router_ip == ra.router_ip,
        ra.deep_view().managed == ra.managed,
        ra.deep_view().other_config == ra.other_config,
        ra.deep_view().router_lifetime == ra.router_lifetime,
        ra.deep_view().options.rdnss == ra.rdnss.deep_view(),
        ra.deep_view().options.dnssl == ra.dnssl.deep_view(),
        ra.deep_view().options.prefixes == ra.prefixes@,
        rdnss.deep_view().lifetime == rdnss.lifetime,
        rdnss.deep_view().items == rdnss.servers@,
        dnssl.deep_view().lifetime == dnssl.lifetime,
        dnssl.deep_view().items == dnssl.domains@.map_values(|s: String| s@),
{
    assert(ra.prefixes.deep_view() =~= ra.prefixes@);
    assert(rdnss.servers.deep_view() =~= rdnss.servers@);
    assert(dnssl.domains.deep_view() =~= dnssl.domains@.map_values(|s: String| s@));
}

/// A group stands for its items and their lifetime, which is the lifetime of
/// the group.
pub proof fn law_group_views(servers: DnsServers, domains: DnsDomains)
    ensures
        servers.deep_view().items == servers.servers@,
        servers.deep_view().lifetime == servers.lifetime,
        servers.spec_lifetime() == servers.lifetime,
        domains.deep_view().items == domains.domains@.map_values(|s: String| s@),
        domains.deep_view().lifetime == domains.lifetime,
        domains.spec_lifetime() == domains.lifetime,
{
    assert(servers.servers.deep_view() =~= servers.servers@);
    assert(domains.domains.deep_view() =~= domains.domains@.map_values(|s: String| s@));
}

/// An observation stands for all that it says.
pub proof fn law_observation_view(event: detector::Event)
    ensures
        match (event, event.deep_view()) {
            (
                detector::Event::Router { key: a, managed: b, other_config: c, lifetime: d },
                detector::EventView::Router { key: k, managed: l, other_config: m, lifetime: n },
            ) => a == k && b == l && c == m && d == n,
            (detector::Event::DnsServers(a, b), detector::EventView::DnsServers(k, l)) => a == k
                && b.deep_view() == l,
            (detector::Event::DnsDomains(a, b), detector::EventView::DnsDomains(k, l)) => a == k
                && b.deep_view() == l,
            (
                detector::Event::Prefix {
                    key: a,
                    prefix_info: b,
                    lifetime: c,
                    preferred_lifetime: d,
                },
                detector::EventView::Prefix {
                    key: k,
                    prefix_info: l,
                    lifetime: m,
                    preferred_lifetime: n,
                },
            ) => a == k && b == l && c == m && d == n,
            _ => false,
        },
{
}

/// A change stands for all that it says.
pub proof fn law_change_view(event: lifecycle::Event)
    ensures
        match (event, event.deep_view()) {
            (
                lifecycle::Event::Router { key: a, managed: b, other_config: c },
                lifecycle::EventView::Router { key: k, managed: l, other_config: m },
            ) => a == k && b == l && c == m,
            (
                lifecycle::Event::DnsServers { key: a, servers: b },
                lifecycle::EventView::DnsServers { key: k, servers: l },
            ) => a == k && b.deep_view() == l,
            (
                lifecycle::Event::DnsDomains { key: a, domains: b },
                lifecycle::EventView::DnsDomains { key: k, domains: l },
            ) => a == k && b.deep_view() == l,
            (
                lifecycle::Event::Prefix { key: a, prefix_info: b },
                lifecycle::EventView::Prefix { key: k, prefix_info: l },
            ) => a == k && b == l,
            (
                lifecycle::Event::RouterExpiry { key: a },
                lifecycle::EventView::RouterExpiry { key: k },
            ) => a == k,
            (
                lifecycle::Event::PrefixExpiry { key: a, prefix_info: b },
                lifecycle::EventView::PrefixExpiry { key: k, prefix_info: l },
            ) => a == k && b == l,
            (
                lifecycle::Event::PrefixSoftExpiry { key: a, prefix_info: b },
                lifecycle::EventView::PrefixSoftExpiry { key: k, prefix_info: l },
            ) => a == k && b == l,
            _ => false,
        },
{
}

/// An emitted event stands for all that it says.
pub proof fn law_event_view(event: Event)
    ensures
        match (event, event.deep_view()) {
            (
                Event::RouterUpdate { ifindex: a, managed: b, other_config: c },
                EventView::RouterUpdate { ifindex: k, managed: l, other_config: m },
            ) => a == k && b == l && c == m,
            (Event::RouterDown { ifindex: a }, EventView::RouterDown { ifindex: k }) => a == k,
            (
                Event::RaDns { ifindex: a, servers: b, domains: c },
                EventView::RaDns { ifindex: k, servers: l, domains: m },
            ) => a == k && b@ == l && c@.map_values(|s: String| s@) == m,
            (
                Event::RaPrefix { ifindex: a, prefixes: b },
                EventView::RaPrefix { ifindex: k, prefixes: l },
            ) => a == k && b@ == l,
            (
                Event::RaPrefixSoftExpiry { ifindex: a, prefix: b },
                EventView::RaPrefixSoftExpiry { ifindex: k, prefix: l },
            ) => a == k && b == l,
            _ => false,
        },
{
    match event {
        Event::RaDns { ifindex, servers, domains } => {
            assert(servers.deep_view() =~= servers@);
            assert(domains.deep_view() =~= domains@.map_values(|s: String| s@));
        },
        Event::RaPrefix { ifindex, prefixes } => {
            assert(prefixes.deep_view() =~= prefixes@);
        },
        _ => {},
    }
}

/// An observation is converted to the change that it is: a zero lifetime of a
/// router or of a prefix ends it, and all else is kept as it is.
pub proof fn law_converted(event: detector::Event)
    ensures
        match event {
            detector::Event::Router { key, managed, other_config, lifetime } => converted(event)
                == if lifetime.nanos == 0 {
                lifecycle::Event::RouterExpiry { key }
            } else {
                lifecycle::Event::Router { key, managed, other_config }
            },
            detector::Event::DnsServers(key, servers) => converted(event)
                == (lifecycle::Event::DnsServers { key, servers }),
            detector::Event::DnsDomains(key, domains) => converted(event)
                == (lifecycle::Event::DnsDomains { key, domains }),
            detector::Event::Prefix { key, prefix_info, lifetime, .. } => converted(event)
                == if lifetime.nanos == 0 {
                lifecycle::Event::PrefixExpiry { key, prefix_info }
            } else {
                lifecycle::Event::Prefix { key, prefix_info }
            },
        },
{
}

/// A table stands for its entries, each with its key and what its value
/// stands for.
pub proof fn law_table_view<K, V: DeepView>(table: Table<K, V>)
    ensures
        table.deep_view().len() == table@.len(),
        forall|i: int|
            0 <= i < table@.len() ==> (#[trigger] table.deep_view()[i]).0 == table@[i].0
                && table.deep_view()[i].1 == table@[i].1.deep_view(),
{
}

/// An entry stands for its data, and keeps its deadline.
pub proof fn law_entry_view<T: DeepView>(entry: LifecycleEntry<T>)
    ensures
        entry.deep_view().data == entry.data.deep_view(),
        entry.deep_view().expires_at == entry.expires_at,
{
}

/// The states of the pipeline stand for all of their tables.
pub proof fn law_state_views(lifecycle: Lifecycle, aggregator: Aggregator)
    ensures
        lifecycle.deep_view().routers == lifecycle.router_store@,
        lifecycle.deep_view().servers == lifecycle.dns_servers_store.deep_view(),
        lifecycle.deep_view().domains == lifecycle.dns_domains_store.deep_view(),
        lifecycle.deep_view().prefixes == lifecycle.prefix_store.deep_view(),
        lifecycle.deep_view().soft_prefixes == lifecycle.soft_prefix_store.deep_view(),
        aggregator.deep_view().routers == aggregator.routers@,
        aggregator.deep_view().servers == aggregator.dns_servers.deep_view(),
        aggregator.deep_view().domains == aggregator.domains.deep_view(),
        aggregator.deep_view().prefixes == aggregator.prefixes.deep_view(),
{
}

/// What is aggregated of an interface stands for all of its fields.
pub proof fn law_aggregate_view(aggregate: Aggregate)
    ensures
        aggregate.deep_view().router == aggregate.router,
        aggregate.deep_view().dns_servers == aggregate.dns_servers@,
        aggregate.deep_view().domains == aggregate.domains@.map_values(|s: String| s@),
        aggregate.deep_view().prefixes == aggregate.prefixes@,
{
    assert(aggregate.dns_servers.deep_view() =~= aggregate.dns_servers@);
    assert(aggregate.domains.deep_view() =~= aggregate.domains@.map_values(|s: String| s@));
    assert(aggregate.prefixes.deep_view() =~= aggregate.prefixes@);
}

} // verus!
