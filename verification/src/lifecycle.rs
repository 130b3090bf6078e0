//! Lifetimes of advertised information.
//!
//! The lifecycle owns all time semantics: it turns advertised lifetimes into
//! deadlines, refreshes them, and drops what has lapsed. It knows nothing of
//! aggregation or policy and reports every change by an event.
use vstd::prelude::*;

use crate::address::Ipv6Addr;
use crate::detector;
use crate::detector::{DnsDomains, DnsServers, Key};
use crate::list::{contains, lemma_filter_all, lemma_filter_map, retain, Duplicate};
use crate::merge::Group;
use crate::table::{
    deep_table, has_key, keys_of, law_put, law_without, lemma_deep_lookup, lemma_deep_put,
    lemma_deep_table, lemma_deep_without, lemma_filter_table, lemma_position, lemma_put_known,
    lookup, position, put, unique_keys, without, Table,
};
use crate::time::{Duration, Instant};
use crate::{Lifetime, PrefixInfo};

verus! {

/// Changes in the validity of advertised information.
#[derive(Debug, Clone)]
pub enum Event {
    /// A router announced itself.
    Router { key: Key, managed: bool, other_config: bool },
    /// The DNS servers of a router, all of them.
    DnsServers { key: Key, servers: Vec<DnsServers> },
    /// The search domains of a router, all of them.
    DnsDomains { key: Key, domains: Vec<DnsDomains> },
    /// A router announced a prefix.
    Prefix { key: Key, prefix_info: PrefixInfo },
    /// A router is gone, and with it everything that it announced.
    RouterExpiry { key: Key },
    /// A prefix is no longer valid.
    PrefixExpiry { key: Key, prefix_info: PrefixInfo },
    /// A prefix is deprecated: still valid, but not to be used further.
    PrefixSoftExpiry { key: Key, prefix_info: PrefixInfo },
}

/// What an event says.
pub enum EventView {
    Router { key: Key, managed: bool, other_config: bool },
    DnsServers { key: Key, servers: Seq<Group<Ipv6Addr>> },
    DnsDomains { key: Key, domains: Seq<Group<Seq<char>>> },
    Prefix { key: Key, prefix_info: PrefixInfo },
    RouterExpiry { key: Key },
    PrefixExpiry { key: Key, prefix_info: PrefixInfo },
    PrefixSoftExpiry { key: Key, prefix_info: PrefixInfo },
}

impl DeepView for Event {
    type V = EventView;

    open spec fn deep_view(&self) -> EventView {
        match *self {
            Event::Router { key, managed, other_config } => EventView::Router {
                key,
                managed,
                other_config,
            },
            Event::DnsServers { key, servers } => EventView::DnsServers {
                key,
                servers: servers.deep_view(),
            },
            Event::DnsDomains { key, domains } => EventView::DnsDomains {
                key,
                domains: domains.deep_view(),
            },
            Event::Prefix { key, prefix_info } => EventView::Prefix { key, prefix_info },
            Event::RouterExpiry { key } => EventView::RouterExpiry { key },
            Event::PrefixExpiry { key, prefix_info } => EventView::PrefixExpiry {
                key,
                prefix_info,
            },
            Event::PrefixSoftExpiry { key, prefix_info } => EventView::PrefixSoftExpiry {
                key,
                prefix_info,
            },
        }
    }
}

/// The change that an observation stands for: a zero lifetime is an expiry.
pub open spec fn validity_event(event: detector::EventView) -> EventView {
    match event {
        detector::EventView::Router { key, managed, other_config, lifetime } => {
            if lifetime.nanos == 0 {
                EventView::RouterExpiry { key }
            } else {
                EventView::Router { key, managed, other_config }
            }
        },
        detector::EventView::DnsServers(key, servers) => EventView::DnsServers { key, servers },
        detector::EventView::DnsDomains(key, domains) => EventView::DnsDomains { key, domains },
        detector::EventView::Prefix { key, prefix_info, lifetime, preferred_lifetime } => {
            if lifetime.nanos == 0 {
                EventView::PrefixExpiry { key, prefix_info }
            } else {
                EventView::Prefix { key, prefix_info }
            }
        },
    }
}

impl From<detector::Event> for Event {
    /// Converts an observation into the change that it stands for.
    fn from(event: detector::Event) -> (res: Event) {
        match event {
            detector::Event::Router { key, managed, other_config, lifetime } => {
                if lifetime.is_zero() {
                    Event::RouterExpiry { key }
                } else {
                    Event::Router { key, managed, other_config }
                }
            },
            detector::Event::DnsServers(key, servers) => Event::DnsServers { key, servers },
            detector::Event::DnsDomains(key, domains) => Event::DnsDomains { key, domains },
            detector::Event::Prefix { key, prefix_info, lifetime, preferred_lifetime: _ } => {
                if lifetime.is_zero() {
                    Event::PrefixExpiry { key, prefix_info }
                } else {
                    Event::Prefix { key, prefix_info }
                }
            },
        }
    }
}

impl vstd::std_specs::convert::FromSpecImpl<detector::Event> for Event {
    open spec fn obeys_from_spec() -> bool {
        true
    }

    open spec fn from_spec(event: detector::Event) -> Event {
        match event {
            detector::Event::Router { key, managed, other_config, lifetime } => {
                if lifetime.nanos == 0 {
                    Event::RouterExpiry { key }
                } else {
                    Event::Router { key, managed, other_config }
                }
            },
            detector::Event::DnsServers(key, servers) => Event::DnsServers { key, servers },
            detector::Event::DnsDomains(key, domains) => Event::DnsDomains { key, domains },
            detector::Event::Prefix { key, prefix_info, lifetime, preferred_lifetime } => {
                if lifetime.nanos == 0 {
                    Event::PrefixExpiry { key, prefix_info }
                } else {
                    Event::Prefix { key, prefix_info }
                }
            },
        }
    }
}

/// What `Event::from` makes of an observation.
pub open spec fn converted(event: detector::Event) -> Event {
    <Event as vstd::std_specs::convert::FromSpec<detector::Event>>::from_spec(event)
}

/// Data with a deadline.
///
/// The entry is invalid once `expires_at` is reached; dropping it is up to the
/// [`Lifecycle`].
#[derive(Debug, Clone)]
pub struct LifecycleEntry<T> {
    /// The data.
    pub data: T,
    /// When the data expires.
    pub expires_at: Instant,
}

impl<T> LifecycleEntry<T> {
    /// An entry with the given data and deadline.
    pub fn new(data: T, expires_at: Instant) -> (entry: Self)
        ensures
            entry == (LifecycleEntry { data, expires_at }),
    {
        LifecycleEntry { data, expires_at }
    }
}

impl<T: DeepView> DeepView for LifecycleEntry<T> {
    type V = LifecycleEntry<T::V>;

    open spec fn deep_view(&self) -> LifecycleEntry<T::V> {
        LifecycleEntry { data: self.data.deep_view(), expires_at: self.expires_at }
    }
}

/// Entries by the router that they come from. A router may have several, each
/// with its own deadline.
pub type LifecycleStore<T> = Table<Key, Vec<LifecycleEntry<T>>>;

/// All information that is valid, with its deadlines.
///
/// - A router expires as a whole, with everything derived from it.
/// - DNS data is state: groups that an advertisement replaces together, each
///   with its own lifetime.
/// - Prefixes are leases, each with its own lifetime.
/// - Preferred lifetimes of prefixes are tracked apart; reaching one is
///   reported and removes nothing.
#[derive(Debug)]
pub struct Lifecycle {
    /// Active routers and their deadlines.
    pub router_store: Table<Key, Instant>,
    /// DNS servers by router.
    pub dns_servers_store: LifecycleStore<DnsServers>,
    /// Search domains by router.
    pub dns_domains_store: LifecycleStore<DnsDomains>,
    /// Prefix leases by router.
    pub prefix_store: LifecycleStore<PrefixInfo>,
    /// Preferred lifetimes of prefixes by router.
    pub soft_prefix_store: LifecycleStore<PrefixInfo>,
}

/// Entries by router, in the order in which the routers came.
pub type Store<T> = Seq<(Key, Seq<LifecycleEntry<T>>)>;

/// The state of a [`Lifecycle`].
pub struct LifecycleView {
    pub routers: Seq<(Key, Instant)>,
    pub servers: Store<Group<Ipv6Addr>>,
    pub domains: Store<Group<Seq<char>>>,
    pub prefixes: Store<PrefixInfo>,
    pub soft_prefixes: Store<PrefixInfo>,
}

impl DeepView for Lifecycle {
    type V = LifecycleView;

    open spec fn deep_view(&self) -> LifecycleView {
        LifecycleView {
            routers: self.router_store@,
            servers: self.dns_servers_store.deep_view(),
            domains: self.dns_domains_store.deep_view(),
            prefixes: self.prefix_store.deep_view(),
            soft_prefixes: self.soft_prefix_store.deep_view(),
        }
    }
}

impl Default for Lifecycle {
    /// Nothing is known.
    fn default() -> (res: Self)
        ensures
            res.deep_view() == nothing_known(),
            res.deep_view().wf(),
    {
        let res = Lifecycle {
            router_store: Table::default(),
            dns_servers_store: Table::default(),
            dns_domains_store: Table::default(),
            prefix_store: Table::default(),
            soft_prefix_store: Table::default(),
        };
        assert(res.deep_view().servers =~= nothing_known().servers);
        assert(res.deep_view().domains =~= nothing_known().domains);
        assert(res.deep_view().prefixes =~= nothing_known().prefixes);
        assert(res.deep_view().soft_prefixes =~= nothing_known().soft_prefixes);
        res
    }
}

/// The state in which nothing is known.
pub open spec fn nothing_known() -> LifecycleView {
    LifecycleView {
        routers: Seq::empty(),
        servers: Seq::empty(),
        domains: Seq::empty(),
        prefixes: Seq::empty(),
        soft_prefixes: Seq::empty(),
    }
}

/// Whether no two leases are for the same prefix address.
pub open spec fn distinct_leases(entries: Seq<LifecycleEntry<PrefixInfo>>) -> bool {
    forall|i: int, j: int|
        0 <= i < j < entries.len() ==> (#[trigger] entries[i]).data.prefix != (
        #[trigger] entries[j]).data.prefix
}

/// Whether every router in the store has an entry.
pub open spec fn all_nonempty<T>(store: Store<T>) -> bool {
    forall|key: Key| #[trigger] has_key(store, key) ==> entries_at(store, key).len() > 0
}

impl LifecycleView {
    /// What holds in every state: a router occurs once in each store, its
    /// leases are for different prefixes and so are its preferred lifetimes,
    /// and a router without any is not in the stores of these.
    pub open spec fn wf(self) -> bool {
        &&& unique_keys(self.routers)
        &&& unique_keys(self.servers)
        &&& unique_keys(self.domains)
        &&& unique_keys(self.prefixes)
        &&& unique_keys(self.soft_prefixes)
        &&& forall|key: Key| distinct_leases(#[trigger] entries_at(self.prefixes, key))
        &&& forall|key: Key| distinct_leases(#[trigger] entries_at(self.soft_prefixes, key))
        &&& all_nonempty(self.prefixes)
        &&& all_nonempty(self.soft_prefixes)
    }
}

// Observing events

/// The entries of a router in a store.
pub open spec fn entries_at<T>(store: Store<T>, key: Key) -> Seq<LifecycleEntry<T>> {
    match lookup(store, key) {
        Some(entries) => entries,
        None => Seq::empty(),
    }
}

/// One entry per group, each with the deadline that its lifetime sets.
pub open spec fn group_entries<T>(groups: Seq<Group<T>>, now: Instant) -> Seq<
    LifecycleEntry<Group<T>>,
> {
    groups.map_values(
        |g: Group<T>| LifecycleEntry { data: g, expires_at: now.plus(g.lifetime) },
    )
}

/// The store without routers that have no entries.
pub open spec fn nonempty<T>(store: Store<T>) -> Store<T> {
    store.filter(|e: (Key, Seq<LifecycleEntry<T>>)| e.1.len() > 0)
}

/// Whether there is a lease for a prefix address.
pub open spec fn has_lease(entries: Seq<LifecycleEntry<PrefixInfo>>, prefix: Ipv6Addr) -> bool {
    exists|i: int| 0 <= i < entries.len() && (#[trigger] entries[i]).data.prefix == prefix
}

/// Where the lease for a prefix address is.
pub open spec fn lease_position(
    entries: Seq<LifecycleEntry<PrefixInfo>>,
    prefix: Ipv6Addr,
) -> int {
    choose|i: int| 0 <= i < entries.len() && (#[trigger] entries[i]).data.prefix == prefix
}

/// The leases with this one refreshed, or added at the end.
pub open spec fn refresh_lease(
    entries: Seq<LifecycleEntry<PrefixInfo>>,
    lease: LifecycleEntry<PrefixInfo>,
) -> Seq<LifecycleEntry<PrefixInfo>> {
    if has_lease(entries, lease.data.prefix) {
        entries.update(lease_position(entries, lease.data.prefix), lease)
    } else {
        entries.push(lease)
    }
}

/// The leases that are not for a prefix address.
pub open spec fn for_other(prefix: Ipv6Addr) -> spec_fn(LifecycleEntry<PrefixInfo>) -> bool {
    |e: LifecycleEntry<PrefixInfo>| e.data.prefix != prefix
}

/// The leases without that for a prefix address.
pub open spec fn drop_lease(
    entries: Seq<LifecycleEntry<PrefixInfo>>,
    prefix: Ipv6Addr,
) -> Seq<LifecycleEntry<PrefixInfo>> {
    entries.filter(for_other(prefix))
}

/// The leases with the one for a prefix address taken out, and another, if
/// there is one, added at the end.
pub open spec fn exchange_lease(
    entries: Seq<LifecycleEntry<PrefixInfo>>,
    prefix: Ipv6Addr,
    lease: Option<LifecycleEntry<PrefixInfo>>,
) -> Seq<LifecycleEntry<PrefixInfo>> {
    match lease {
        Some(e) => drop_lease(entries, prefix).push(e),
        None => drop_lease(entries, prefix),
    }
}

/// Whether reaching the preferred lifetime of a prefix is to be reported: a
/// zero preferred lifetime is none, and one as long as the valid lifetime is
/// reported as the end of the lease.
pub open spec fn has_soft_expiry(lifetime: Duration, preferred_lifetime: Duration) -> bool {
    preferred_lifetime.nanos != 0 && preferred_lifetime != lifetime
}

/// When a prefix that is announced at time `now` reaches its preferred
/// lifetime, if that is to be reported.
pub open spec fn preferred_until(
    prefix_info: PrefixInfo,
    lifetime: Duration,
    preferred_lifetime: Duration,
    now: Instant,
) -> Option<LifecycleEntry<PrefixInfo>> {
    if has_soft_expiry(lifetime, preferred_lifetime) {
        Some(LifecycleEntry { data: prefix_info, expires_at: now.plus(preferred_lifetime) })
    } else {
        None
    }
}

/// The preferred lifetimes of a router after one of its prefixes was announced
/// at time `now`: a preferred lifetime takes the place of the earlier one of
/// the prefix, and a zero preferred lifetime is none and leaves all as it was.
pub open spec fn renew_preferred(
    entries: Seq<LifecycleEntry<PrefixInfo>>,
    prefix_info: PrefixInfo,
    lifetime: Duration,
    preferred_lifetime: Duration,
    now: Instant,
) -> Seq<LifecycleEntry<PrefixInfo>> {
    if preferred_lifetime.nanos == 0 {
        entries
    } else {
        exchange_lease(
            entries,
            prefix_info.prefix,
            preferred_until(prefix_info, lifetime, preferred_lifetime, now),
        )
    }
}

/// The state after an observation at time `now`. An announced prefix gets its
/// deadlines anew, and a withdrawn one loses them.
pub open spec fn observed(
    state: LifecycleView,
    event: detector::EventView,
    now: Instant,
) -> LifecycleView {
    match event {
        detector::EventView::Router { key, managed, other_config, lifetime } => {
            if lifetime.nanos == 0 {
                LifecycleView {
                    routers: without(state.routers, key),
                    servers: without(state.servers, key),
                    domains: without(state.domains, key),
                    prefixes: without(state.prefixes, key),
                    soft_prefixes: without(state.soft_prefixes, key),
                }
            } else {
                LifecycleView { routers: put(state.routers, key, now.plus(lifetime)), ..state }
            }
        },
        detector::EventView::DnsServers(key, servers) => LifecycleView {
            servers: nonempty(put(state.servers, key, group_entries(servers, now))),
            ..state
        },
        detector::EventView::DnsDomains(key, domains) => LifecycleView {
            domains: nonempty(put(state.domains, key, group_entries(domains, now))),
            ..state
        },
        detector::EventView::Prefix { key, prefix_info, lifetime, preferred_lifetime } => {
            if lifetime.nanos == 0 {
                LifecycleView {
                    prefixes: nonempty(
                        put(
                            state.prefixes,
                            key,
                            drop_lease(entries_at(state.prefixes, key), prefix_info.prefix),
                        ),
                    ),
                    soft_prefixes: nonempty(
                        put(
                            state.soft_prefixes,
                            key,
                            drop_lease(entries_at(state.soft_prefixes, key), prefix_info.prefix),
                        ),
                    ),
                    ..state
                }
            } else {
                LifecycleView {
                    prefixes: put(
                        state.prefixes,
                        key,
                        refresh_lease(
                            entries_at(state.prefixes, key),
                            LifecycleEntry { data: prefix_info, expires_at: now.plus(lifetime) },
                        ),
                    ),
                    soft_prefixes: nonempty(
                        put(
                            state.soft_prefixes,
                            key,
                            renew_preferred(
                                entries_at(state.soft_prefixes, key),
                                prefix_info,
                                lifetime,
                                preferred_lifetime,
                                now,
                            ),
                        ),
                    ),
                    ..state
                }
            }
        },
    }
}

/// The state after observations at time `now`, one after the other.
pub open spec fn observed_all(
    state: LifecycleView,
    events: Seq<detector::EventView>,
    now: Instant,
) -> LifecycleView
    decreases events.len(),
{
    if events.len() == 0 {
        state
    } else {
        observed(observed_all(state, events.drop_last(), now), events.last(), now)
    }
}

/// The changes that observations are reported by: one each, in their order.
pub open spec fn reported(events: Seq<detector::EventView>) -> Seq<EventView> {
    events.map_values(|e: detector::EventView| validity_event(e))
}

/// Whether all deadlines that an observation at time `now` sets can be
/// represented.
pub open spec fn representable(event: detector::EventView, now: Instant) -> bool {
    match event {
        detector::EventView::Router { key, managed, other_config, lifetime } => now.reaches(
            lifetime,
        ),
        detector::EventView::DnsServers(key, servers) => forall|i: int|
            0 <= i < servers.len() ==> now.reaches((#[trigger] servers[i]).lifetime),
        detector::EventView::DnsDomains(key, domains) => forall|i: int|
            0 <= i < domains.len() ==> now.reaches((#[trigger] domains[i]).lifetime),
        detector::EventView::Prefix { key, prefix_info, lifetime, preferred_lifetime } => {
            lifetime.nanos != 0 ==> now.reaches(lifetime) && (has_soft_expiry(
                lifetime,
                preferred_lifetime,
            ) ==> now.reaches(preferred_lifetime))
        },
    }
}

/// Dropping routers without entries changes no router's entries.
proof fn lemma_nonempty<T>(store: Store<T>)
    requires
        unique_keys(store),
    ensures
        unique_keys(nonempty(store)),
        all_nonempty(nonempty(store)),
        forall|key: Key| #[trigger] entries_at(nonempty(store), key) == entries_at(store, key),
        forall|key: Key|
            #[trigger] has_key(nonempty(store), key) <==> entries_at(store, key).len() > 0,
{
    let p = |e: (Key, Seq<LifecycleEntry<T>>)| e.1.len() > 0;
    lemma_filter_table(store, p);
    assert forall|key: Key|
        #[trigger] has_key(nonempty(store), key) <==> entries_at(store, key).len() > 0 by {
        assert(lookup(store.filter(p), key) == lookup(nonempty(store), key));
    }
    assert forall|key: Key| #[trigger]
        entries_at(nonempty(store), key) == entries_at(store, key) by {
        assert(lookup(store.filter(p), key) == lookup(nonempty(store), key));
        if entries_at(store, key).len() == 0 {
            assert(entries_at(store, key) =~= Seq::empty());
        }
    }
}

/// Putting entries changes those of one router.
proof fn lemma_put_entries<T>(store: Store<T>, key: Key, entries: Seq<LifecycleEntry<T>>)
    requires
        unique_keys(store),
    ensures
        unique_keys(put(store, key, entries)),
        entries_at(put(store, key, entries), key) == entries,
        forall|k: Key|
            k != key ==> #[trigger] entries_at(put(store, key, entries), k) == entries_at(store, k),
{
    law_put(store, key, entries);
    assert forall|k: Key| k != key implies #[trigger] entries_at(put(store, key, entries), k)
        == entries_at(store, k) by {
        assert(lookup(put(store, key, entries), k) == lookup(store, k));
    }
}

/// Removing a router leaves it without entries and the others as they were.
proof fn lemma_without_entries<T>(store: Store<T>, key: Key)
    requires
        unique_keys(store),
    ensures
        unique_keys(without(store, key)),
        entries_at(without(store, key), key).len() == 0,
        forall|k: Key|
            k != key ==> #[trigger] entries_at(without(store, key), k) == entries_at(store, k),
        all_nonempty(store) ==> all_nonempty(without(store, key)),
{
    law_without(store, key);
    assert forall|k: Key| k != key implies #[trigger] entries_at(without(store, key), k)
        == entries_at(store, k) by {
        assert(lookup(without(store, key), k) == lookup(store, k));
    }
    if all_nonempty(store) {
        assert forall|k: Key| #[trigger] has_key(without(store, key), k) implies entries_at(
            without(store, key),
            k,
        ).len() > 0 by {
            assert(k != key);
            assert(has_key(store, k));
        }
    }
}

/// Refreshing a lease keeps the leases distinct, makes it the one for its
/// prefix, and keeps the leases for other prefixes.
pub proof fn law_refresh_lease(
    entries: Seq<LifecycleEntry<PrefixInfo>>,
    lease: LifecycleEntry<PrefixInfo>,
)
    requires
        distinct_leases(entries),
    ensures
        distinct_leases(refresh_lease(entries, lease)),
        refresh_lease(entries, lease).contains(lease),
        forall|e: LifecycleEntry<PrefixInfo>|
            #![trigger refresh_lease(entries, lease).contains(e)]
            e.data.prefix != lease.data.prefix ==> (refresh_lease(entries, lease).contains(e)
                <==> entries.contains(e)),
{
    let out = refresh_lease(entries, lease);
    let prefix = lease.data.prefix;
    let p = lease_position(entries, prefix);
    if has_lease(entries, prefix) {
        assert(0 <= p < entries.len() && entries[p].data.prefix == prefix);
        assert(out[p] == lease);
    } else {
        assert(out[entries.len() as int] == lease);
    }
    assert forall|e: LifecycleEntry<PrefixInfo>|
        #![trigger out.contains(e)]
        e.data.prefix != prefix implies (out.contains(e) <==> entries.contains(e)) by {
        if out.contains(e) {
            let i = choose|i: int| 0 <= i < out.len() && out[i] == e;
            assert(entries[i] == e);
        }
        if entries.contains(e) {
            let i = choose|i: int| 0 <= i < entries.len() && entries[i] == e;
            assert(out[i] == e);
        }
    }
}

/// Keeping some of several distinct leases keeps them distinct.
pub proof fn lemma_filter_distinct(
    entries: Seq<LifecycleEntry<PrefixInfo>>,
    p: spec_fn(LifecycleEntry<PrefixInfo>) -> bool,
)
    requires
        distinct_leases(entries),
    ensures
        distinct_leases(entries.filter(p)),
    decreases entries.len(),
{
    reveal(Seq::filter);
    if entries.len() > 0 {
        let rest = entries.drop_last();
        lemma_filter_distinct(rest, p);
        assert forall|i: int| 0 <= i < rest.filter(p).len() implies (
        #[trigger] rest.filter(p)[i]).data.prefix != entries.last().data.prefix by {
            rest.lemma_filter_contains_rev(p, rest.filter(p)[i]);
            let k = choose|k: int| 0 <= k < rest.len() && rest[k] == rest.filter(p)[i];
            assert(entries[k].data.prefix != entries[entries.len() - 1].data.prefix);
        }
    }
}

/// Exchanging the lease for a prefix keeps the leases distinct, leaves the new
/// one as the only one for that prefix, and keeps those for other prefixes.
pub proof fn law_exchange_lease(
    entries: Seq<LifecycleEntry<PrefixInfo>>,
    prefix: Ipv6Addr,
    lease: Option<LifecycleEntry<PrefixInfo>>,
)
    requires
        distinct_leases(entries),
        match lease {
            Some(e) => e.data.prefix == prefix,
            None => true,
        },
    ensures
        distinct_leases(exchange_lease(entries, prefix, lease)),
        forall|e: LifecycleEntry<PrefixInfo>| #[trigger]
            exchange_lease(entries, prefix, lease).contains(e) <==> if e.data.prefix == prefix {
                lease == Some(e)
            } else {
                entries.contains(e)
            },
{
    let others = drop_lease(entries, prefix);
    let out = exchange_lease(entries, prefix, lease);
    lemma_filter_distinct(entries, for_other(prefix));
    assert forall|i: int| 0 <= i < others.len() implies (#[trigger] others[i]).data.prefix
        != prefix by {
        entries.lemma_filter_pred(for_other(prefix), i);
    }
    assert forall|e: LifecycleEntry<PrefixInfo>| #[trigger]
        out.contains(e) <==> if e.data.prefix == prefix {
            lease == Some(e)
        } else {
            entries.contains(e)
        } by {
        if out.contains(e) {
            let i = choose|i: int| 0 <= i < out.len() && out[i] == e;
            if i < others.len() {
                assert(others[i] == e);
                entries.lemma_filter_contains_rev(for_other(prefix), e);
            }
        }
        if e.data.prefix != prefix && entries.contains(e) {
            let i = choose|i: int| 0 <= i < entries.len() && entries[i] == e;
            entries.lemma_filter_contains(for_other(prefix), i);
            let k = choose|k: int| 0 <= k < others.len() && others[k] == e;
            assert(out[k] == e);
        }
        if lease == Some(e) {
            assert(out[others.len() as int] == e);
        }
    }
}

/// Putting the entries that a router has already changes nothing.
pub proof fn lemma_entries_kept<T>(store: Store<T>, key: Key)
    requires
        unique_keys(store),
        all_nonempty(store),
    ensures
        nonempty(put(store, key, entries_at(store, key))) == store,
{
    lemma_all_kept(store);
    if has_key(store, key) {
        lemma_put_known(store, key);
    } else {
        reveal(Seq::filter);
        store.lemma_filter_push(
            (key, Seq::empty()),
            |e: (Key, Seq<LifecycleEntry<T>>)| e.1.len() > 0,
        );
    }
}

/// What an observation does to the stores, router by router: it touches its
/// own router alone, and only the stores that it speaks of.
proof fn lemma_observed(state: LifecycleView, event: detector::EventView, now: Instant)
    requires
        state.wf(),
    ensures
        observed(state, event, now).wf(),
        observed(state, event, now).router(subject(event)) == observed_router(
            state.router(subject(event)),
            event,
            now,
        ),
        forall|key: Key|
            key != subject(event) ==> #[trigger] observed(state, event, now).router(key)
                == state.router(key),
{
    let out = observed(state, event, now);
    match event {
        detector::EventView::Router { key, managed, other_config, lifetime } => {
            if lifetime.nanos == 0 {
                law_without(state.routers, key);
                lemma_without_entries(state.servers, key);
                lemma_without_entries(state.domains, key);
                lemma_without_entries(state.prefixes, key);
                lemma_without_entries(state.soft_prefixes, key);
                assert(out.router(key).servers =~= Seq::empty());
                assert(out.router(key).domains =~= Seq::empty());
                assert(out.router(key).prefixes =~= Seq::empty());
                assert(out.router(key).soft_prefixes =~= Seq::empty());
            } else {
                law_put(state.routers, key, now.plus(lifetime));
            }
        },
        detector::EventView::DnsServers(key, servers) => {
            let entries = group_entries(servers, now);
            lemma_put_entries(state.servers, key, entries);
            lemma_nonempty(put(state.servers, key, entries));
        },
        detector::EventView::DnsDomains(key, domains) => {
            let entries = group_entries(domains, now);
            lemma_put_entries(state.domains, key, entries);
            lemma_nonempty(put(state.domains, key, entries));
        },
        detector::EventView::Prefix { key, prefix_info, lifetime, preferred_lifetime } => {
            let leases = entries_at(state.prefixes, key);
            let timers = entries_at(state.soft_prefixes, key);
            let timer = preferred_until(prefix_info, lifetime, preferred_lifetime, now);
            let timed = if lifetime.nanos == 0 {
                drop_lease(timers, prefix_info.prefix)
            } else {
                renew_preferred(timers, prefix_info, lifetime, preferred_lifetime, now)
            };
            law_exchange_lease(timers, prefix_info.prefix, None);
            law_exchange_lease(timers, prefix_info.prefix, timer);
            lemma_put_entries(state.soft_prefixes, key, timed);
            lemma_nonempty(put(state.soft_prefixes, key, timed));
            if lifetime.nanos == 0 {
                lemma_filter_distinct(leases, for_other(prefix_info.prefix));
                lemma_put_entries(state.prefixes, key, drop_lease(leases, prefix_info.prefix));
                lemma_nonempty(put(state.prefixes, key, drop_lease(leases, prefix_info.prefix)));
            } else {
                let lease = LifecycleEntry { data: prefix_info, expires_at: now.plus(lifetime) };
                law_refresh_lease(leases, lease);
                lemma_put_entries(state.prefixes, key, refresh_lease(leases, lease));
                law_put(state.prefixes, key, refresh_lease(leases, lease));
            }
        },
    }
}

/// Observing keeps the state well-formed.
pub proof fn law_observed_wf(state: LifecycleView, event: detector::EventView, now: Instant)
    requires
        state.wf(),
    ensures
        observed(state, event, now).wf(),
{
    lemma_observed(state, event, now);
}

/// One entry per group, each with the deadline that its lifetime sets.
fn timed_entries<T: Duplicate + Lifetime>(groups: &Vec<T>, now: Instant) -> (entries: Vec<
    LifecycleEntry<T>,
>)
    requires
        forall|i: int|
            0 <= i < groups@.len() ==> now.reaches((#[trigger] groups@[i]).spec_lifetime()),
    ensures
        entries@.len() == groups@.len(),
        forall|i: int|
            0 <= i < groups@.len() ==> (#[trigger] entries@[i]).deep_view() == (LifecycleEntry {
                data: groups@[i].deep_view(),
                expires_at: now.plus(groups@[i].spec_lifetime()),
            }),
{
    let mut entries: Vec<LifecycleEntry<T>> = Vec::new();
    let mut i: usize = 0;
    while i < groups.len()
        invariant
            i <= groups@.len(),
            entries@.len() == i,
            forall|j: int|
                0 <= j < groups@.len() ==> now.reaches((#[trigger] groups@[j]).spec_lifetime()),
            forall|j: int|
                0 <= j < i ==> (#[trigger] entries@[j]).deep_view() == (LifecycleEntry {
                    data: groups@[j].deep_view(),
                    expires_at: now.plus(groups@[j].spec_lifetime()),
                }),
        decreases groups@.len() - i,
    {
        let expires_at = now.after(groups[i].lifetime());
        entries.push(LifecycleEntry::new(groups[i].duplicate(), expires_at));
        i = i + 1;
    }
    entries
}

/// Drops the routers that have no entries.
fn drop_empty<T: DeepView>(store: &mut LifecycleStore<T>)
    requires
        old(store).wf(),
    ensures
        final(store).deep_view() == nonempty(old(store).deep_view()),
        final(store).wf(),
{
    let ghost before = store@;
    let ghost kept = |e: (Key, Vec<LifecycleEntry<T>>)| e.1@.len() > 0;
    retain(
        &mut store.entries,
        |e: &(Key, Vec<LifecycleEntry<T>>)| -> (b: bool)
            ensures
                b == (e.1@.len() > 0)
        { e.1.len() > 0 },
        Ghost(kept),
    );
    proof {
        lemma_filter_map(
            before,
            |e: (Key, Vec<LifecycleEntry<T>>)| (e.0, e.1.deep_view()),
            kept,
            |e: (Key, Seq<LifecycleEntry<T::V>>)| e.1.len() > 0,
        );
        lemma_filter_table(before, kept);
    }
}

/// Refreshes a lease, or adds it.
fn refresh(
    entries: &mut Vec<LifecycleEntry<PrefixInfo>>,
    prefix_info: PrefixInfo,
    expires_at: Instant,
)
    requires
        distinct_leases(old(entries).deep_view()),
    ensures
        final(entries).deep_view() == refresh_lease(
            old(entries).deep_view(),
            LifecycleEntry { data: prefix_info, expires_at },
        ),
{
    let ghost leases = entries.deep_view();
    let ghost lease = LifecycleEntry { data: prefix_info, expires_at };
    let mut i: usize = 0;
    while i < entries.len()
        invariant
            i <= entries@.len(),
            leases == entries.deep_view(),
            leases == old(entries).deep_view(),
            distinct_leases(leases),
            lease == (LifecycleEntry { data: prefix_info, expires_at }),
            forall|j: int|
                0 <= j < i ==> (#[trigger] leases[j]).data.prefix != prefix_info.prefix,
        decreases entries@.len() - i,
    {
        if entries[i].data.prefix == prefix_info.prefix {
            assert(leases[i as int].data.prefix == prefix_info.prefix);
            entries[i] = LifecycleEntry::new(prefix_info, expires_at);
            proof {
                let p = lease_position(leases, prefix_info.prefix);
                assert(0 <= p < leases.len() && leases[p].data.prefix == prefix_info.prefix);
                assert(p == i);
                assert(entries.deep_view() =~= leases.update(p, lease));
            }
            return;
        }
        i = i + 1;
    }
    entries.push(LifecycleEntry::new(prefix_info, expires_at));
    assert(entries.deep_view() =~= leases.push(lease));
}

/// Exchanges the lease of a router for a prefix address, and drops the routers
/// that have none.
fn replace_lease(
    store: &mut LifecycleStore<PrefixInfo>,
    key: Key,
    prefix: Ipv6Addr,
    lease: Option<LifecycleEntry<PrefixInfo>>,
)
    requires
        old(store).wf(),
    ensures
        final(store).deep_view() == nonempty(
            put(
                old(store).deep_view(),
                key,
                exchange_lease(entries_at(old(store).deep_view(), key), prefix, lease),
            ),
        ),
        final(store).wf(),
{
    let ghost before = store@;
    proof {
        lemma_deep_table(before);
        lemma_deep_lookup(before, key);
    }
    match store.get_mut(&key) {
        Some(entries) => {
            assert(entries.deep_view() =~= entries@);
            retain(
                entries,
                |e: &LifecycleEntry<PrefixInfo>| -> (b: bool)
                    ensures
                        b == (e.data.prefix != prefix)
                { e.data.prefix != prefix },
                Ghost(for_other(prefix)),
            );
            if let Some(entry) = lease {
                entries.push(entry);
            }
            proof {
                assert(entries.deep_view() =~= entries@);
                lemma_deep_put(before, key, *entries);
                law_put(before, key, *entries);
            }
        },
        None => {
            proof {
                reveal(Seq::filter);
                assert(drop_lease(Seq::empty(), prefix) =~= Seq::empty());
            }
            match lease {
                Some(entry) => {
                    let mut entries: Vec<LifecycleEntry<PrefixInfo>> = Vec::new();
                    entries.push(entry);
                    proof {
                        assert(entries.deep_view() =~= Seq::empty().push(entry));
                        lemma_deep_put(before, key, entries);
                    }
                    store.insert(key, entries);
                },
                None => {
                    proof {
                        deep_table(before).lemma_filter_push(
                            (key, Seq::empty()),
                            |e: (Key, Seq<LifecycleEntry<PrefixInfo>>)| e.1.len() > 0,
                        );
                    }
                },
            }
        },
    }
    drop_empty(store);
}

impl Lifecycle {
    /// Applies one observation.
    fn observe(&mut self, event: &detector::Event, now: Instant)
        requires
            old(self).deep_view().wf(),
            representable(event.deep_view(), now),
        ensures
            final(self).deep_view() == observed(old(self).deep_view(), event.deep_view(), now),
            final(self).deep_view().wf(),
    {
        let ghost state = self.deep_view();
        proof {
            law_observed_wf(state, event.deep_view(), now);
            lemma_deep_table(self.dns_servers_store@);
            lemma_deep_table(self.dns_domains_store@);
            lemma_deep_table(self.prefix_store@);
            lemma_deep_table(self.soft_prefix_store@);
        }
        match event {
            detector::Event::Router { key, managed: _, other_config: _, lifetime } => {
                if lifetime.is_zero() {
                    proof {
                        lemma_deep_without(self.dns_servers_store@, *key);
                        lemma_deep_without(self.dns_domains_store@, *key);
                        lemma_deep_without(self.prefix_store@, *key);
                        lemma_deep_without(self.soft_prefix_store@, *key);
                    }
                    self.router_store.remove(key);
                    self.dns_servers_store.remove(key);
                    self.dns_domains_store.remove(key);
                    self.prefix_store.remove(key);
                    self.soft_prefix_store.remove(key);
                } else {
                    self.router_store.insert(*key, now.after(*lifetime));
                }
            },
            detector::Event::DnsServers(key, servers) => {
                assert(forall|i: int|
                    0 <= i < servers@.len() ==> (#[trigger] servers@[i]).deep_view()
                        == servers.deep_view()[i]);
                let entries = timed_entries(servers, now);
                proof {
                    assert(entries.deep_view() =~= group_entries(servers.deep_view(), now));
                    lemma_deep_put(self.dns_servers_store@, *key, entries);
                }
                self.dns_servers_store.insert(*key, entries);
                drop_empty(&mut self.dns_servers_store);
            },
            detector::Event::DnsDomains(key, domains) => {
                assert(forall|i: int|
                    0 <= i < domains@.len() ==> (#[trigger] domains@[i]).deep_view()
                        == domains.deep_view()[i]);
                let entries = timed_entries(domains, now);
                proof {
                    assert(entries.deep_view() =~= group_entries(domains.deep_view(), now));
                    lemma_deep_put(self.dns_domains_store@, *key, entries);
                }
                self.dns_domains_store.insert(*key, entries);
                drop_empty(&mut self.dns_domains_store);
            },
            detector::Event::Prefix { key, prefix_info, lifetime, preferred_lifetime } => {
                if lifetime.is_zero() {
                    replace_lease(&mut self.prefix_store, *key, prefix_info.prefix, None);
                    replace_lease(&mut self.soft_prefix_store, *key, prefix_info.prefix, None);
                } else {
                    self.lease_prefix(*key, *prefix_info, now.after(*lifetime));
                    if preferred_lifetime.is_zero() {
                        proof {
                            lemma_entries_kept(state.soft_prefixes, *key);
                        }
                    } else {
                        let preferred = if *preferred_lifetime != *lifetime {
                            Some(LifecycleEntry::new(*prefix_info, now.after(*preferred_lifetime)))
                        } else {
                            None
                        };
                        replace_lease(
                            &mut self.soft_prefix_store,
                            *key,
                            prefix_info.prefix,
                            preferred,
                        );
                    }
                }
            },
        }
    }

    /// Starts or refreshes the lease of a prefix.
    fn lease_prefix(&mut self, key: Key, prefix_info: PrefixInfo, expires_at: Instant)
        requires
            old(self).prefix_store.wf(),
            distinct_leases(entries_at(old(self).prefix_store.deep_view(), key)),
        ensures
            final(self).prefix_store.deep_view() == put(
                old(self).prefix_store.deep_view(),
                key,
                refresh_lease(
                    entries_at(old(self).prefix_store.deep_view(), key),
                    LifecycleEntry { data: prefix_info, expires_at },
                ),
            ),
            final(self).router_store == old(self).router_store,
            final(self).dns_servers_store == old(self).dns_servers_store,
            final(self).dns_domains_store == old(self).dns_domains_store,
            final(self).soft_prefix_store == old(self).soft_prefix_store,
    {
        let ghost before = self.prefix_store@;
        let ghost lease = LifecycleEntry { data: prefix_info, expires_at };
        proof {
            lemma_deep_table(before);
            lemma_deep_lookup(before, key);
        }
        match self.prefix_store.get_mut(&key) {
            Some(entries) => {
                refresh(entries, prefix_info, expires_at);
                proof {
                    lemma_deep_put(before, key, *entries);
                }
            },
            None => {
                let mut entries: Vec<LifecycleEntry<PrefixInfo>> = Vec::new();
                entries.push(LifecycleEntry::new(prefix_info, expires_at));
                proof {
                    assert(entries.deep_view() =~= refresh_lease(Seq::empty(), lease));
                    lemma_deep_put(before, key, entries);
                }
                self.prefix_store.insert(key, entries);
            },
        }
    }
}

impl Lifecycle {
    /// Applies observations made at time `now` and reports the changes.
    ///
    /// Every observation refreshes or inserts entries with new deadlines, or
    /// withdraws them, and is reported by the one change that it stands for.
    pub fn update(&mut self, detector_events: Vec<detector::Event>, now: Instant) -> (res: Vec<
        Event,
    >)
        requires
            old(self).deep_view().wf(),
            forall|i: int|
                0 <= i < detector_events@.len() ==> representable(
                    (#[trigger] detector_events@[i]).deep_view(),
                    now,
                ),
        ensures
            final(self).deep_view() == observed_all(
                old(self).deep_view(),
                detector_events.deep_view(),
                now,
            ),
            final(self).deep_view().wf(),
            res.deep_view() == reported(detector_events.deep_view()),
            res@.len() == detector_events@.len(),
            forall|i: int|
                0 <= i < res@.len() ==> #[trigger] res@[i] == converted(detector_events@[i]),
    {
        let ghost events = detector_events.deep_view();
        let mut res: Vec<Event> = Vec::new();
        for event in it: detector_events.into_iter()
            invariant
                it.seq() == detector_events@,
                events == detector_events.deep_view(),
                forall|i: int|
                    0 <= i < detector_events@.len() ==> representable(
                        (#[trigger] detector_events@[i]).deep_view(),
                        now,
                    ),
                self.deep_view().wf(),
                self.deep_view() == observed_all(
                    old(self).deep_view(),
                    events.take(it.index() as int),
                    now,
                ),
                res@.len() == it.index(),
                forall|i: int|
                    0 <= i < res@.len() ==> #[trigger] res@[i] == converted(detector_events@[i]),
        {
            proof {
                let i = it.index() as int;
                assert(detector_events@[i] == event);
                assert(events.take(i + 1).drop_last() =~= events.take(i));
                assert(events.take(i + 1).last() == event.deep_view());
            }
            self.observe(&event, now);
            res.push(Event::from(event));
        }
        proof {
            assert(events.take(events.len() as int) =~= events);
            assert forall|i: int| 0 <= i < res@.len() implies (#[trigger] res@[i]).deep_view()
                == validity_event(events[i]) by {
                assert(events[i] == detector_events@[i].deep_view());
            }
            assert(res.deep_view() =~= reported(events));
        }
        res
    }
}

// Deadlines

/// Whether some entry of a store expires at `t`.
pub open spec fn expires_in<T>(store: Store<T>, t: Instant) -> bool {
    exists|i: int, j: int|
        0 <= i < store.len() && 0 <= j < store[i].1.len() && (#[trigger] store[i].1[j]).expires_at
            == t
}

/// Whether some router expires at `t`.
pub open spec fn router_expires(routers: Seq<(Key, Instant)>, t: Instant) -> bool {
    exists|i: int| 0 <= i < routers.len() && (#[trigger] routers[i]).1 == t
}

impl LifecycleView {
    /// Whether something expires at `t`, or reaches its preferred lifetime.
    pub open spec fn deadline(self, t: Instant) -> bool {
        ||| router_expires(self.routers, t)
        ||| expires_in(self.servers, t)
        ||| expires_in(self.domains, t)
        ||| expires_in(self.prefixes, t)
        ||| expires_in(self.soft_prefixes, t)
    }

    /// Whether `next` is the earliest deadline, or `None` where there is none.
    pub open spec fn next_deadline(self, next: Option<Instant>) -> bool {
        match next {
            Some(t) => self.deadline(t) && forall|u: Instant| #[trigger]
                self.deadline(u) ==> t.nanos <= u.nanos,
            None => forall|u: Instant| !#[trigger] self.deadline(u),
        }
    }
}

/// Whether `next` is the earliest of the points in time in `all`.
spec fn earliest(next: Option<Instant>, all: spec_fn(Instant) -> bool) -> bool {
    match next {
        Some(t) => all(t) && forall|u: Instant| #[trigger] all(u) ==> t.nanos <= u.nanos,
        None => forall|u: Instant| !#[trigger] all(u),
    }
}

/// The earlier of `next`, if there is one, and `t`.
fn earlier(next: Option<Instant>, t: Instant) -> (res: Option<Instant>)
    ensures
        res == match next {
            Some(u) if u.nanos <= t.nanos => Some(u),
            _ => Some(t),
        },
{
    match next {
        Some(u) => {
            if u.nanos <= t.nanos {
                Some(u)
            } else {
                Some(t)
            }
        },
        None => Some(t),
    }
}

/// The earliest of `next` and of the deadlines of a store.
fn earliest_in<T: DeepView>(
    store: &LifecycleStore<T>,
    next: Option<Instant>,
    Ghost(all): Ghost<spec_fn(Instant) -> bool>,
) -> (res: Option<Instant>)
    requires
        earliest(next, all),
    ensures
        earliest(res, |t: Instant| all(t) || expires_in(store.deep_view(), t)),
{
    let ghost entries = store.deep_view();
    let mut res = next;
    let mut i: usize = 0;
    while i < store.entries.len()
        invariant
            i <= store@.len(),
            entries == store.deep_view(),
            earliest(res, |t: Instant| all(t) || expires_in(entries.take(i as int), t)),
        decreases store@.len() - i,
    {
        let list = &store.entries[i].1;
        let mut j: usize = 0;
        proof {
            let known = |t: Instant| all(t) || expires_in(entries.take(i as int), t);
            let same = |t: Instant|
                all(t) || expires_in(entries.take(i as int), t) || exists|k: int|
                    0 <= k < j && (#[trigger] entries[i as int].1[k]).expires_at == t;
            assert(known =~= same);
        }
        while j < list.len()
            invariant
                i < store@.len(),
                j <= list@.len(),
                entries == store.deep_view(),
                *list == store@[i as int].1,
                earliest(
                    res,
                    |t: Instant|
                        all(t) || expires_in(entries.take(i as int), t) || exists|k: int|
                            0 <= k < j && (#[trigger] entries[i as int].1[k]).expires_at == t,
                ),
            decreases list@.len() - j,
        {
            let ghost before = res;
            let ghost known = |t: Instant|
                all(t) || expires_in(entries.take(i as int), t) || exists|k: int|
                    0 <= k < j && (#[trigger] entries[i as int].1[k]).expires_at == t;
            let ghost more = |t: Instant|
                all(t) || expires_in(entries.take(i as int), t) || exists|k: int|
                    0 <= k < j + 1 && (#[trigger] entries[i as int].1[k]).expires_at == t;
            res = earlier(res, list[j].expires_at);
            proof {
                let t = list@[j as int].expires_at;
                assert(entries[i as int].1[j as int].expires_at == t);
                assert(earliest(before, known));
                assert forall|u: Instant| #[trigger] more(u) implies known(u) || u == t by {}
                assert forall|u: Instant| #[trigger] known(u) implies more(u) by {}
                assert(more(t));
                if let Some(b) = before {
                    assert(known(b));
                }
                assert(earliest(res, more));
            }
            j = j + 1;
        }
        proof {
            let known = |t: Instant|
                all(t) || expires_in(entries.take(i as int), t) || exists|k: int|
                    0 <= k < list@.len() && (#[trigger] entries[i as int].1[k]).expires_at == t;
            let next_known = |t: Instant| all(t) || expires_in(entries.take(i + 1), t);
            let head = entries.take(i as int);
            let longer = entries.take(i + 1);
            assert forall|u: Instant| #[trigger] next_known(u) == known(u) by {
                if expires_in(longer, u) {
                    let (a, b) = choose|a: int, b: int|
                        0 <= a < longer.len() && 0 <= b < longer[a].1.len() && (
                        #[trigger] longer[a].1[b]).expires_at == u;
                    if a < i {
                        assert(head[a].1[b].expires_at == u);
                    } else {
                        assert(entries[i as int].1[b].expires_at == u);
                    }
                }
                if expires_in(head, u) {
                    let (a, b) = choose|a: int, b: int|
                        0 <= a < head.len() && 0 <= b < head[a].1.len() && (
                        #[trigger] head[a].1[b]).expires_at == u;
                    assert(longer[a].1[b].expires_at == u);
                }
                if exists|k: int|
                    0 <= k < list@.len() && (#[trigger] entries[i as int].1[k]).expires_at == u {
                    let k = choose|k: int|
                        0 <= k < list@.len() && (#[trigger] entries[i as int].1[k]).expires_at
                            == u;
                    assert(longer[i as int].1[k].expires_at == u);
                }
            }
            assert(earliest(res, known));
            if let Some(t) = res {
                assert(next_known(t) == known(t));
            }
            assert(earliest(res, next_known));
        }
        i = i + 1;
    }
    assert(entries.take(entries.len() as int) =~= entries);
    res
}

impl Lifecycle {
    /// The next deadline, if there is one.
    ///
    /// Counts the lifetimes of routers, DNS servers and search domains, and
    /// both the valid and the preferred lifetimes of prefixes.
    pub fn next_expiry(&self) -> (next: Option<Instant>)
        ensures
            self.deep_view().next_deadline(next),
    {
        let ghost state = self.deep_view();
        let mut next: Option<Instant> = None;
        let mut i: usize = 0;
        while i < self.router_store.entries.len()
            invariant
                i <= self.router_store@.len(),
                earliest(next, |t: Instant| router_expires(self.router_store@.take(i as int), t)),
            decreases self.router_store@.len() - i,
        {
            let ghost before = next;
            next = earlier(next, self.router_store.entries[i].1);
            proof {
                let routers = self.router_store@;
                let head = routers.take(i as int);
                let longer = routers.take(i + 1);
                let known = |t: Instant| router_expires(head, t);
                let more = |t: Instant| router_expires(longer, t);
                let t = routers[i as int].1;
                assert(longer[i as int].1 == t);
                assert forall|u: Instant| #[trigger] more(u) == (known(u) || u == t) by {
                    if router_expires(longer, u) {
                        let a = choose|a: int|
                            0 <= a < longer.len() && (#[trigger] longer[a]).1 == u;
                        if a < i {
                            assert(head[a].1 == u);
                        }
                    }
                    if router_expires(head, u) {
                        let a = choose|a: int| 0 <= a < head.len() && (#[trigger] head[a]).1 == u;
                        assert(longer[a].1 == u);
                    }
                }
                assert(earliest(before, known));
                if let Some(b) = before {
                    assert(known(b));
                    assert(more(b) == (known(b) || b == t));
                }
                assert(more(t) == (known(t) || t == t));
                assert(earliest(next, more));
            }
            i = i + 1;
        }
        assert(self.router_store@.take(i as int) =~= state.routers);
        let ghost routers = |t: Instant| router_expires(state.routers, t);
        let next = earliest_in(&self.dns_servers_store, next, Ghost(routers));
        let ghost servers = |t: Instant| routers(t) || expires_in(state.servers, t);
        let next = earliest_in(&self.dns_domains_store, next, Ghost(servers));
        let ghost domains = |t: Instant| servers(t) || expires_in(state.domains, t);
        let next = earliest_in(&self.prefix_store, next, Ghost(domains));
        let ghost prefixes = |t: Instant| domains(t) || expires_in(state.prefixes, t);
        let next = earliest_in(&self.soft_prefix_store, next, Ghost(prefixes));
        proof {
            let all = |t: Instant| prefixes(t) || expires_in(state.soft_prefixes, t);
            assert forall|u: Instant| #[trigger] state.deadline(u) == all(u) by {}
            if let Some(t) = next {
                assert(state.deadline(t) == all(t));
            }
        }
        next
    }
}

// Expiry

/// Whether an entry is still valid at time `now`.
pub open spec fn is_live<T>(now: Instant) -> spec_fn(LifecycleEntry<T>) -> bool {
    |e: LifecycleEntry<T>| e.expires_at.nanos > now.nanos
}

/// Whether the lifetime of an entry is over at time `now`.
pub open spec fn has_lapsed<T>(now: Instant) -> spec_fn(LifecycleEntry<T>) -> bool {
    |e: LifecycleEntry<T>| e.expires_at.nanos <= now.nanos
}

/// The entries that are still valid at time `now`.
pub open spec fn live<T>(entries: Seq<LifecycleEntry<T>>, now: Instant) -> Seq<LifecycleEntry<T>> {
    entries.filter(is_live(now))
}

/// The entries whose lifetime is over at time `now`.
pub open spec fn lapsed<T>(entries: Seq<LifecycleEntry<T>>, now: Instant) -> Seq<
    LifecycleEntry<T>,
> {
    entries.filter(has_lapsed(now))
}

/// The data of entries.
pub open spec fn data_of<T>(entries: Seq<LifecycleEntry<T>>) -> Seq<T> {
    entries.map_values(|e: LifecycleEntry<T>| e.data)
}

/// The store with only the entries that are still valid.
pub open spec fn live_store<T>(store: Store<T>, now: Instant) -> Store<T> {
    store.map_values(|e: (Key, Seq<LifecycleEntry<T>>)| (e.0, live(e.1, now)))
}

/// The routers of which an entry lapsed, each with the data that it has left.
pub open spec fn remainders<T>(store: Store<T>, now: Instant) -> Seq<(Key, Seq<T>)>
    decreases store.len(),
{
    if store.len() == 0 {
        Seq::empty()
    } else {
        let (key, entries) = store.last();
        let before = remainders(store.drop_last(), now);
        if live(entries, now).len() == entries.len() {
            before
        } else {
            before.push((key, data_of(live(entries, now))))
        }
    }
}

/// The data of all lapsed entries, each with its router.
pub open spec fn losses<T>(store: Store<T>, now: Instant) -> Seq<(Key, T)>
    decreases store.len(),
{
    if store.len() == 0 {
        Seq::empty()
    } else {
        let (key, entries) = store.last();
        losses(store.drop_last(), now) + lapsed(entries, now).map_values(
            |e: LifecycleEntry<T>| (key, e.data),
        )
    }
}

/// The routers whose lifetime is over at time `now`.
pub open spec fn lapsed_routers(routers: Seq<(Key, Instant)>, now: Instant) -> Seq<Key> {
    keys_of(routers.filter(|e: (Key, Instant)| e.1.nanos <= now.nanos))
}

/// The entries of other routers.
pub open spec fn without_all<T>(store: Store<T>, keys: Seq<Key>) -> Store<T> {
    store.filter(|e: (Key, Seq<LifecycleEntry<T>>)| !keys.contains(e.0))
}

/// The state after everything whose lifetime is over at time `now` is gone,
/// and with a router all that it announced.
pub open spec fn expired(state: LifecycleView, now: Instant) -> LifecycleView {
    let gone = lapsed_routers(state.routers, now);
    LifecycleView {
        routers: state.routers.filter(|e: (Key, Instant)| e.1.nanos > now.nanos),
        servers: live_store(without_all(state.servers, gone), now),
        domains: live_store(without_all(state.domains, gone), now),
        prefixes: nonempty(live_store(without_all(state.prefixes, gone), now)),
        soft_prefixes: nonempty(live_store(without_all(state.soft_prefixes, gone), now)),
    }
}

/// The changes that expiry at time `now` is reported by: expired routers, the
/// remaining DNS data where some lapsed, and expired prefixes.
pub open spec fn expiries(state: LifecycleView, now: Instant) -> Seq<EventView> {
    let gone = lapsed_routers(state.routers, now);
    gone.map_values(|key: Key| EventView::RouterExpiry { key }) + remainders(
        without_all(state.servers, gone),
        now,
    ).map_values(
        |e: (Key, Seq<Group<Ipv6Addr>>)| EventView::DnsServers { key: e.0, servers: e.1 },
    ) + remainders(without_all(state.domains, gone), now).map_values(
        |e: (Key, Seq<Group<Seq<char>>>)| EventView::DnsDomains { key: e.0, domains: e.1 },
    ) + losses(without_all(state.prefixes, gone), now).map_values(
        |e: (Key, PrefixInfo)| EventView::PrefixExpiry { key: e.0, prefix_info: e.1 },
    )
}

/// The prefixes whose preferred lifetime is over at time `now`.
pub open spec fn soft_expiries(state: LifecycleView, now: Instant) -> Seq<EventView> {
    let gone = lapsed_routers(state.routers, now);
    losses(without_all(state.soft_prefixes, gone), now).map_values(
        |e: (Key, PrefixInfo)| EventView::PrefixSoftExpiry { key: e.0, prefix_info: e.1 },
    )
}

/// Keeps the entries that are still valid.
fn retain_live<T: DeepView>(entries: &mut Vec<LifecycleEntry<T>>, now: Instant)
    ensures
        final(entries).deep_view() == live(old(entries).deep_view(), now),
{
    let ghost before = entries@;
    retain(
        entries,
        |e: &LifecycleEntry<T>| -> (b: bool)
            ensures
                b == (e.expires_at.nanos > now.nanos)
        { e.expires_at.nanos > now.nanos },
        Ghost(is_live(now)),
    );
    proof {
        let f = |e: LifecycleEntry<T>| e.deep_view();
        lemma_filter_map(before, f, is_live(now), is_live(now));
        assert(before.map_values(f) =~= old(entries).deep_view());
        assert(entries@.map_values(f) =~= entries.deep_view());
    }
}

/// Copies the data of entries.
fn copy_data<T: Duplicate>(entries: &Vec<LifecycleEntry<T>>) -> (data: Vec<T>)
    ensures
        data.deep_view() == data_of(entries.deep_view()),
{
    let mut data: Vec<T> = Vec::new();
    let mut i: usize = 0;
    while i < entries.len()
        invariant
            i <= entries@.len(),
            data@.len() == i,
            forall|j: int|
                0 <= j < i ==> (#[trigger] data@[j]).deep_view() == entries@[j].data.deep_view(),
        decreases entries@.len() - i,
    {
        data.push(entries[i].data.duplicate());
        i = i + 1;
    }
    assert(data.deep_view() =~= data_of(entries.deep_view()));
    data
}

/// Drops lapsed entries and tells what the routers that lost some have left.
fn expire_groups<T: Duplicate>(store: &mut LifecycleStore<T>, now: Instant) -> (res: Vec<
    (Key, Vec<T>),
>)
    ensures
        final(store).deep_view() == live_store(old(store).deep_view(), now),
        res.deep_view() == remainders(old(store).deep_view(), now),
{
    let ghost before = store.deep_view();
    let mut res: Vec<(Key, Vec<T>)> = Vec::new();
    let mut i: usize = 0;
    assert(res.deep_view() =~= remainders(before.take(0), now));
    while i < store.entries.len()
        invariant
            i <= store@.len(),
            store@.len() == before.len(),
            forall|j: int|
                0 <= j < i ==> (#[trigger] store.deep_view()[j]) == (
                    before[j].0,
                    live(before[j].1, now),
                ),
            forall|j: int| i <= j < before.len() ==> (#[trigger] store.deep_view()[j]) == before[j],
            res.deep_view() == remainders(before.take(i as int), now),
        decreases store@.len() - i,
    {
        let ghost state = store@;
        let ghost view = store.deep_view();
        let ghost told = res.deep_view();
        assert(store.deep_view()[i as int] == before[i as int]);
        let key = store.entries[i].0;
        let count: usize = store.entries[i].1.len();
        retain_live(&mut store.entries[i].1, now);
        proof {
            assert(before.take(i + 1).drop_last() =~= before.take(i as int));
            assert(before.take(i + 1).last() == before[i as int]);
            assert(store@ =~= state.update(i as int, store@[i as int]));
            assert forall|j: int| 0 <= j < before.len() && j != i implies (
            #[trigger] store.deep_view()[j]) == view[j] by {
                assert(store@[j] == state[j]);
            }
        }
        if store.entries[i].1.len() != count {
            let data = copy_data(&store.entries[i].1);
            res.push((key, data));
            assert(res.deep_view() =~= told.push((key, data.deep_view())));
        }
        i = i + 1;
    }
    proof {
        assert(before.take(before.len() as int) =~= before);
        assert(store.deep_view() =~= live_store(before, now));
    }
    res
}

/// Lists the data of the lapsed entries of a router.
fn list_lapsed<T: Duplicate>(
    res: &mut Vec<(Key, T)>,
    key: Key,
    entries: &Vec<LifecycleEntry<T>>,
    now: Instant,
)
    ensures
        final(res).deep_view() == old(res).deep_view() + lapsed(
            entries.deep_view(),
            now,
        ).map_values(|e: LifecycleEntry<T::V>| (key, e.data)),
{
    let ghost all = entries.deep_view();
    let ghost f = |e: LifecycleEntry<T::V>| (key, e.data);
    let mut i: usize = 0;
    proof {
        reveal(Seq::filter);
        assert(lapsed(all.take(0), now).map_values(f) =~= Seq::empty());
        assert(res.deep_view() + lapsed(all.take(0), now).map_values(f) =~= res.deep_view());
    }
    while i < entries.len()
        invariant
            i <= entries@.len(),
            all == entries.deep_view(),
            f == (|e: LifecycleEntry<T::V>| (key, e.data)),
            res.deep_view() == old(res).deep_view() + lapsed(all.take(i as int), now).map_values(
                f,
            ),
        decreases entries@.len() - i,
    {
        let ghost told = res.deep_view();
        proof {
            assert(all.take(i + 1) =~= all.take(i as int).push(all[i as int]));
            all.take(i as int).lemma_filter_push(all[i as int], has_lapsed(now));
        }
        if entries[i].expires_at.nanos <= now.nanos {
            let data = entries[i].data.duplicate();
            res.push((key, data));
            proof {
                assert(res.deep_view() =~= told.push((key, data.deep_view())));
                assert(res.deep_view() =~= old(res).deep_view() + lapsed(
                    all.take(i + 1),
                    now,
                ).map_values(f));
            }
        }
        i = i + 1;
    }
    assert(all.take(all.len() as int) =~= all);
}

/// Drops lapsed entries, and routers that have none left, and tells what
/// lapsed.
fn expire_leases<T: Duplicate>(store: &mut LifecycleStore<T>, now: Instant) -> (res: Vec<(Key, T)>)
    requires
        old(store).wf(),
    ensures
        final(store).deep_view() == nonempty(live_store(old(store).deep_view(), now)),
        res.deep_view() == losses(old(store).deep_view(), now),
{
    let ghost before = store.deep_view();
    let mut res: Vec<(Key, T)> = Vec::new();
    let mut i: usize = 0;
    assert(res.deep_view() =~= losses(before.take(0), now));
    while i < store.entries.len()
        invariant
            i <= store@.len(),
            store@.len() == before.len(),
            forall|j: int|
                0 <= j < i ==> (#[trigger] store.deep_view()[j]) == (
                    before[j].0,
                    live(before[j].1, now),
                ),
            forall|j: int| i <= j < before.len() ==> (#[trigger] store.deep_view()[j]) == before[j],
            res.deep_view() == losses(before.take(i as int), now),
        decreases store@.len() - i,
    {
        let ghost state = store@;
        let ghost view = store.deep_view();
        assert(store.deep_view()[i as int] == before[i as int]);
        let key = store.entries[i].0;
        list_lapsed(&mut res, key, &store.entries[i].1, now);
        retain_live(&mut store.entries[i].1, now);
        proof {
            assert(before.take(i + 1).drop_last() =~= before.take(i as int));
            assert(before.take(i + 1).last() == before[i as int]);
            assert(store@ =~= state.update(i as int, store@[i as int]));
            assert forall|j: int| 0 <= j < before.len() && j != i implies (
            #[trigger] store.deep_view()[j]) == view[j] by {
                assert(store@[j] == state[j]);
            }
        }
        i = i + 1;
    }
    proof {
        assert(before.take(before.len() as int) =~= before);
        assert(store.deep_view() =~= live_store(before, now));
        lemma_deep_table(old(store)@);
        assert forall|a: int, b: int| 0 <= a < b < store@.len() implies (#[trigger] store@[a]).0
            != (#[trigger] store@[b]).0 by {
            assert(store.deep_view()[a].0 == before[a].0);
            assert(store.deep_view()[b].0 == before[b].0);
        }
    }
    drop_empty(store);
    res
}

/// Removes everything that the given routers announced.
fn remove_routers<T: DeepView>(store: &mut LifecycleStore<T>, gone: &Vec<Key>)
    requires
        old(store).wf(),
    ensures
        final(store).deep_view() == without_all(old(store).deep_view(), gone@),
        final(store).wf(),
{
    let ghost before = store@;
    let ghost kept = |e: (Key, Vec<LifecycleEntry<T>>)| !gone@.contains(e.0);
    assert(gone.deep_view() =~= gone@);
    retain(
        &mut store.entries,
        |e: &(Key, Vec<LifecycleEntry<T>>)| -> (b: bool)
            ensures
                b == !gone@.contains(e.0)
        { !contains(gone, &e.0) },
        Ghost(kept),
    );
    proof {
        lemma_filter_map(
            before,
            |e: (Key, Vec<LifecycleEntry<T>>)| (e.0, e.1.deep_view()),
            kept,
            |e: (Key, Seq<LifecycleEntry<T::V>>)| !gone@.contains(e.0),
        );
        lemma_filter_table(before, kept);
    }
}

/// Removes the routers whose lifetime is over and tells which they were.
fn expire_routers(routers: &mut Table<Key, Instant>, now: Instant) -> (gone: Vec<Key>)
    ensures
        final(routers)@ == old(routers)@.filter(|e: (Key, Instant)| e.1.nanos > now.nanos),
        gone@ == lapsed_routers(old(routers)@, now),
{
    let ghost all = routers@;
    let ghost due = |e: (Key, Instant)| e.1.nanos <= now.nanos;
    let mut gone: Vec<Key> = Vec::new();
    let mut i: usize = 0;
    proof {
        reveal(Seq::filter);
        assert(gone@ =~= keys_of(all.take(0).filter(due)));
    }
    while i < routers.entries.len()
        invariant
            i <= routers@.len(),
            routers@ == all,
            due == (|e: (Key, Instant)| e.1.nanos <= now.nanos),
            gone@ == keys_of(all.take(i as int).filter(due)),
        decreases routers@.len() - i,
    {
        proof {
            assert(all.take(i + 1) =~= all.take(i as int).push(all[i as int]));
            all.take(i as int).lemma_filter_push(all[i as int], due);
        }
        if routers.entries[i].1.nanos <= now.nanos {
            gone.push(routers.entries[i].0);
            assert(gone@ =~= keys_of(all.take(i + 1).filter(due)));
        }
        i = i + 1;
    }
    assert(all.take(all.len() as int) =~= all);
    retain(
        &mut routers.entries,
        |e: &(Key, Instant)| -> (b: bool)
            ensures
                b == (e.1.nanos > now.nanos)
        { e.1.nanos > now.nanos },
        Ghost(|e: (Key, Instant)| e.1.nanos > now.nanos),
    );
    gone
}

/// Dropping lapsed entries does so for every router.
pub proof fn lemma_live_store<T>(store: Store<T>, now: Instant)
    requires
        unique_keys(store),
    ensures
        unique_keys(live_store(store, now)),
        forall|key: Key| #[trigger] has_key(live_store(store, now), key) <==> has_key(store, key),
        forall|key: Key| #[trigger]
            entries_at(live_store(store, now), key) == live(entries_at(store, key), now),
{
    reveal(Seq::filter);
    let out = live_store(store, now);
    assert forall|i: int, j: int| 0 <= i < j < out.len() implies (#[trigger] out[i]).0 != (
    #[trigger] out[j]).0 by {
        assert(store[i].0 != store[j].0);
    }
    assert forall|key: Key| #[trigger] has_key(out, key) <==> has_key(store, key) by {
        if has_key(store, key) {
            let i = position(store, key);
            assert(0 <= i < store.len() && store[i].0 == key);
            assert(out[i].0 == key);
        }
        if has_key(out, key) {
            let i = position(out, key);
            assert(0 <= i < out.len() && out[i].0 == key);
            assert(store[i].0 == key);
        }
    }
    assert forall|key: Key| #[trigger]
        entries_at(out, key) == live(entries_at(store, key), now) by {
        assert(has_key(out, key) <==> has_key(store, key));
        if has_key(store, key) {
            let i = position(store, key);
            assert(0 <= i < store.len() && store[i].0 == key);
            lemma_position(out, i);
        }
    }
}

/// Removing routers leaves them without entries and the others as they were.
pub proof fn lemma_without_all<T>(store: Store<T>, keys: Seq<Key>)
    requires
        unique_keys(store),
    ensures
        unique_keys(without_all(store, keys)),
        forall|key: Key| #[trigger]
            entries_at(without_all(store, keys), key) == if keys.contains(key) {
                Seq::empty()
            } else {
                entries_at(store, key)
            },
        forall|key: Key|
            #[trigger] has_key(without_all(store, keys), key) <==> has_key(store, key)
                && !keys.contains(key),
{
    let p = |e: (Key, Seq<LifecycleEntry<T>>)| !keys.contains(e.0);
    lemma_filter_table(store, p);
    assert forall|key: Key| #[trigger]
        entries_at(without_all(store, keys), key) == if keys.contains(key) {
            Seq::empty()
        } else {
            entries_at(store, key)
        } by {
        assert(lookup(store.filter(p), key) == lookup(without_all(store, keys), key));
    }
    assert forall|key: Key|
        #[trigger] has_key(without_all(store, keys), key) <==> has_key(store, key)
            && !keys.contains(key) by {
        assert(lookup(store.filter(p), key) == lookup(without_all(store, keys), key));
    }
}

/// What each router has left after expiry, store by store.
proof fn lemma_expired(state: LifecycleView, now: Instant)
    requires
        state.wf(),
    ensures
        expired(state, now).wf(),
        forall|key: Key| #[trigger]
            lookup(expired(state, now).routers, key) == match lookup(state.routers, key) {
                Some(t) if t.nanos > now.nanos => Some(t),
                _ => None,
            },
        forall|key: Key| #[trigger]
            entries_at(expired(state, now).servers, key) == if lapsed_routers(
                state.routers,
                now,
            ).contains(key) {
                Seq::empty()
            } else {
                live(entries_at(state.servers, key), now)
            },
        forall|key: Key| #[trigger]
            entries_at(expired(state, now).domains, key) == if lapsed_routers(
                state.routers,
                now,
            ).contains(key) {
                Seq::empty()
            } else {
                live(entries_at(state.domains, key), now)
            },
        forall|key: Key| #[trigger]
            entries_at(expired(state, now).prefixes, key) == if lapsed_routers(
                state.routers,
                now,
            ).contains(key) {
                Seq::empty()
            } else {
                live(entries_at(state.prefixes, key), now)
            },
        forall|key: Key| #[trigger]
            entries_at(expired(state, now).soft_prefixes, key) == if lapsed_routers(
                state.routers,
                now,
            ).contains(key) {
                Seq::empty()
            } else {
                live(entries_at(state.soft_prefixes, key), now)
            },
{
    reveal(Seq::filter);
    let gone = lapsed_routers(state.routers, now);
    lemma_filter_table(state.routers, |e: (Key, Instant)| e.1.nanos > now.nanos);
    lemma_without_all(state.servers, gone);
    lemma_without_all(state.domains, gone);
    lemma_without_all(state.prefixes, gone);
    lemma_without_all(state.soft_prefixes, gone);
    lemma_live_store(without_all(state.servers, gone), now);
    lemma_live_store(without_all(state.domains, gone), now);
    lemma_live_store(without_all(state.prefixes, gone), now);
    lemma_live_store(without_all(state.soft_prefixes, gone), now);
    lemma_nonempty(live_store(without_all(state.prefixes, gone), now));
    lemma_nonempty(live_store(without_all(state.soft_prefixes, gone), now));
    assert forall|key: Key| distinct_leases(
        #[trigger] entries_at(expired(state, now).prefixes, key),
    ) by {
        lemma_filter_distinct(entries_at(state.prefixes, key), is_live(now));
        lemma_filter_distinct(entries_at(without_all(state.prefixes, gone), key), is_live(now));
    }
    assert forall|key: Key| distinct_leases(
        #[trigger] entries_at(expired(state, now).soft_prefixes, key),
    ) by {
        lemma_filter_distinct(entries_at(state.soft_prefixes, key), is_live(now));
        lemma_filter_distinct(
            entries_at(without_all(state.soft_prefixes, gone), key),
            is_live(now),
        );
    }
}

/// The report that a router expired.
fn router_expiry(key: Key) -> (event: Event)
    ensures
        event.deep_view() == (EventView::RouterExpiry { key }),
{
    Event::RouterExpiry { key }
}

/// The report of the DNS servers that a router has left.
fn servers_update(left: (Key, Vec<DnsServers>)) -> (event: Event)
    ensures
        event.deep_view() == (EventView::DnsServers { key: left.0, servers: left.1.deep_view() }),
{
    Event::DnsServers { key: left.0, servers: left.1 }
}

/// The report of the search domains that a router has left.
fn domains_update(left: (Key, Vec<DnsDomains>)) -> (event: Event)
    ensures
        event.deep_view() == (EventView::DnsDomains { key: left.0, domains: left.1.deep_view() }),
{
    Event::DnsDomains { key: left.0, domains: left.1 }
}

/// The report that a prefix expired.
fn prefix_expiry(lost: (Key, PrefixInfo)) -> (event: Event)
    ensures
        event.deep_view() == (EventView::PrefixExpiry { key: lost.0, prefix_info: lost.1 }),
{
    Event::PrefixExpiry { key: lost.0, prefix_info: lost.1 }
}

/// The report that a prefix reached its preferred lifetime.
fn prefix_soft_expiry(lost: (Key, PrefixInfo)) -> (event: Event)
    ensures
        event.deep_view() == (EventView::PrefixSoftExpiry { key: lost.0, prefix_info: lost.1 }),
{
    Event::PrefixSoftExpiry { key: lost.0, prefix_info: lost.1 }
}

/// Reports items one by one.
fn report<T: DeepView, F: Fn(T) -> Event>(
    events: &mut Vec<Event>,
    items: Vec<T>,
    event: F,
    Ghost(said): Ghost<spec_fn(T::V) -> EventView>,
)
    requires
        forall|item: T| #[trigger] call_requires(event, (item,)),
        forall|item: T, e: Event|
            #[trigger] call_ensures(event, (item,), e) ==> e.deep_view() == said(item.deep_view()),
    ensures
        final(events).deep_view() == old(events).deep_view() + items.deep_view().map_values(said),
{
    let ghost all = items.deep_view();
    assert(events.deep_view() + all.take(0).map_values(said) =~= events.deep_view());
    for item in it: items.into_iter()
        invariant
            it.seq() == items@,
            all == items.deep_view(),
            forall|item: T| #[trigger] call_requires(event, (item,)),
            forall|item: T, e: Event|
                #[trigger] call_ensures(event, (item,), e) ==> e.deep_view() == said(
                    item.deep_view(),
                ),
            events.deep_view() == old(events).deep_view() + all.take(it.index() as int).map_values(
                said,
            ),
    {
        let ghost told = events.deep_view();
        let ghost i = it.index() as int;
        assert(all[i] == item.deep_view());
        events.push(event(item));
        proof {
            assert(events.deep_view() =~= told.push(said(all[i])));
            assert(all.take(i + 1).map_values(said) =~= all.take(i).map_values(said).push(
                said(all[i]),
            ));
            assert(events.deep_view() =~= old(events).deep_view() + all.take(i + 1).map_values(
                said,
            ));
        }
    }
    assert(all.take(all.len() as int) =~= all);
}

impl Lifecycle {
    /// Drops everything whose lifetime is over at time `now`.
    ///
    /// Returns the changes, and apart from them the prefixes that reached
    /// their preferred lifetime.
    pub fn expire(&mut self, now: Instant) -> (res: (Vec<Event>, Vec<Event>))
        requires
            old(self).deep_view().wf(),
        ensures
            final(self).deep_view() == expired(old(self).deep_view(), now),
            final(self).deep_view().wf(),
            res.0.deep_view() == expiries(old(self).deep_view(), now),
            res.1.deep_view() == soft_expiries(old(self).deep_view(), now),
    {
        let ghost state = self.deep_view();
        proof {
            lemma_expired(state, now);
            lemma_deep_table(self.dns_servers_store@);
            lemma_deep_table(self.dns_domains_store@);
            lemma_deep_table(self.prefix_store@);
            lemma_deep_table(self.soft_prefix_store@);
        }
        let mut events: Vec<Event> = Vec::new();
        let mut soft_events: Vec<Event> = Vec::new();
        let gone = expire_routers(&mut self.router_store, now);
        remove_routers(&mut self.dns_servers_store, &gone);
        remove_routers(&mut self.dns_domains_store, &gone);
        remove_routers(&mut self.prefix_store, &gone);
        remove_routers(&mut self.soft_prefix_store, &gone);
        report(
            &mut events,
            gone,
            router_expiry,
            Ghost(|key: Key| EventView::RouterExpiry { key }),
        );
        let servers = expire_groups(&mut self.dns_servers_store, now);
        report(
            &mut events,
            servers,
            servers_update,
            Ghost(
                |e: (Key, Seq<Group<Ipv6Addr>>)| EventView::DnsServers { key: e.0, servers: e.1 },
            ),
        );
        let domains = expire_groups(&mut self.dns_domains_store, now);
        report(
            &mut events,
            domains,
            domains_update,
            Ghost(
                |e: (Key, Seq<Group<Seq<char>>>)| EventView::DnsDomains { key: e.0, domains: e.1 },
            ),
        );
        let leases = expire_leases(&mut self.prefix_store, now);
        report(
            &mut events,
            leases,
            prefix_expiry,
            Ghost(|e: (Key, PrefixInfo)| EventView::PrefixExpiry { key: e.0, prefix_info: e.1 }),
        );
        let soft = expire_leases(&mut self.soft_prefix_store, now);
        report(
            &mut soft_events,
            soft,
            prefix_soft_expiry,
            Ghost(
                |e: (Key, PrefixInfo)| EventView::PrefixSoftExpiry { key: e.0, prefix_info: e.1 },
            ),
        );
        proof {
            assert(gone.deep_view() =~= gone@);
            assert(events.deep_view() =~= expiries(state, now));
            assert(soft_events.deep_view() =~= soft_expiries(state, now));
        }
        (events, soft_events)
    }
}

// Laws

/// Everything that is known of one router.
pub struct RouterState {
    pub expires_at: Option<Instant>,
    pub servers: Seq<LifecycleEntry<Group<Ipv6Addr>>>,
    pub domains: Seq<LifecycleEntry<Group<Seq<char>>>>,
    pub prefixes: Seq<LifecycleEntry<PrefixInfo>>,
    pub soft_prefixes: Seq<LifecycleEntry<PrefixInfo>>,
}

/// A router of which nothing is known.
pub open spec fn unknown_router() -> RouterState {
    RouterState {
        expires_at: None,
        servers: Seq::empty(),
        domains: Seq::empty(),
        prefixes: Seq::empty(),
        soft_prefixes: Seq::empty(),
    }
}

impl LifecycleView {
    /// Everything that is known of a router.
    pub open spec fn router(self, key: Key) -> RouterState {
        RouterState {
            expires_at: lookup(self.routers, key),
            servers: entries_at(self.servers, key),
            domains: entries_at(self.domains, key),
            prefixes: entries_at(self.prefixes, key),
            soft_prefixes: entries_at(self.soft_prefixes, key),
        }
    }
}

/// The router that an observation is about.
pub open spec fn subject(event: detector::EventView) -> Key {
    match event {
        detector::EventView::Router { key, managed, other_config, lifetime } => key,
        detector::EventView::DnsServers(key, servers) => key,
        detector::EventView::DnsDomains(key, domains) => key,
        detector::EventView::Prefix { key, prefix_info, lifetime, preferred_lifetime } => key,
    }
}

/// An observation changes nothing of other routers, on whatever interface.
pub proof fn law_observation_isolated(
    state: LifecycleView,
    event: detector::EventView,
    now: Instant,
    other: Key,
)
    requires
        state.wf(),
        other != subject(event),
    ensures
        observed(state, event, now).router(other) == state.router(other),
{
    lemma_observed(state, event, now);
}

/// What is known of a router after an observation of it at time `now`: a zero
/// router lifetime withdraws everything, DNS data is replaced as a whole, and
/// prefixes are leased or withdrawn one by one. A prefix that is announced
/// again gets its deadlines anew, and one that is withdrawn loses them.
pub open spec fn observed_router(
    before: RouterState,
    event: detector::EventView,
    now: Instant,
) -> RouterState {
    match event {
        detector::EventView::Router { key, managed, other_config, lifetime } => {
            if lifetime.nanos == 0 {
                unknown_router()
            } else {
                RouterState { expires_at: Some(now.plus(lifetime)), ..before }
            }
        },
        detector::EventView::DnsServers(key, servers) => RouterState {
            servers: group_entries(servers, now),
            ..before
        },
        detector::EventView::DnsDomains(key, domains) => RouterState {
            domains: group_entries(domains, now),
            ..before
        },
        detector::EventView::Prefix { key, prefix_info, lifetime, preferred_lifetime } => {
            if lifetime.nanos == 0 {
                RouterState {
                    prefixes: drop_lease(before.prefixes, prefix_info.prefix),
                    soft_prefixes: drop_lease(before.soft_prefixes, prefix_info.prefix),
                    ..before
                }
            } else {
                RouterState {
                    prefixes: refresh_lease(
                        before.prefixes,
                        LifecycleEntry { data: prefix_info, expires_at: now.plus(lifetime) },
                    ),
                    soft_prefixes: renew_preferred(
                        before.soft_prefixes,
                        prefix_info,
                        lifetime,
                        preferred_lifetime,
                        now,
                    ),
                    ..before
                }
            }
        },
    }
}

/// An observation makes known of its router exactly what it says.
pub proof fn law_observation(state: LifecycleView, event: detector::EventView, now: Instant)
    requires
        state.wf(),
    ensures
        observed(state, event, now).router(subject(event)) == observed_router(
            state.router(subject(event)),
            event,
            now,
        ),
{
    lemma_observed(state, event, now);
}

/// Expiry drops a router whose lifetime is over with everything that it
/// announced, and of every other router exactly what has lapsed. A prefix
/// that reached its preferred lifetime keeps its lease.
pub proof fn law_expiry(state: LifecycleView, now: Instant, key: Key)
    requires
        state.wf(),
    ensures
        expired(state, now).wf(),
        expired(state, now).router(key) == ({
            let before = state.router(key);
            match before.expires_at {
                Some(t) if t.nanos <= now.nanos => unknown_router(),
                _ => RouterState {
                    expires_at: before.expires_at,
                    servers: live(before.servers, now),
                    domains: live(before.domains, now),
                    prefixes: live(before.prefixes, now),
                    soft_prefixes: live(before.soft_prefixes, now),
                },
            }
        }),
{
    lemma_expired(state, now);
    lemma_lapsed_router(state.routers, now, key);
}

/// A router is among the lapsed ones if its deadline has passed.
pub proof fn lemma_lapsed_router(routers: Seq<(Key, Instant)>, now: Instant, key: Key)
    requires
        unique_keys(routers),
    ensures
        lapsed_routers(routers, now).contains(key) <==> match lookup(routers, key) {
            Some(t) => t.nanos <= now.nanos,
            None => false,
        },
{
    let due = |e: (Key, Instant)| e.1.nanos <= now.nanos;
    let out = routers.filter(due);
    lemma_filter_table(routers, due);
    assert(has_key(out, key) <==> lookup(out, key) is Some);
    if lapsed_routers(routers, now).contains(key) {
        let i = choose|i: int| 0 <= i < keys_of(out).len() && keys_of(out)[i] == key;
        assert(out[i].0 == key);
        assert(has_key(out, key));
    }
    if has_key(out, key) {
        let i = position(out, key);
        assert(0 <= i < out.len() && out[i].0 == key);
        assert(keys_of(out)[i] == key);
    }
}

proof fn lemma_losses_members<T>(store: Store<T>, now: Instant, key: Key, data: T)
    requires
        unique_keys(store),
    ensures
        losses(store, now).contains((key, data)) <==> data_of(
            lapsed(entries_at(store, key), now),
        ).contains(data),
    decreases store.len(),
{
    reveal(Seq::filter);
    if store.len() > 0 {
        let rest = store.drop_last();
        let (k, entries) = store.last();
        let head = losses(rest, now);
        let gone = lapsed(entries, now);
        let tail = gone.map_values(|e: LifecycleEntry<T>| (k, e.data));
        let out = losses(store, now);
        lemma_store_last(store);
        lemma_losses_members(rest, now, key, data);
        assert(out == head + tail);
        if head.contains((key, data)) {
            let i = choose|i: int| 0 <= i < head.len() && head[i] == (key, data);
            assert(out[i] == (key, data));
        }
        if k == key && data_of(gone).contains(data) {
            let i = choose|i: int| 0 <= i < data_of(gone).len() && data_of(gone)[i] == data;
            assert(tail[i] == (key, data));
            assert(out[head.len() + i] == (key, data));
        }
        if out.contains((key, data)) && !head.contains((key, data)) {
            let i = choose|i: int| 0 <= i < out.len() && out[i] == (key, data);
            if i < head.len() {
                assert(head[i] == (key, data));
            }
            assert(tail[i - head.len()] == (key, data));
            assert(data_of(gone)[i - head.len()] == data);
        }
    }
}

proof fn lemma_remainders_members<T>(store: Store<T>, now: Instant, key: Key, left: Seq<T>)
    requires
        unique_keys(store),
    ensures
        remainders(store, now).contains((key, left)) <==> live(entries_at(store, key), now).len()
            != entries_at(store, key).len() && left == data_of(live(entries_at(store, key), now)),
    decreases store.len(),
{
    reveal(Seq::filter);
    if store.len() > 0 {
        let rest = store.drop_last();
        let (k, entries) = store.last();
        let head = remainders(rest, now);
        let out = remainders(store, now);
        lemma_store_last(store);
        lemma_remainders_members(rest, now, key, left);
        if live(entries, now).len() != entries.len() {
            let last = (k, data_of(live(entries, now)));
            assert(out == head.push(last));
            if head.contains((key, left)) {
                let i = choose|i: int| 0 <= i < head.len() && head[i] == (key, left);
                assert(out[i] == (key, left));
            }
            assert(out[head.len() as int] == last);
            if out.contains((key, left)) && !head.contains((key, left)) {
                let i = choose|i: int| 0 <= i < out.len() && out[i] == (key, left);
                if i < head.len() {
                    assert(head[i] == (key, left));
                }
            }
        }
    }
}

/// The last router of a store does not occur before, and the others keep
/// their entries without it.
pub proof fn lemma_store_last<T>(store: Store<T>)
    requires
        unique_keys(store),
        store.len() > 0,
    ensures
        unique_keys(store.drop_last()),
        entries_at(store, store.last().0) == store.last().1,
        entries_at(store.drop_last(), store.last().0) == Seq::<LifecycleEntry<T>>::empty(),
        forall|key: Key|
            key != store.last().0 ==> #[trigger] entries_at(store.drop_last(), key) == entries_at(
                store,
                key,
            ),
{
    let rest = store.drop_last();
    let last = store.last();
    lemma_position(store, store.len() - 1);
    if has_key(rest, last.0) {
        let i = position(rest, last.0);
        assert(0 <= i < rest.len() && rest[i].0 == last.0);
        assert(store[i].0 != store[store.len() - 1].0);
    }
    assert forall|key: Key| key != last.0 implies #[trigger] entries_at(rest, key) == entries_at(
        store,
        key,
    ) by {
        if has_key(store, key) {
            let i = position(store, key);
            assert(0 <= i < store.len() && store[i].0 == key);
            assert(rest[i] == store[i]);
            lemma_position(rest, i);
        }
        if has_key(rest, key) {
            let i = position(rest, key);
            assert(0 <= i < rest.len() && rest[i].0 == key);
            assert(store[i] == rest[i]);
            lemma_position(store, i);
        }
    }
}

/// Exactly what lapses is reported. A router is reported once its lifetime is
/// over. Of a router that stays, every prefix is reported whose lease has
/// lapsed, and every one that reached a preferred lifetime; and where some DNS
/// data has lapsed, all that is left of it is.
pub proof fn law_expiry_reports(state: LifecycleView, now: Instant, key: Key)
    requires
        state.wf(),
    ensures
        ({
            let before = state.router(key);
            let gone = match before.expires_at {
                Some(t) => t.nanos <= now.nanos,
                None => false,
            };
            let events = expiries(state, now);
            &&& events.contains(EventView::RouterExpiry { key }) <==> gone
            &&& forall|info: PrefixInfo|
                events.contains(#[trigger] prefix_lost(key, info)) <==> !gone && data_of(
                    lapsed(before.prefixes, now),
                ).contains(info)
            &&& forall|info: PrefixInfo|
                soft_expiries(state, now).contains(#[trigger] prefix_deprecated(key, info))
                    <==> !gone && data_of(lapsed(before.soft_prefixes, now)).contains(info)
            &&& forall|left: Seq<Group<Ipv6Addr>>|
                events.contains(#[trigger] servers_left(key, left)) <==> !gone && live(
                    before.servers,
                    now,
                ).len() != before.servers.len() && left == data_of(live(before.servers, now))
            &&& forall|left: Seq<Group<Seq<char>>>|
                events.contains(#[trigger] domains_left(key, left)) <==> !gone && live(
                    before.domains,
                    now,
                ).len() != before.domains.len() && left == data_of(live(before.domains, now))
        }),
{
    reveal(Seq::filter);
    let gone = lapsed_routers(state.routers, now);
    let servers = without_all(state.servers, gone);
    let domains = without_all(state.domains, gone);
    let prefixes = without_all(state.prefixes, gone);
    let soft = without_all(state.soft_prefixes, gone);
    lemma_lapsed_router(state.routers, now, key);
    lemma_without_all(state.servers, gone);
    lemma_without_all(state.domains, gone);
    lemma_without_all(state.prefixes, gone);
    lemma_without_all(state.soft_prefixes, gone);
    let fa = |k: Key| EventView::RouterExpiry { key: k };
    let fb = |e: (Key, Seq<Group<Ipv6Addr>>)| EventView::DnsServers { key: e.0, servers: e.1 };
    let fc = |e: (Key, Seq<Group<Seq<char>>>)| EventView::DnsDomains { key: e.0, domains: e.1 };
    let fd = |e: (Key, PrefixInfo)| EventView::PrefixExpiry { key: e.0, prefix_info: e.1 };
    let fe = |e: (Key, PrefixInfo)| EventView::PrefixSoftExpiry { key: e.0, prefix_info: e.1 };
    let a = gone.map_values(fa);
    let b = remainders(servers, now).map_values(fb);
    let c = remainders(domains, now).map_values(fc);
    let d = losses(prefixes, now).map_values(fd);
    let events = expiries(state, now);
    assert(events =~= a + b + c + d);
    assert forall|e: EventView|
        #![trigger events.contains(e)]
        events.contains(e) <==> a.contains(e) || b.contains(e) || c.contains(e)
            || d.contains(e) by {
        lemma_contains_add(a, b, e);
        lemma_contains_add(a + b, c, e);
        lemma_contains_add(a + b + c, d, e);
    }
    let expiry = EventView::RouterExpiry { key };
    lemma_mapped(gone, fa, key, expiry);
    lemma_not_mapped(remainders(servers, now), fb, expiry);
    lemma_not_mapped(remainders(domains, now), fc, expiry);
    lemma_not_mapped(losses(prefixes, now), fd, expiry);
    assert(events.contains(expiry) <==> gone.contains(key));
    assert forall|info: PrefixInfo|
        events.contains(#[trigger] prefix_lost(key, info)) <==> !gone.contains(key) && data_of(
            lapsed(entries_at(state.prefixes, key), now),
        ).contains(info) by {
        let e = prefix_lost(key, info);
        lemma_losses_members(prefixes, now, key, info);
        lemma_not_mapped(gone, fa, e);
        lemma_not_mapped(remainders(servers, now), fb, e);
        lemma_not_mapped(remainders(domains, now), fc, e);
        lemma_mapped(losses(prefixes, now), fd, (key, info), e);
    }
    assert forall|info: PrefixInfo|
        soft_expiries(state, now).contains(#[trigger] prefix_deprecated(key, info))
            <==> !gone.contains(key) && data_of(
            lapsed(entries_at(state.soft_prefixes, key), now),
        ).contains(info) by {
        let e = prefix_deprecated(key, info);
        lemma_losses_members(soft, now, key, info);
        lemma_mapped(losses(soft, now), fe, (key, info), e);
    }
    assert forall|left: Seq<Group<Ipv6Addr>>|
        events.contains(#[trigger] servers_left(key, left)) <==> !gone.contains(key) && live(
            entries_at(state.servers, key),
            now,
        ).len() != entries_at(state.servers, key).len() && left == data_of(
            live(entries_at(state.servers, key), now),
        ) by {
        let e = servers_left(key, left);
        lemma_remainders_members(servers, now, key, left);
        lemma_not_mapped(gone, fa, e);
        lemma_mapped(remainders(servers, now), fb, (key, left), e);
        lemma_not_mapped(remainders(domains, now), fc, e);
        lemma_not_mapped(losses(prefixes, now), fd, e);
    }
    assert forall|left: Seq<Group<Seq<char>>>|
        events.contains(#[trigger] domains_left(key, left)) <==> !gone.contains(key) && live(
            entries_at(state.domains, key),
            now,
        ).len() != entries_at(state.domains, key).len() && left == data_of(
            live(entries_at(state.domains, key), now),
        ) by {
        let e = domains_left(key, left);
        lemma_remainders_members(domains, now, key, left);
        lemma_not_mapped(gone, fa, e);
        lemma_not_mapped(remainders(servers, now), fb, e);
        lemma_mapped(remainders(domains, now), fc, (key, left), e);
        lemma_not_mapped(losses(prefixes, now), fd, e);
    }
}

/// Whether a router is gone at time `now`.
pub open spec fn router_gone(state: LifecycleView, key: Key, now: Instant) -> bool {
    match lookup(state.routers, key) {
        Some(t) => t.nanos <= now.nanos,
        None => false,
    }
}

/// A router that announced itself at time `then` stays as long as its
/// lifetime says. Once it is over, the router is reported as expired and
/// nothing of it is left.
pub proof fn law_router_lifetime(
    state: LifecycleView,
    event: detector::EventView,
    then: Instant,
    now: Instant,
)
    requires
        state.wf(),
        event is Router,
        event->Router_lifetime.nanos != 0,
        then.reaches(event->Router_lifetime),
    ensures
        ({
            let key = event->Router_key;
            let lifetime = event->Router_lifetime;
            let told = observed(state, event, then);
            let over = then.nanos + lifetime.nanos <= now.nanos;
            &&& expiries(told, now).contains(EventView::RouterExpiry { key }) <==> over
            &&& over ==> expired(told, now).router(key) == unknown_router()
            &&& !over ==> expired(told, now).router(key).expires_at == Some(then.plus(lifetime))
        }),
{
    let key = event->Router_key;
    let told = observed(state, event, then);
    law_observed_wf(state, event, then);
    law_observation(state, event, then);
    law_expiry(told, now, key);
    law_expiry_reports(told, now, key);
}

/// A prefix that was announced at time `then` by a router that is still there
/// is leased as long as its valid lifetime says, and reported as expired once
/// that is over. It is reported as deprecated once its preferred lifetime,
/// where it has one of its own, is over, and that alone does not end the
/// lease. What was announced of the prefix before has no effect, but for a
/// preferred lifetime that the announcement does not renew since its own is
/// zero.
pub proof fn law_prefix_lifetimes(
    state: LifecycleView,
    event: detector::EventView,
    then: Instant,
    now: Instant,
)
    requires
        state.wf(),
        event is Prefix,
        event->Prefix_lifetime.nanos != 0,
        representable(event, then),
        !router_gone(state, event->Prefix_key, now),
    ensures
        ({
            let key = event->Prefix_key;
            let info = event->prefix_info;
            let lifetime = event->Prefix_lifetime;
            let preferred = event->preferred_lifetime;
            let told = observed(state, event, then);
            let over = then.nanos + lifetime.nanos <= now.nanos;
            let left = expired(told, now).router(key).prefixes;
            let deprecated = soft_expiries(told, now).contains(prefix_deprecated(key, info));
            &&& expiries(told, now).contains(prefix_lost(key, info)) <==> over
            &&& over ==> !has_lease(left, info.prefix)
            &&& !over ==> left.contains(
                LifecycleEntry { data: info, expires_at: then.plus(lifetime) },
            )
            &&& preferred.nanos != 0 ==> (deprecated <==> preferred.nanos != lifetime.nanos
                && then.nanos + preferred.nanos <= now.nanos)
            &&& preferred.nanos == 0 ==> (deprecated <==> data_of(
                lapsed(state.router(key).soft_prefixes, now),
            ).contains(info))
        }),
{
    let key = event->Prefix_key;
    let info = event->prefix_info;
    let lifetime = event->Prefix_lifetime;
    let preferred = event->preferred_lifetime;
    let told = observed(state, event, then);
    let lease = LifecycleEntry { data: info, expires_at: then.plus(lifetime) };
    let entries = told.router(key).prefixes;
    law_observed_wf(state, event, then);
    law_observation(state, event, then);
    law_refresh_lease(entries_at(state.prefixes, key), lease);
    law_expiry(told, now, key);
    law_expiry_reports(told, now, key);
    assert(told.router(key).expires_at == state.router(key).expires_at);
    assert(entries.contains(lease));
    let n = choose|n: int| 0 <= n < entries.len() && entries[n] == lease;
    let gone = lapsed(entries, now);
    let left = live(entries, now);
    if then.nanos + lifetime.nanos <= now.nanos {
        entries.lemma_filter_contains(has_lapsed(now), n);
        let k = choose|k: int| 0 <= k < gone.len() && gone[k] == lease;
        assert(data_of(gone)[k] == info);
        if has_lease(left, info.prefix) {
            let j = lease_position(left, info.prefix);
            assert(0 <= j < left.len() && left[j].data.prefix == info.prefix);
            entries.lemma_filter_pred(is_live(now), j);
            entries.lemma_filter_contains_rev(is_live(now), left[j]);
            let i = choose|i: int| 0 <= i < entries.len() && entries[i] == left[j];
            assert(entries[i].data.prefix == entries[n].data.prefix);
            assert(i == n);
        }
    } else {
        entries.lemma_filter_contains(is_live(now), n);
        if data_of(gone).contains(info) {
            let k = choose|k: int| 0 <= k < data_of(gone).len() && data_of(gone)[k] == info;
            entries.lemma_filter_pred(has_lapsed(now), k);
            entries.lemma_filter_contains_rev(has_lapsed(now), gone[k]);
            let i = choose|i: int| 0 <= i < entries.len() && entries[i] == gone[k];
            assert(entries[i].data.prefix == entries[n].data.prefix);
            assert(i == n);
        }
    }
    if preferred.nanos != 0 {
        let timers = told.router(key).soft_prefixes;
        let timer = preferred_until(info, lifetime, preferred, then);
        let lost = lapsed(timers, now);
        law_exchange_lease(entries_at(state.soft_prefixes, key), info.prefix, timer);
        if let Some(e) = timer {
            assert(timers.contains(e));
            let m = choose|m: int| 0 <= m < timers.len() && timers[m] == e;
            if then.nanos + preferred.nanos <= now.nanos {
                timers.lemma_filter_contains(has_lapsed(now), m);
                let k = choose|k: int| 0 <= k < lost.len() && lost[k] == e;
                assert(data_of(lost)[k] == info);
            }
        }
        if data_of(lost).contains(info) {
            let k = choose|k: int| 0 <= k < data_of(lost).len() && data_of(lost)[k] == info;
            timers.lemma_filter_pred(has_lapsed(now), k);
            timers.lemma_filter_contains_rev(has_lapsed(now), lost[k]);
            assert(timers.contains(lost[k]));
        }
    }
}

/// DNS data that was announced at time `then` by a router that is still there
/// is valid group by group as long as the lifetime of the group says.
pub proof fn law_dns_lifetimes(
    state: LifecycleView,
    event: detector::EventView,
    then: Instant,
    now: Instant,
)
    requires
        state.wf(),
        !router_gone(state, subject(event), now),
    ensures
        ({
            let left = expired(observed(state, event, then), now).router(subject(event));
            match event {
                detector::EventView::DnsServers(key, groups) => left.servers == live(
                    group_entries(groups, then),
                    now,
                ),
                detector::EventView::DnsDomains(key, groups) => left.domains == live(
                    group_entries(groups, then),
                    now,
                ),
                _ => true,
            }
        }),
{
    law_observed_wf(state, event, then);
    law_observation(state, event, then);
    law_expiry(observed(state, event, then), now, subject(event));
}

/// The report that a prefix expired.
pub open spec fn prefix_lost(key: Key, prefix_info: PrefixInfo) -> EventView {
    EventView::PrefixExpiry { key, prefix_info }
}

/// The report that a prefix reached its preferred lifetime.
pub open spec fn prefix_deprecated(key: Key, prefix_info: PrefixInfo) -> EventView {
    EventView::PrefixSoftExpiry { key, prefix_info }
}

/// The report of the DNS servers that a router has left.
pub open spec fn servers_left(key: Key, servers: Seq<Group<Ipv6Addr>>) -> EventView {
    EventView::DnsServers { key, servers }
}

/// The report of the search domains that a router has left.
pub open spec fn domains_left(key: Key, domains: Seq<Group<Seq<char>>>) -> EventView {
    EventView::DnsDomains { key, domains }
}

proof fn lemma_contains_add<A>(a: Seq<A>, b: Seq<A>, x: A)
    ensures
        (a + b).contains(x) <==> a.contains(x) || b.contains(x),
{
    if a.contains(x) {
        let i = choose|i: int| 0 <= i < a.len() && a[i] == x;
        assert((a + b)[i] == x);
    }
    if b.contains(x) {
        let i = choose|i: int| 0 <= i < b.len() && b[i] == x;
        assert((a + b)[a.len() + i] == x);
    }
    if (a + b).contains(x) {
        let i = choose|i: int| 0 <= i < (a + b).len() && (a + b)[i] == x;
        if i < a.len() {
            assert(a[i] == x);
        } else {
            assert(b[i - a.len()] == x);
        }
    }
}

/// An item is among the images exactly if its one origin is there.
proof fn lemma_mapped<A, B>(s: Seq<A>, f: spec_fn(A) -> B, x: A, y: B)
    requires
        f(x) == y,
        forall|z: A| #[trigger] f(z) == y ==> z == x,
    ensures
        s.map_values(f).contains(y) <==> s.contains(x),
{
    if s.contains(x) {
        let i = choose|i: int| 0 <= i < s.len() && s[i] == x;
        assert(s.map_values(f)[i] == y);
    }
    if s.map_values(f).contains(y) {
        let i = choose|i: int| 0 <= i < s.len() && s.map_values(f)[i] == y;
        assert(f(s[i]) == y);
    }
}

/// What has no origin is not among the images.
proof fn lemma_not_mapped<A, B>(s: Seq<A>, f: spec_fn(A) -> B, y: B)
    requires
        forall|z: A| #[trigger] f(z) != y,
    ensures
        !s.map_values(f).contains(y),
{
}

/// After expiry everything that is left expires later.
pub proof fn law_expiry_is_complete(state: LifecycleView, now: Instant, t: Instant)
    requires
        expired(state, now).deadline(t),
    ensures
        t.nanos > now.nanos,
{
    let out = expired(state, now);
    let gone = lapsed_routers(state.routers, now);
    let p = |e: (Key, Instant)| e.1.nanos > now.nanos;
    if router_expires(out.routers, t) {
        let i = choose|i: int| 0 <= i < out.routers.len() && (#[trigger] out.routers[i]).1 == t;
        state.routers.lemma_filter_pred(p, i);
    } else if expires_in(out.servers, t) {
        lemma_live_deadline(without_all(state.servers, gone), now, t);
    } else if expires_in(out.domains, t) {
        lemma_live_deadline(without_all(state.domains, gone), now, t);
    } else if expires_in(out.prefixes, t) {
        lemma_nonempty_deadline(live_store(without_all(state.prefixes, gone), now), t);
        lemma_live_deadline(without_all(state.prefixes, gone), now, t);
    } else {
        lemma_nonempty_deadline(live_store(without_all(state.soft_prefixes, gone), now), t);
        lemma_live_deadline(without_all(state.soft_prefixes, gone), now, t);
    }
}

proof fn lemma_live_deadline<T>(store: Store<T>, now: Instant, t: Instant)
    requires
        expires_in(live_store(store, now), t),
    ensures
        t.nanos > now.nanos,
{
    let out = live_store(store, now);
    let (i, j) = choose|i: int, j: int|
        0 <= i < out.len() && 0 <= j < out[i].1.len() && (#[trigger] out[i].1[j]).expires_at == t;
    store[i].1.lemma_filter_pred(is_live(now), j);
}

proof fn lemma_nonempty_deadline<T>(store: Store<T>, t: Instant)
    requires
        expires_in(nonempty(store), t),
    ensures
        expires_in(store, t),
{
    let out = nonempty(store);
    let (i, j) = choose|i: int, j: int|
        0 <= i < out.len() && 0 <= j < out[i].1.len() && (#[trigger] out[i].1[j]).expires_at == t;
    store.lemma_filter_contains_rev(
        |e: (Key, Seq<LifecycleEntry<T>>)| e.1.len() > 0,
        out[i],
    );
    let k = choose|k: int| 0 <= k < store.len() && store[k] == out[i];
    assert(store[k].1[j].expires_at == t);
}

/// As long as no deadline is reached, expiry changes and reports nothing.
pub proof fn law_nothing_expires_early(state: LifecycleView, now: Instant)
    requires
        state.wf(),
        forall|t: Instant| #[trigger] state.deadline(t) ==> t.nanos > now.nanos,
    ensures
        expired(state, now) == state,
        expiries(state, now).len() == 0,
        soft_expiries(state, now).len() == 0,
{
    let gone = lapsed_routers(state.routers, now);
    let due = |e: (Key, Instant)| e.1.nanos <= now.nanos;
    let p = |e: (Key, Instant)| e.1.nanos > now.nanos;
    assert forall|i: int| 0 <= i < state.routers.len() implies p(#[trigger] state.routers[i]) by {
        assert(router_expires(state.routers, state.routers[i].1));
        assert(state.deadline(state.routers[i].1));
    }
    lemma_filter_all(state.routers, p);
    assert(forall|i: int| 0 <= i < state.routers.len() ==> !due(#[trigger] state.routers[i])) by {
        assert(forall|i: int| 0 <= i < state.routers.len() ==> p(#[trigger] state.routers[i]));
    }
    state.routers.lemma_all_neg_filter_empty(due);
    assert(gone =~= Seq::empty());
    assert forall|t: Instant| expires_in(state.servers, t) || expires_in(state.domains, t)
        || expires_in(state.prefixes, t) || expires_in(state.soft_prefixes, t) implies t.nanos
        > now.nanos by {
        assert(state.deadline(t));
    }
    lemma_store_untouched(state.servers, now);
    lemma_store_untouched(state.domains, now);
    lemma_store_untouched(state.prefixes, now);
    lemma_store_untouched(state.soft_prefixes, now);
    lemma_all_kept(state.prefixes);
    lemma_all_kept(state.soft_prefixes);
}

proof fn lemma_store_untouched<T>(store: Store<T>, now: Instant)
    requires
        forall|t: Instant| #[trigger] expires_in(store, t) ==> t.nanos > now.nanos,
    ensures
        without_all(store, Seq::empty()) == store,
        live_store(store, now) == store,
        remainders(store, now).len() == 0,
        losses(store, now).len() == 0,
    decreases store.len(),
{
    reveal(Seq::filter);
    lemma_filter_all(
        store,
        |e: (Key, Seq<LifecycleEntry<T>>)| !Seq::<Key>::empty().contains(e.0),
    );
    assert forall|i: int| 0 <= i < store.len() implies #[trigger] live(store[i].1, now)
        == store[i].1 && lapsed(store[i].1, now).len() == 0 by {
        let entries = store[i].1;
        assert forall|j: int| 0 <= j < entries.len() implies is_live::<T>(now)(
            #[trigger] entries[j],
        ) by {
            assert(store[i].1[j].expires_at == entries[j].expires_at);
            assert(expires_in(store, entries[j].expires_at));
        }
        lemma_filter_all(entries, is_live(now));
        assert(forall|j: int|
            0 <= j < entries.len() ==> !has_lapsed::<T>(now)(#[trigger] entries[j])) by {
            assert(forall|j: int|
                0 <= j < entries.len() ==> is_live::<T>(now)(#[trigger] entries[j]));
        }
        entries.lemma_all_neg_filter_empty(has_lapsed(now));
    }
    assert(live_store(store, now) =~= store);
    if store.len() > 0 {
        let rest = store.drop_last();
        assert forall|t: Instant| #[trigger] expires_in(rest, t) implies t.nanos > now.nanos by {
            let (i, j) = choose|i: int, j: int|
                0 <= i < rest.len() && 0 <= j < rest[i].1.len() && (
                #[trigger] rest[i].1[j]).expires_at == t;
            assert(store[i].1[j].expires_at == t);
            assert(expires_in(store, t));
        }
        lemma_store_untouched(rest, now);
        assert(live(store[store.len() - 1].1, now) == store[store.len() - 1].1);
    }
}

proof fn lemma_all_kept<T>(store: Store<T>)
    requires
        unique_keys(store),
        all_nonempty(store),
    ensures
        nonempty(store) == store,
{
    let p = |e: (Key, Seq<LifecycleEntry<T>>)| e.1.len() > 0;
    assert forall|i: int| 0 <= i < store.len() implies p(#[trigger] store[i]) by {
        lemma_position(store, i);
        assert(has_key(store, store[i].0));
    }
    lemma_filter_all(store, p);
}

/// Expiring twice at the same time is expiring once.
pub proof fn law_expiry_idempotent(state: LifecycleView, now: Instant)
    requires
        state.wf(),
    ensures
        expired(expired(state, now), now) == expired(state, now),
        expiries(expired(state, now), now).len() == 0,
        soft_expiries(expired(state, now), now).len() == 0,
{
    lemma_expired(state, now);
    assert forall|t: Instant| #[trigger] expired(state, now).deadline(t) implies t.nanos
        > now.nanos by {
        law_expiry_is_complete(state, now, t);
    }
    law_nothing_expires_early(expired(state, now), now);
}

} // verus!
