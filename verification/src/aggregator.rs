//! Aggregation of valid information per interface.
//!
//! The aggregator keeps what every router contributes, derives from it one
//! state per interface, and reports the sections of that state that changed.
//! A report carries the complete section, never a difference.
use vstd::prelude::*;

use crate::address::Ipv6Addr;
use crate::detector::{DnsDomains, DnsServers, Key};
use crate::lifecycle;
use crate::list::{duplicate_all, lemma_filter_all, retain, same_list};
use crate::merge::{
    by_lifetime, extend_dedup, extend_unique, first_seen, flatten_sorted_dedup_by_lifetime,
    groups_of, law_extend_unique, law_extend_unique_add,
};
use crate::table::{
    has_key, keys_of, law_put, law_without, lemma_deep_lookup, lemma_deep_put, lemma_deep_table,
    lemma_deep_without, lemma_position, lemma_put_known, lemma_without_put, lookup, position, put,
    unique_keys, without, Table,
};
use crate::{Event, EventView, InterfaceIndex, PrefixInfo};

verus! {

/// Flags of a router, or of all routers of an interface combined.
#[derive(Debug, Clone, Copy, PartialEq, Eq, Structural)]
pub struct Router {
    /// Whether the Managed (M) flag is set.
    pub managed: bool,
    /// Whether the Other Configuration (O) flag is set.
    pub other_config: bool,
}

impl DeepView for Router {
    type V = Router;

    open spec fn deep_view(&self) -> Router {
        *self
    }
}

/// The aggregated state of one interface.
#[derive(Debug, PartialEq)]
pub struct Aggregate {
    /// Combined flags, or `None` if no router is active.
    pub router: Option<Router>,
    /// DNS servers without duplicates, first seen first.
    pub dns_servers: Vec<Ipv6Addr>,
    /// Search domains without duplicates, first seen first.
    pub domains: Vec<String>,
    /// Prefixes without duplicates, first seen first.
    pub prefixes: Vec<PrefixInfo>,
}

/// What an aggregate says.
pub struct AggregateView {
    pub router: Option<Router>,
    pub dns_servers: Seq<Ipv6Addr>,
    pub domains: Seq<Seq<char>>,
    pub prefixes: Seq<PrefixInfo>,
}

impl DeepView for Aggregate {
    type V = AggregateView;

    open spec fn deep_view(&self) -> AggregateView {
        AggregateView {
            router: self.router,
            dns_servers: self.dns_servers.deep_view(),
            domains: self.domains.deep_view(),
            prefixes: self.prefixes.deep_view(),
        }
    }
}

/// The aggregate to which no router contributes.
pub open spec fn empty_aggregate() -> AggregateView {
    AggregateView {
        router: None,
        dns_servers: Seq::empty(),
        domains: Seq::empty(),
        prefixes: Seq::empty(),
    }
}

impl Default for Aggregate {
    /// The aggregate to which no router contributes.
    fn default() -> (res: Self)
        ensures
            res.deep_view() == empty_aggregate(),
    {
        let res = Aggregate {
            router: None,
            dns_servers: Vec::new(),
            domains: Vec::new(),
            prefixes: Vec::new(),
        };
        assert(res.dns_servers.deep_view() =~= Seq::empty());
        assert(res.domains.deep_view() =~= Seq::empty());
        assert(res.prefixes.deep_view() =~= Seq::empty());
        res
    }
}

/// Flags combined with those of one more router: a flag is set if one of them
/// sets it.
pub open spec fn combine(flags: Option<Router>, router: Router) -> Router {
    match flags {
        Some(r) => Router {
            managed: r.managed || router.managed,
            other_config: r.other_config || router.other_config,
        },
        None => router,
    }
}

impl Aggregate {
    /// Adds the flags of a router.
    pub fn apply_router(&mut self, router: &Router)
        ensures
            final(self).deep_view() == (AggregateView {
                router: Some(combine(old(self).router, *router)),
                ..old(self).deep_view()
            }),
    {
        let flags = match self.router {
            Some(r) => r,
            None => Router { managed: false, other_config: false },
        };
        self.router = Some(
            Router {
                managed: flags.managed || router.managed,
                other_config: flags.other_config || router.other_config,
            },
        );
    }

    /// Adds DNS servers that are not in the list yet.
    pub fn apply_dns_servers(&mut self, dns_servers: &[Ipv6Addr])
        ensures
            final(self).deep_view() == (AggregateView {
                dns_servers: extend_unique(
                    old(self).dns_servers.deep_view(),
                    dns_servers.deep_view(),
                ),
                ..old(self).deep_view()
            }),
    {
        extend_dedup(&mut self.dns_servers, duplicate_all(dns_servers));
    }

    /// Adds search domains that are not in the list yet.
    pub fn apply_domains(&mut self, domains: &[String])
        ensures
            final(self).deep_view() == (AggregateView {
                domains: extend_unique(old(self).domains.deep_view(), domains.deep_view()),
                ..old(self).deep_view()
            }),
    {
        extend_dedup(&mut self.domains, duplicate_all(domains));
    }

    /// Adds prefixes that are not in the list yet.
    pub fn apply_prefixes(&mut self, prefixes: &[PrefixInfo])
        ensures
            final(self).deep_view() == (AggregateView {
                prefixes: extend_unique(old(self).prefixes.deep_view(), prefixes.deep_view()),
                ..old(self).deep_view()
            }),
    {
        extend_dedup(&mut self.prefixes, duplicate_all(prefixes));
    }
}

/// What all active routers contribute.
#[derive(Debug)]
pub struct Aggregator {
    /// Flags by router.
    pub routers: Table<Key, Router>,
    /// DNS servers by router, longest-lived first.
    pub dns_servers: Table<Key, Vec<Ipv6Addr>>,
    /// Search domains by router, longest-lived first.
    pub domains: Table<Key, Vec<String>>,
    /// Prefixes by router.
    pub prefixes: Table<Key, Vec<PrefixInfo>>,
}

/// The state of an [`Aggregator`].
pub struct AggregatorView {
    pub routers: Seq<(Key, Router)>,
    pub servers: Seq<(Key, Seq<Ipv6Addr>)>,
    pub domains: Seq<(Key, Seq<Seq<char>>)>,
    pub prefixes: Seq<(Key, Seq<PrefixInfo>)>,
}

impl DeepView for Aggregator {
    type V = AggregatorView;

    open spec fn deep_view(&self) -> AggregatorView {
        AggregatorView {
            routers: self.routers@,
            servers: self.dns_servers.deep_view(),
            domains: self.domains.deep_view(),
            prefixes: self.prefixes.deep_view(),
        }
    }
}

/// The state to which no router contributes.
pub open spec fn no_contributions() -> AggregatorView {
    AggregatorView {
        routers: Seq::empty(),
        servers: Seq::empty(),
        domains: Seq::empty(),
        prefixes: Seq::empty(),
    }
}

impl Default for Aggregator {
    /// The aggregator to which no router contributes.
    fn default() -> (res: Self)
        ensures
            res.deep_view() == no_contributions(),
            res.deep_view().wf(),
    {
        let res = Aggregator {
            routers: Table::default(),
            dns_servers: Table::default(),
            domains: Table::default(),
            prefixes: Table::default(),
        };
        assert(res.deep_view().servers =~= no_contributions().servers);
        assert(res.deep_view().domains =~= no_contributions().domains);
        assert(res.deep_view().prefixes =~= no_contributions().prefixes);
        res
    }
}

/// Whether no two prefixes have the same address.
pub open spec fn distinct_prefixes(list: Seq<PrefixInfo>) -> bool {
    forall|i: int, j: int|
        0 <= i < j < list.len() ==> (#[trigger] list[i]).prefix != (#[trigger] list[j]).prefix
}

/// What a router contributes to a table of lists.
pub open spec fn items_at<T>(t: Seq<(Key, Seq<T>)>, key: Key) -> Seq<T> {
    match lookup(t, key) {
        Some(items) => items,
        None => Seq::empty(),
    }
}

impl AggregatorView {
    /// What holds in every state: a router occurs once in each table, its
    /// prefixes have different addresses, and a router without prefixes is not
    /// in their table.
    pub open spec fn wf(self) -> bool {
        &&& unique_keys(self.routers)
        &&& unique_keys(self.servers)
        &&& unique_keys(self.domains)
        &&& unique_keys(self.prefixes)
        &&& forall|key: Key| distinct_prefixes(#[trigger] items_at(self.prefixes, key))
        &&& forall|key: Key| #[trigger]
            has_key(self.prefixes, key) ==> items_at(self.prefixes, key).len() > 0
    }
}

// Applying changes

/// Whether a prefix with this address is in the list.
pub open spec fn has_prefix(list: Seq<PrefixInfo>, prefix: Ipv6Addr) -> bool {
    exists|i: int| 0 <= i < list.len() && (#[trigger] list[i]).prefix == prefix
}

/// Where the prefix with this address is.
pub open spec fn prefix_position(list: Seq<PrefixInfo>, prefix: Ipv6Addr) -> int {
    choose|i: int| 0 <= i < list.len() && (#[trigger] list[i]).prefix == prefix
}

/// The list with this prefix in the place of the one with its address, or at
/// the end.
pub open spec fn replace_prefix(list: Seq<PrefixInfo>, info: PrefixInfo) -> Seq<PrefixInfo> {
    if has_prefix(list, info.prefix) {
        list.update(prefix_position(list, info.prefix), info)
    } else {
        list.push(info)
    }
}

/// The prefixes that have another address.
pub open spec fn with_other_address(prefix: Ipv6Addr) -> spec_fn(PrefixInfo) -> bool {
    |p: PrefixInfo| p.prefix != prefix
}

/// The list without the prefix with this address.
pub open spec fn drop_prefix(list: Seq<PrefixInfo>, prefix: Ipv6Addr) -> Seq<PrefixInfo> {
    list.filter(with_other_address(prefix))
}

/// The contributions after a change. An expiry of a prefix of which nothing
/// is known is stale and ignored.
pub open spec fn applied(state: AggregatorView, event: lifecycle::EventView) -> AggregatorView {
    match event {
        lifecycle::EventView::Router { key, managed, other_config } => AggregatorView {
            routers: put(state.routers, key, Router { managed, other_config }),
            ..state
        },
        lifecycle::EventView::DnsServers { key, servers } => AggregatorView {
            servers: put(state.servers, key, by_lifetime(servers)),
            ..state
        },
        lifecycle::EventView::DnsDomains { key, domains } => AggregatorView {
            domains: put(state.domains, key, by_lifetime(domains)),
            ..state
        },
        lifecycle::EventView::Prefix { key, prefix_info } => AggregatorView {
            prefixes: put(
                state.prefixes,
                key,
                replace_prefix(items_at(state.prefixes, key), prefix_info),
            ),
            ..state
        },
        lifecycle::EventView::RouterExpiry { key } => AggregatorView {
            routers: without(state.routers, key),
            servers: without(state.servers, key),
            domains: without(state.domains, key),
            prefixes: without(state.prefixes, key),
        },
        lifecycle::EventView::PrefixExpiry { key, prefix_info } => {
            let left = drop_prefix(items_at(state.prefixes, key), prefix_info.prefix);
            AggregatorView {
                prefixes: if left.len() == 0 {
                    without(state.prefixes, key)
                } else {
                    put(state.prefixes, key, left)
                },
                ..state
            }
        },
        lifecycle::EventView::PrefixSoftExpiry { key, prefix_info } => state,
    }
}

/// The contributions after changes, one after the other.
pub open spec fn applied_all(
    state: AggregatorView,
    events: Seq<lifecycle::EventView>,
) -> AggregatorView
    decreases events.len(),
{
    if events.len() == 0 {
        state
    } else {
        applied(applied_all(state, events.drop_last()), events.last())
    }
}

/// Putting a list changes what one router contributes.
proof fn lemma_put_items<T>(t: Seq<(Key, Seq<T>)>, key: Key, items: Seq<T>)
    requires
        unique_keys(t),
    ensures
        unique_keys(put(t, key, items)),
        items_at(put(t, key, items), key) == items,
        forall|k: Key| k != key ==> #[trigger] items_at(put(t, key, items), k) == items_at(t, k),
{
    law_put(t, key, items);
    assert forall|k: Key| k != key implies #[trigger] items_at(put(t, key, items), k) == items_at(
        t,
        k,
    ) by {
        assert(lookup(put(t, key, items), k) == lookup(t, k));
    }
}

/// Removing a router leaves nothing of it and the others as they were.
proof fn lemma_without_items<T>(t: Seq<(Key, Seq<T>)>, key: Key)
    requires
        unique_keys(t),
    ensures
        unique_keys(without(t, key)),
        items_at(without(t, key), key) == Seq::<T>::empty(),
        forall|k: Key| k != key ==> #[trigger] items_at(without(t, key), k) == items_at(t, k),
{
    law_without(t, key);
    assert forall|k: Key| k != key implies #[trigger] items_at(without(t, key), k) == items_at(
        t,
        k,
    ) by {
        assert(lookup(without(t, key), k) == lookup(t, k));
    }
}

/// Replacing a prefix keeps addresses different.
proof fn lemma_replace_distinct(list: Seq<PrefixInfo>, info: PrefixInfo)
    requires
        distinct_prefixes(list),
    ensures
        distinct_prefixes(replace_prefix(list, info)),
{
    if has_prefix(list, info.prefix) {
        let p = prefix_position(list, info.prefix);
        assert(0 <= p < list.len() && list[p].prefix == info.prefix);
    }
}

/// Keeping some prefixes keeps addresses different.
pub proof fn lemma_filter_distinct_prefixes(list: Seq<PrefixInfo>, p: spec_fn(PrefixInfo) -> bool)
    requires
        distinct_prefixes(list),
    ensures
        distinct_prefixes(list.filter(p)),
    decreases list.len(),
{
    reveal(Seq::filter);
    if list.len() > 0 {
        let rest = list.drop_last();
        lemma_filter_distinct_prefixes(rest, p);
        assert forall|i: int| 0 <= i < rest.filter(p).len() implies (
        #[trigger] rest.filter(p)[i]).prefix != list.last().prefix by {
            rest.lemma_filter_contains_rev(p, rest.filter(p)[i]);
            let k = choose|k: int| 0 <= k < rest.len() && rest[k] == rest.filter(p)[i];
            assert(list[k].prefix != list[list.len() - 1].prefix);
        }
    }
}

/// Applying a change keeps the state well-formed.
pub proof fn law_applied_wf(state: AggregatorView, event: lifecycle::EventView)
    requires
        state.wf(),
    ensures
        applied(state, event).wf(),
{
    match event {
        lifecycle::EventView::Router { key, managed, other_config } => {
            law_put(state.routers, key, Router { managed, other_config });
        },
        lifecycle::EventView::DnsServers { key, servers } => {
            lemma_put_items(state.servers, key, by_lifetime(servers));
        },
        lifecycle::EventView::DnsDomains { key, domains } => {
            lemma_put_items(state.domains, key, by_lifetime(domains));
        },
        lifecycle::EventView::Prefix { key, prefix_info } => {
            let list = items_at(state.prefixes, key);
            lemma_replace_distinct(list, prefix_info);
            lemma_put_items(state.prefixes, key, replace_prefix(list, prefix_info));
        },
        lifecycle::EventView::RouterExpiry { key } => {
            law_without(state.routers, key);
            lemma_without_items(state.servers, key);
            lemma_without_items(state.domains, key);
            lemma_without_items(state.prefixes, key);
        },
        lifecycle::EventView::PrefixExpiry { key, prefix_info } => {
            let list = items_at(state.prefixes, key);
            let left = drop_prefix(list, prefix_info.prefix);
            lemma_filter_distinct_prefixes(list, with_other_address(prefix_info.prefix));
            lemma_put_items(state.prefixes, key, left);
            lemma_without_items(state.prefixes, key);
        },
        lifecycle::EventView::PrefixSoftExpiry { key, prefix_info } => {},
    }
}

/// Copies the DNS servers of a group.
fn servers_of(group: &DnsServers) -> (servers: Vec<Ipv6Addr>)
    ensures
        servers.deep_view() == group.deep_view().items,
{
    duplicate_all(group.servers.as_slice())
}

/// Copies the search domains of a group.
fn domains_of(group: &DnsDomains) -> (domains: Vec<String>)
    ensures
        domains.deep_view() == group.deep_view().items,
{
    duplicate_all(group.domains.as_slice())
}

/// Puts a prefix in the place of the one with its address, or at the end.
fn replace(list: &mut Vec<PrefixInfo>, info: PrefixInfo)
    requires
        distinct_prefixes(old(list).deep_view()),
    ensures
        final(list).deep_view() == replace_prefix(old(list).deep_view(), info),
{
    let ghost before = list.deep_view();
    let mut i: usize = 0;
    while i < list.len()
        invariant
            i <= list@.len(),
            before == list.deep_view(),
            before == old(list).deep_view(),
            distinct_prefixes(before),
            forall|j: int| 0 <= j < i ==> (#[trigger] before[j]).prefix != info.prefix,
        decreases list@.len() - i,
    {
        if list[i].prefix == info.prefix {
            assert(before[i as int].prefix == info.prefix);
            list[i] = info;
            proof {
                let p = prefix_position(before, info.prefix);
                assert(0 <= p < before.len() && before[p].prefix == info.prefix);
                assert(list.deep_view() =~= before.update(p, info));
            }
            return;
        }
        i = i + 1;
    }
    list.push(info);
    assert(list.deep_view() =~= before.push(info));
}

impl Aggregator {
    /// Applies one change.
    fn apply(&mut self, event: lifecycle::Event)
        requires
            old(self).deep_view().wf(),
        ensures
            final(self).deep_view() == applied(old(self).deep_view(), event.deep_view()),
            final(self).deep_view().wf(),
    {
        let ghost state = self.deep_view();
        proof {
            law_applied_wf(state, event.deep_view());
            lemma_deep_table(self.dns_servers@);
            lemma_deep_table(self.domains@);
            lemma_deep_table(self.prefixes@);
        }
        match event {
            lifecycle::Event::Router { key, managed, other_config } => {
                self.routers.insert(key, Router { managed, other_config });
            },
            lifecycle::Event::DnsServers { key, servers } => {
                let ranked = flatten_sorted_dedup_by_lifetime(servers.as_slice(), servers_of);
                proof {
                    let groups = choose|groups: Seq<(crate::time::Duration, Vec<Ipv6Addr>)>|
                        {
                            &&& groups.len() == servers@.len()
                            &&& forall|i: int|
                                #![trigger groups[i]]
                                0 <= i < servers@.len() ==> groups[i].0 == servers@[i].lifetime
                                    && call_ensures(servers_of, (&servers@[i],), groups[i].1)
                            &&& ranked.deep_view() == #[trigger] by_lifetime(groups_of(groups))
                        };
                    assert(groups_of(groups) =~= servers.deep_view());
                    lemma_deep_put(self.dns_servers@, key, ranked);
                }
                self.dns_servers.insert(key, ranked);
            },
            lifecycle::Event::DnsDomains { key, domains } => {
                let ranked = flatten_sorted_dedup_by_lifetime(domains.as_slice(), domains_of);
                proof {
                    let groups = choose|groups: Seq<(crate::time::Duration, Vec<String>)>|
                        {
                            &&& groups.len() == domains@.len()
                            &&& forall|i: int|
                                #![trigger groups[i]]
                                0 <= i < domains@.len() ==> groups[i].0 == domains@[i].lifetime
                                    && call_ensures(domains_of, (&domains@[i],), groups[i].1)
                            &&& ranked.deep_view() == #[trigger] by_lifetime(groups_of(groups))
                        };
                    assert(groups_of(groups) =~= domains.deep_view());
                    lemma_deep_put(self.domains@, key, ranked);
                }
                self.domains.insert(key, ranked);
            },
            lifecycle::Event::Prefix { key, prefix_info } => {
                let ghost before = self.prefixes@;
                proof {
                    lemma_deep_lookup(before, key);
                    assert(distinct_prefixes(items_at(state.prefixes, key)));
                }
                match self.prefixes.get_mut(&key) {
                    Some(list) => {
                        replace(list, prefix_info);
                        proof {
                            lemma_deep_put(before, key, *list);
                        }
                    },
                    None => {
                        let mut list: Vec<PrefixInfo> = Vec::new();
                        list.push(prefix_info);
                        proof {
                            assert(list.deep_view() =~= replace_prefix(Seq::empty(), prefix_info));
                            lemma_deep_put(before, key, list);
                        }
                        self.prefixes.insert(key, list);
                    },
                }
            },
            lifecycle::Event::RouterExpiry { key } => {
                proof {
                    lemma_deep_without(self.dns_servers@, key);
                    lemma_deep_without(self.domains@, key);
                    lemma_deep_without(self.prefixes@, key);
                }
                self.routers.remove(&key);
                self.dns_servers.remove(&key);
                self.domains.remove(&key);
                self.prefixes.remove(&key);
            },
            lifecycle::Event::PrefixExpiry { key, prefix_info } => {
                self.expire_prefix(key, prefix_info.prefix);
            },
            lifecycle::Event::PrefixSoftExpiry { key: _, prefix_info: _ } => {},
        }
    }

    /// Removes a prefix of a router, and the router's list with the last one.
    fn expire_prefix(&mut self, key: Key, prefix: Ipv6Addr)
        requires
            old(self).prefixes.wf(),
        ensures
            final(self).prefixes.deep_view() == ({
                let left = drop_prefix(items_at(old(self).prefixes.deep_view(), key), prefix);
                if left.len() == 0 {
                    without(old(self).prefixes.deep_view(), key)
                } else {
                    put(old(self).prefixes.deep_view(), key, left)
                }
            }),
            final(self).routers == old(self).routers,
            final(self).dns_servers == old(self).dns_servers,
            final(self).domains == old(self).domains,
    {
        let ghost before = self.prefixes@;
        proof {
            lemma_deep_table(before);
            lemma_deep_lookup(before, key);
            reveal(Seq::filter);
        }
        let emptied = match self.prefixes.get_mut(&key) {
            Some(list) => {
                assert(list.deep_view() =~= list@);
                retain(
                    list,
                    |p: &PrefixInfo| -> (b: bool)
                        ensures
                            b == (p.prefix != prefix)
                    { p.prefix != prefix },
                    Ghost(with_other_address(prefix)),
                );
                proof {
                    assert(list.deep_view() =~= list@);
                    lemma_deep_put(before, key, *list);
                    law_put(before, key, *list);
                }
                list.len() == 0
            },
            // The expiry is stale.
            None => false,
        };
        if emptied {
            proof {
                let after = self.prefixes@;
                lemma_deep_without(after, key);
                lemma_without_put(before, key, lookup(after, key)->0);
                lemma_deep_without(before, key);
            }
            self.prefixes.remove(&key);
        }
    }

    /// Applies changes, one after the other. Nothing is aggregated yet.
    pub fn update(&mut self, lifecycle_events: Vec<lifecycle::Event>)
        requires
            old(self).deep_view().wf(),
        ensures
            final(self).deep_view() == applied_all(
                old(self).deep_view(),
                lifecycle_events.deep_view(),
            ),
            final(self).deep_view().wf(),
    {
        let ghost events = lifecycle_events.deep_view();
        for event in it: lifecycle_events.into_iter()
            invariant
                it.seq() == lifecycle_events@,
                events == lifecycle_events.deep_view(),
                self.deep_view().wf(),
                self.deep_view() == applied_all(
                    old(self).deep_view(),
                    events.take(it.index() as int),
                ),
        {
            proof {
                let i = it.index() as int;
                assert(events[i] == event.deep_view());
                assert(events.take(i + 1).drop_last() =~= events.take(i));
            }
            self.apply(event);
        }
        assert(events.take(events.len() as int) =~= events);
    }

    /// What a router contributes to the prefixes.
    pub fn get_prefixes(&self, key: &Key) -> (res: Option<Vec<PrefixInfo>>)
        requires
            self.deep_view().wf(),
        ensures
            res.deep_view() == lookup(self.deep_view().prefixes, *key),
    {
        proof {
            lemma_deep_table(self.prefixes@);
            lemma_deep_lookup(self.prefixes@, *key);
        }
        match self.prefixes.get(key) {
            Some(list) => Some(duplicate_all(list.as_slice())),
            None => None,
        }
    }
}

// Aggregating

/// The combined flags of the routers of an interface.
pub open spec fn router_section(
    routers: Seq<(Key, Router)>,
    ifindex: InterfaceIndex,
) -> Option<Router> {
    if exists|i: int| 0 <= i < routers.len() && (#[trigger] routers[i]).0.ifindex == ifindex {
        Some(
            Router {
                managed: exists|i: int|
                    0 <= i < routers.len() && (#[trigger] routers[i]).0.ifindex == ifindex
                        && routers[i].1.managed,
                other_config: exists|i: int|
                    0 <= i < routers.len() && (#[trigger] routers[i]).0.ifindex == ifindex
                        && routers[i].1.other_config,
            },
        )
    } else {
        None
    }
}

/// Everything that the routers of an interface contribute to a table of
/// lists, in order.
pub open spec fn contributions<T>(t: Seq<(Key, Seq<T>)>, ifindex: InterfaceIndex) -> Seq<T>
    decreases t.len(),
{
    if t.len() == 0 {
        Seq::empty()
    } else if t.last().0.ifindex == ifindex {
        contributions(t.drop_last(), ifindex) + t.last().1
    } else {
        contributions(t.drop_last(), ifindex)
    }
}

/// The state of an interface: flags combined, lists merged without
/// duplicates.
pub open spec fn aggregate_of(state: AggregatorView, ifindex: InterfaceIndex) -> AggregateView {
    AggregateView {
        router: router_section(state.routers, ifindex),
        dns_servers: first_seen(contributions(state.servers, ifindex)),
        domains: first_seen(contributions(state.domains, ifindex)),
        prefixes: first_seen(contributions(state.prefixes, ifindex)),
    }
}

/// The interfaces of the routers in a table.
pub open spec fn interfaces_of<V>(t: Seq<(Key, V)>) -> Seq<InterfaceIndex> {
    t.map_values(|e: (Key, V)| e.0.ifindex)
}

/// The interfaces to which a router contributes.
pub open spec fn interfaces(state: AggregatorView) -> Seq<InterfaceIndex> {
    first_seen(
        interfaces_of(state.routers) + interfaces_of(state.servers) + interfaces_of(state.domains)
            + interfaces_of(state.prefixes),
    )
}

/// The states of all interfaces to which a router contributes.
pub open spec fn aggregated(state: AggregatorView) -> Seq<(InterfaceIndex, AggregateView)> {
    interfaces(state).map_values(|i: InterfaceIndex| (i, aggregate_of(state, i)))
}

/// One more router combines its flags with those of its interface.
proof fn lemma_router_section_step(
    routers: Seq<(Key, Router)>,
    i: int,
    ifindex: InterfaceIndex,
)
    requires
        0 <= i < routers.len(),
    ensures
        router_section(routers.take(i + 1), ifindex) == if routers[i].0.ifindex == ifindex {
            Some(combine(router_section(routers.take(i), ifindex), routers[i].1))
        } else {
            router_section(routers.take(i), ifindex)
        },
{
    let head = routers.take(i);
    let longer = routers.take(i + 1);
    assert(longer[i] == routers[i]);
    assert forall|k: int| 0 <= k < i implies #[trigger] longer[k] == head[k] by {}
    if exists|k: int| 0 <= k < head.len() && (#[trigger] head[k]).0.ifindex == ifindex {
        let k = choose|k: int| 0 <= k < head.len() && (#[trigger] head[k]).0.ifindex == ifindex;
        assert(longer[k].0.ifindex == ifindex);
    }
    if exists|k: int|
        0 <= k < head.len() && (#[trigger] head[k]).0.ifindex == ifindex && head[k].1.managed {
        let k = choose|k: int|
            0 <= k < head.len() && (#[trigger] head[k]).0.ifindex == ifindex && head[k].1.managed;
        assert(longer[k].0.ifindex == ifindex && longer[k].1.managed);
    }
    if exists|k: int|
        0 <= k < head.len() && (#[trigger] head[k]).0.ifindex == ifindex
            && head[k].1.other_config {
        let k = choose|k: int|
            0 <= k < head.len() && (#[trigger] head[k]).0.ifindex == ifindex
                && head[k].1.other_config;
        assert(longer[k].0.ifindex == ifindex && longer[k].1.other_config);
    }
    if exists|k: int| 0 <= k < longer.len() && (#[trigger] longer[k]).0.ifindex == ifindex {
        let k = choose|k: int|
            0 <= k < longer.len() && (#[trigger] longer[k]).0.ifindex == ifindex;
        assert(k < i ==> head[k].0.ifindex == ifindex);
    }
    if exists|k: int|
        0 <= k < longer.len() && (#[trigger] longer[k]).0.ifindex == ifindex
            && longer[k].1.managed {
        let k = choose|k: int|
            0 <= k < longer.len() && (#[trigger] longer[k]).0.ifindex == ifindex
                && longer[k].1.managed;
        assert(k < i ==> head[k].0.ifindex == ifindex && head[k].1.managed);
    }
    if exists|k: int|
        0 <= k < longer.len() && (#[trigger] longer[k]).0.ifindex == ifindex
            && longer[k].1.other_config {
        let k = choose|k: int|
            0 <= k < longer.len() && (#[trigger] longer[k]).0.ifindex == ifindex
                && longer[k].1.other_config;
        assert(k < i ==> head[k].0.ifindex == ifindex && head[k].1.other_config);
    }
}

/// One more router adds its items to those of its interface.
proof fn lemma_contributions_step<T>(t: Seq<(Key, Seq<T>)>, i: int, ifindex: InterfaceIndex)
    requires
        0 <= i < t.len(),
    ensures
        first_seen(contributions(t.take(i + 1), ifindex)) == if t[i].0.ifindex == ifindex {
            extend_unique(first_seen(contributions(t.take(i), ifindex)), t[i].1)
        } else {
            first_seen(contributions(t.take(i), ifindex))
        },
{
    assert(t.take(i + 1).drop_last() =~= t.take(i));
    assert(t.take(i + 1).last() == t[i]);
    law_extend_unique_add(Seq::empty(), contributions(t.take(i), ifindex), t[i].1);
}

/// Lists the interfaces of the routers in a table.
fn list_interfaces<V>(list: &mut Vec<InterfaceIndex>, table: &Table<Key, V>)
    ensures
        final(list)@ == old(list)@ + interfaces_of(table@),
{
    let mut i: usize = 0;
    assert(list@ =~= old(list)@ + interfaces_of(table@.take(0)));
    while i < table.entries.len()
        invariant
            i <= table@.len(),
            list@ == old(list)@ + interfaces_of(table@.take(i as int)),
        decreases table@.len() - i,
    {
        list.push(table.entries[i].0.ifindex);
        i = i + 1;
        assert(list@ =~= old(list)@ + interfaces_of(table@.take(i as int)));
    }
    assert(table@.take(table@.len() as int) =~= table@);
}

impl Aggregator {
    /// The interfaces to which a router contributes, first seen first.
    fn list_all_interfaces(&self) -> (res: Vec<InterfaceIndex>)
        ensures
            res@ == interfaces(self.deep_view()),
    {
        let mut list: Vec<InterfaceIndex> = Vec::new();
        list_interfaces(&mut list, &self.routers);
        list_interfaces(&mut list, &self.dns_servers);
        list_interfaces(&mut list, &self.domains);
        list_interfaces(&mut list, &self.prefixes);
        let mut res: Vec<InterfaceIndex> = Vec::new();
        proof {
            let state = self.deep_view();
            assert(interfaces_of(self.dns_servers@) =~= interfaces_of(state.servers));
            assert(interfaces_of(self.domains@) =~= interfaces_of(state.domains));
            assert(interfaces_of(self.prefixes@) =~= interfaces_of(state.prefixes));
            assert(list.deep_view() =~= interfaces_of(state.routers) + interfaces_of(state.servers)
                + interfaces_of(state.domains) + interfaces_of(state.prefixes));
            assert(res.deep_view() =~= Seq::empty());
        }
        extend_dedup(&mut res, list);
        assert(res.deep_view() =~= res@);
        res
    }

    /// The aggregated state of an interface.
    pub fn aggregate_interface(&self, ifindex: InterfaceIndex) -> (res: Aggregate)
        ensures
            res.deep_view() == aggregate_of(self.deep_view(), ifindex),
    {
        let ghost state = self.deep_view();
        let mut res = Aggregate::default();
        let mut i: usize = 0;
        while i < self.routers.entries.len()
            invariant
                i <= self.routers@.len(),
                res.deep_view() == (AggregateView {
                    router: router_section(self.routers@.take(i as int), ifindex),
                    ..empty_aggregate()
                }),
            decreases self.routers@.len() - i,
        {
            proof {
                lemma_router_section_step(self.routers@, i as int, ifindex);
            }
            if self.routers.entries[i].0.ifindex == ifindex {
                res.apply_router(&self.routers.entries[i].1);
            }
            i = i + 1;
        }
        assert(self.routers@.take(i as int) =~= state.routers);
        i = 0;
        while i < self.dns_servers.entries.len()
            invariant
                i <= self.dns_servers@.len(),
                state == self.deep_view(),
                res.deep_view() == (AggregateView {
                    router: router_section(state.routers, ifindex),
                    dns_servers: first_seen(contributions(state.servers.take(i as int), ifindex)),
                    ..empty_aggregate()
                }),
            decreases self.dns_servers@.len() - i,
        {
            proof {
                lemma_contributions_step(state.servers, i as int, ifindex);
            }
            if self.dns_servers.entries[i].0.ifindex == ifindex {
                res.apply_dns_servers(self.dns_servers.entries[i].1.as_slice());
            }
            i = i + 1;
        }
        assert(state.servers.take(i as int) =~= state.servers);
        i = 0;
        while i < self.domains.entries.len()
            invariant
                i <= self.domains@.len(),
                state == self.deep_view(),
                res.deep_view() == (AggregateView {
                    router: router_section(state.routers, ifindex),
                    dns_servers: first_seen(contributions(state.servers, ifindex)),
                    domains: first_seen(contributions(state.domains.take(i as int), ifindex)),
                    ..empty_aggregate()
                }),
            decreases self.domains@.len() - i,
        {
            proof {
                lemma_contributions_step(state.domains, i as int, ifindex);
            }
            if self.domains.entries[i].0.ifindex == ifindex {
                res.apply_domains(self.domains.entries[i].1.as_slice());
            }
            i = i + 1;
        }
        assert(state.domains.take(i as int) =~= state.domains);
        i = 0;
        while i < self.prefixes.entries.len()
            invariant
                i <= self.prefixes@.len(),
                state == self.deep_view(),
                res.deep_view() == (AggregateView {
                    prefixes: first_seen(contributions(state.prefixes.take(i as int), ifindex)),
                    ..aggregate_of(state, ifindex)
                }),
            decreases self.prefixes@.len() - i,
        {
            proof {
                lemma_contributions_step(state.prefixes, i as int, ifindex);
            }
            if self.prefixes.entries[i].0.ifindex == ifindex {
                res.apply_prefixes(self.prefixes.entries[i].1.as_slice());
            }
            i = i + 1;
        }
        assert(state.prefixes.take(i as int) =~= state.prefixes);
        res
    }

    /// The aggregated states of all interfaces to which a router contributes.
    pub fn aggregate(&self) -> (res: Table<InterfaceIndex, Aggregate>)
        ensures
            res.deep_view() == aggregated(self.deep_view()),
            res.wf(),
    {
        let ghost state = self.deep_view();
        let ifindices = self.list_all_interfaces();
        let mut res: Table<InterfaceIndex, Aggregate> = Table::default();
        let mut n: usize = 0;
        while n < ifindices.len()
            invariant
                n <= ifindices@.len(),
                state == self.deep_view(),
                ifindices@ == interfaces(state),
                res@.len() == n,
                forall|k: int|
                    0 <= k < n ==> (#[trigger] res@[k]).0 == ifindices@[k]
                        && res@[k].1.deep_view() == aggregate_of(state, ifindices@[k]),
            decreases ifindices@.len() - n,
        {
            let ifindex = ifindices[n];
            res.entries.push((ifindex, self.aggregate_interface(ifindex)));
            n = n + 1;
        }
        proof {
            law_extend_unique(
                Seq::<InterfaceIndex>::empty(),
                interfaces_of(state.routers) + interfaces_of(state.servers) + interfaces_of(
                    state.domains,
                ) + interfaces_of(state.prefixes),
            );
            assert(res.deep_view() =~= aggregated(state));
        }
        res
    }
}

// Reporting changes

/// The state of an interface in a table of states.
pub open spec fn state_of(
    t: Seq<(InterfaceIndex, AggregateView)>,
    ifindex: InterfaceIndex,
) -> AggregateView {
    match lookup(t, ifindex) {
        Some(aggregate) => aggregate,
        None => empty_aggregate(),
    }
}

/// The report of the flags of an interface, if they changed.
pub open spec fn router_changes(
    ifindex: InterfaceIndex,
    before: AggregateView,
    after: AggregateView,
) -> Seq<EventView> {
    if before.router == after.router {
        Seq::empty()
    } else {
        match after.router {
            Some(r) => seq![
                EventView::RouterUpdate {
                    ifindex,
                    managed: r.managed,
                    other_config: r.other_config,
                },
            ],
            None => seq![EventView::RouterDown { ifindex }],
        }
    }
}

/// The report of the DNS state of an interface, if it changed.
pub open spec fn dns_changes(
    ifindex: InterfaceIndex,
    before: AggregateView,
    after: AggregateView,
) -> Seq<EventView> {
    if before.dns_servers == after.dns_servers && before.domains == after.domains {
        Seq::empty()
    } else {
        seq![
            EventView::RaDns { ifindex, servers: after.dns_servers, domains: after.domains },
        ]
    }
}

/// The report of the prefixes of an interface, if they changed.
pub open spec fn prefix_changes(
    ifindex: InterfaceIndex,
    before: AggregateView,
    after: AggregateView,
) -> Seq<EventView> {
    if before.prefixes == after.prefixes {
        Seq::empty()
    } else {
        seq![EventView::RaPrefix { ifindex, prefixes: after.prefixes }]
    }
}

/// The reports of the sections of an interface that changed, each with the
/// complete state of its section.
pub open spec fn interface_changes(
    ifindex: InterfaceIndex,
    before: AggregateView,
    after: AggregateView,
) -> Seq<EventView> {
    router_changes(ifindex, before, after) + dns_changes(ifindex, before, after) + prefix_changes(
        ifindex,
        before,
        after,
    )
}

/// The reports of all listed interfaces, one interface after the other.
pub open spec fn changes_on(
    ifindices: Seq<InterfaceIndex>,
    before: Seq<(InterfaceIndex, AggregateView)>,
    after: Seq<(InterfaceIndex, AggregateView)>,
) -> Seq<EventView>
    decreases ifindices.len(),
{
    if ifindices.len() == 0 {
        Seq::empty()
    } else {
        let i = ifindices.last();
        changes_on(ifindices.drop_last(), before, after) + interface_changes(
            i,
            state_of(before, i),
            state_of(after, i),
        )
    }
}

/// The reports of everything that changed.
pub open spec fn changes(
    before: Seq<(InterfaceIndex, AggregateView)>,
    after: Seq<(InterfaceIndex, AggregateView)>,
) -> Seq<EventView> {
    changes_on(first_seen(keys_of(before) + keys_of(after)), before, after)
}

/// Whether flags are the same.
fn same_router(a: &Option<Router>, b: &Option<Router>) -> (same: bool)
    ensures
        same == (*a == *b),
{
    match (a, b) {
        (Some(x), Some(y)) => *x == *y,
        (None, None) => true,
        _ => false,
    }
}

/// Reports the sections of an interface that changed.
fn report_changes(
    events: &mut Vec<Event>,
    ifindex: InterfaceIndex,
    before: &Aggregate,
    after: Aggregate,
)
    ensures
        final(events).deep_view() == old(events).deep_view() + interface_changes(
            ifindex,
            before.deep_view(),
            after.deep_view(),
        ),
{
    let ghost told = events.deep_view();
    let ghost (b, a) = (before.deep_view(), after.deep_view());
    if !same_router(&before.router, &after.router) {
        match &after.router {
            Some(r) => {
                events.push(
                    Event::RouterUpdate {
                        ifindex,
                        managed: r.managed,
                        other_config: r.other_config,
                    },
                );
            },
            None => {
                events.push(Event::RouterDown { ifindex });
            },
        }
    }
    assert(events.deep_view() =~= told + router_changes(ifindex, b, a));
    let prefixes_changed = !same_list(&before.prefixes, &after.prefixes);
    if !same_list(&before.dns_servers, &after.dns_servers) || !same_list(
        &before.domains,
        &after.domains,
    ) {
        events.push(Event::RaDns { ifindex, servers: after.dns_servers, domains: after.domains });
    }
    assert(events.deep_view() =~= told + router_changes(ifindex, b, a) + dns_changes(
        ifindex,
        b,
        a,
    ));
    if prefixes_changed {
        events.push(Event::RaPrefix { ifindex, prefixes: after.prefixes });
    }
    assert(events.deep_view() =~= told + interface_changes(ifindex, b, a));
}

/// Lists the keys of a table.
fn list_keys<V>(list: &mut Vec<InterfaceIndex>, table: &Table<InterfaceIndex, V>)
    ensures
        final(list)@ == old(list)@ + keys_of(table@),
{
    let mut i: usize = 0;
    assert(list@ =~= old(list)@ + keys_of(table@.take(0)));
    while i < table.entries.len()
        invariant
            i <= table@.len(),
            list@ == old(list)@ + keys_of(table@.take(i as int)),
        decreases table@.len() - i,
    {
        list.push(table.entries[i].0);
        i = i + 1;
        assert(list@ =~= old(list)@ + keys_of(table@.take(i as int)));
    }
    assert(table@.take(table@.len() as int) =~= table@);
}

/// Compares the states of all interfaces before and after, and reports the
/// sections that changed.
///
/// Flags, DNS state and prefixes are compared independently. A section that
/// differs is reported completely.
pub fn diff_aggregate_parts(
    before: Table<InterfaceIndex, Aggregate>,
    after: Table<InterfaceIndex, Aggregate>,
) -> (events: Vec<Event>)
    requires
        before.wf(),
        after.wf(),
    ensures
        events.deep_view() == changes(before.deep_view(), after.deep_view()),
{
    let mut list: Vec<InterfaceIndex> = Vec::new();
    list_keys(&mut list, &before);
    list_keys(&mut list, &after);
    let mut ifindices: Vec<InterfaceIndex> = Vec::new();
    let ghost all = first_seen(keys_of(before.deep_view()) + keys_of(after.deep_view()));
    proof {
        assert(list.deep_view() =~= keys_of(before.deep_view()) + keys_of(after.deep_view()));
        assert(ifindices.deep_view() =~= Seq::empty());
        law_extend_unique(
            Seq::<InterfaceIndex>::empty(),
            keys_of(before.deep_view()) + keys_of(after.deep_view()),
        );
    }
    extend_dedup(&mut ifindices, list);
    assert(ifindices.deep_view() =~= ifindices@);
    let mut rest = after;
    let mut events: Vec<Event> = Vec::new();
    let empty = Aggregate::default();
    let mut n: usize = 0;
    assert(events.deep_view() =~= changes_on(
        all.take(0),
        before.deep_view(),
        after.deep_view(),
    ));
    while n < ifindices.len()
        invariant
            n <= ifindices@.len(),
            ifindices@ == all,
            all.no_duplicates(),
            before.wf(),
            rest.wf(),
            empty.deep_view() == empty_aggregate(),
            forall|k: int|
                n <= k < all.len() ==> lookup(rest.deep_view(), #[trigger] all[k]) == lookup(
                    after.deep_view(),
                    all[k],
                ),
            events.deep_view() == changes_on(
                all.take(n as int),
                before.deep_view(),
                after.deep_view(),
            ),
        decreases ifindices@.len() - n,
    {
        let ifindex = ifindices[n];
        proof {
            lemma_deep_table(rest@);
            lemma_deep_lookup(rest@, ifindex);
            lemma_deep_lookup(before@, ifindex);
            lemma_deep_without(rest@, ifindex);
            law_without(rest.deep_view(), ifindex);
            assert(all.take(n + 1).drop_last() =~= all.take(n as int));
            assert(lookup(rest.deep_view(), all[n as int]) == lookup(
                after.deep_view(),
                all[n as int],
            ));
        }
        let new_state = match rest.remove(&ifindex) {
            Some(aggregate) => aggregate,
            None => Aggregate::default(),
        };
        let old_state = match before.get(&ifindex) {
            Some(aggregate) => aggregate,
            None => &empty,
        };
        report_changes(&mut events, ifindex, old_state, new_state);
        n = n + 1;
    }
    assert(all.take(all.len() as int) =~= all);
    events
}

impl Aggregator {
    /// Applies changes and reports the sections whose aggregated state is
    /// different afterwards.
    pub fn process(&mut self, lifecycle_events: Vec<lifecycle::Event>) -> (events: Vec<Event>)
        requires
            old(self).deep_view().wf(),
        ensures
            final(self).deep_view() == applied_all(
                old(self).deep_view(),
                lifecycle_events.deep_view(),
            ),
            final(self).deep_view().wf(),
            events.deep_view() == changes(
                aggregated(old(self).deep_view()),
                aggregated(final(self).deep_view()),
            ),
    {
        let before = self.aggregate();
        self.update(lifecycle_events);
        let after = self.aggregate();
        diff_aggregate_parts(before, after)
    }
}

// Laws

/// The interface that an event is about.
pub open spec fn interface_of(event: EventView) -> InterfaceIndex {
    match event {
        EventView::RouterUpdate { ifindex, managed, other_config } => ifindex,
        EventView::RouterDown { ifindex } => ifindex,
        EventView::RaDns { ifindex, servers, domains } => ifindex,
        EventView::RaPrefix { ifindex, prefixes } => ifindex,
        EventView::RaPrefixSoftExpiry { ifindex, prefix } => ifindex,
    }
}

/// The events about an interface.
pub open spec fn events_on(events: Seq<EventView>, ifindex: InterfaceIndex) -> Seq<EventView> {
    events.filter(|e: EventView| interface_of(e) == ifindex)
}

/// A table without routers of an interface contributes nothing to it.
proof fn lemma_no_contributions<T>(t: Seq<(Key, Seq<T>)>, ifindex: InterfaceIndex)
    requires
        !interfaces_of(t).contains(ifindex),
    ensures
        contributions(t, ifindex) == Seq::<T>::empty(),
    decreases t.len(),
{
    if t.len() > 0 {
        let rest = t.drop_last();
        assert(interfaces_of(t)[t.len() - 1] == t.last().0.ifindex);
        assert(!interfaces_of(rest).contains(ifindex)) by {
            if interfaces_of(rest).contains(ifindex) {
                let i = choose|i: int|
                    0 <= i < interfaces_of(rest).len() && interfaces_of(rest)[i] == ifindex;
                assert(interfaces_of(t)[i] == ifindex);
            }
        }
        lemma_no_contributions(rest, ifindex);
    }
}

/// The table of all states holds the state of every interface, where one that
/// is not listed has the empty state.
pub proof fn law_aggregated(state: AggregatorView, ifindex: InterfaceIndex)
    ensures
        unique_keys(aggregated(state)),
        state_of(aggregated(state), ifindex) == aggregate_of(state, ifindex),
        !keys_of(aggregated(state)).contains(ifindex) ==> aggregate_of(state, ifindex)
            == empty_aggregate(),
{
    let (a, b, c, d) = (
        interfaces_of(state.routers),
        interfaces_of(state.servers),
        interfaces_of(state.domains),
        interfaces_of(state.prefixes),
    );
    let all = interfaces(state);
    let out = aggregated(state);
    law_extend_unique(Seq::<InterfaceIndex>::empty(), a + b + c + d);
    assert(keys_of(out) =~= all);
    assert forall|i: int, j: int| 0 <= i < j < out.len() implies (#[trigger] out[i]).0 != (
    #[trigger] out[j]).0 by {
        assert(all[i] != all[j]);
    }
    if all.contains(ifindex) {
        let i = choose|i: int| 0 <= i < all.len() && all[i] == ifindex;
        assert(out[i] == (ifindex, aggregate_of(state, ifindex)));
        lemma_position(out, i);
    } else {
        if has_key(out, ifindex) {
            let i = position(out, ifindex);
            assert(0 <= i < out.len() && out[i].0 == ifindex);
            assert(all[i] == ifindex);
        }
        let whole = a + b + c + d;
        assert(!whole.contains(ifindex));
        assert forall|i: int| 0 <= i < a.len() implies a[i] != ifindex by {
            assert(whole[i] == a[i]);
        }
        assert forall|i: int| 0 <= i < b.len() implies b[i] != ifindex by {
            assert(whole[a.len() + i] == b[i]);
        }
        assert forall|i: int| 0 <= i < c.len() implies c[i] != ifindex by {
            assert(whole[a.len() + b.len() + i] == c[i]);
        }
        assert forall|i: int| 0 <= i < d.len() implies d[i] != ifindex by {
            assert(whole[a.len() + b.len() + c.len() + i] == d[i]);
        }
        lemma_no_contributions(state.servers, ifindex);
        lemma_no_contributions(state.domains, ifindex);
        lemma_no_contributions(state.prefixes, ifindex);
        assert forall|i: int| 0 <= i < state.routers.len() implies (
        #[trigger] state.routers[i]).0.ifindex != ifindex by {
            assert(a[i] == state.routers[i].0.ifindex);
        }
    }
}

proof fn lemma_interface_changes_on(
    i: InterfaceIndex,
    before: AggregateView,
    after: AggregateView,
    ifindex: InterfaceIndex,
)
    ensures
        events_on(interface_changes(i, before, after), ifindex) == if i == ifindex {
            interface_changes(i, before, after)
        } else {
            Seq::empty()
        },
{
    let events = interface_changes(i, before, after);
    let p = |e: EventView| interface_of(e) == ifindex;
    assert forall|k: int| 0 <= k < events.len() implies interface_of(#[trigger] events[k]) == i by {
        let (a, b) = (router_changes(i, before, after), dns_changes(i, before, after));
        if k < a.len() {
            assert(events[k] == a[k]);
        } else if k < a.len() + b.len() {
            assert(events[k] == b[k - a.len()]);
        } else {
            assert(events[k] == prefix_changes(i, before, after)[k - a.len() - b.len()]);
        }
    }
    if i == ifindex {
        assert forall|k: int| 0 <= k < events.len() implies p(#[trigger] events[k]) by {
            assert(interface_of(events[k]) == i);
        }
        lemma_filter_all(events, p);
    } else {
        assert forall|k: int| 0 <= k < events.len() implies !p(#[trigger] events[k]) by {
            assert(interface_of(events[k]) == i);
        }
        events.lemma_all_neg_filter_empty(p);
        assert(events.filter(p) =~= Seq::empty());
    }
}

/// The reports of one interface among those of all listed ones.
pub proof fn lemma_changes_on(
    list: Seq<InterfaceIndex>,
    before: Seq<(InterfaceIndex, AggregateView)>,
    after: Seq<(InterfaceIndex, AggregateView)>,
    ifindex: InterfaceIndex,
)
    requires
        list.no_duplicates(),
    ensures
        events_on(changes_on(list, before, after), ifindex) == if list.contains(ifindex) {
            interface_changes(ifindex, state_of(before, ifindex), state_of(after, ifindex))
        } else {
            Seq::empty()
        },
    decreases list.len(),
{
    let p = |e: EventView| interface_of(e) == ifindex;
    if list.len() == 0 {
        reveal(Seq::filter);
    } else {
        let rest = list.drop_last();
        let last = list.last();
        lemma_changes_on(rest, before, after, ifindex);
        lemma_interface_changes_on(last, state_of(before, last), state_of(after, last), ifindex);
        let head = changes_on(rest, before, after);
        let tail = interface_changes(last, state_of(before, last), state_of(after, last));
        Seq::filter_distributes_over_add(head, tail, p);
        assert(list[list.len() - 1] == last);
        if last == ifindex {
            assert(!rest.contains(ifindex)) by {
                if rest.contains(ifindex) {
                    let k = choose|k: int| 0 <= k < rest.len() && rest[k] == ifindex;
                    assert(list[k] != list[list.len() - 1]);
                }
            }
            assert(Seq::empty() + tail =~= tail);
        } else {
            if list.contains(ifindex) {
                let k = choose|k: int| 0 <= k < list.len() && list[k] == ifindex;
                assert(rest[k] == ifindex);
            }
            if rest.contains(ifindex) {
                let k = choose|k: int| 0 <= k < rest.len() && rest[k] == ifindex;
                assert(list[k] == ifindex);
            }
            assert(head.filter(p) + Seq::empty() =~= head.filter(p));
        }
    }
}

/// For every interface, exactly those sections are reported whose aggregated
/// state changed, once each and completely.
pub proof fn law_reports_are_the_changes(
    before: AggregatorView,
    after: AggregatorView,
    ifindex: InterfaceIndex,
)
    ensures
        events_on(changes(aggregated(before), aggregated(after)), ifindex) == interface_changes(
            ifindex,
            aggregate_of(before, ifindex),
            aggregate_of(after, ifindex),
        ),
{
    let (b, a) = (aggregated(before), aggregated(after));
    let list = first_seen(keys_of(b) + keys_of(a));
    law_aggregated(before, ifindex);
    law_aggregated(after, ifindex);
    law_extend_unique(Seq::<InterfaceIndex>::empty(), keys_of(b) + keys_of(a));
    lemma_changes_on(list, b, a, ifindex);
    if !list.contains(ifindex) {
        let both = keys_of(b) + keys_of(a);
        assert(!both.contains(ifindex));
        assert forall|i: int| 0 <= i < keys_of(b).len() implies keys_of(b)[i] != ifindex by {
            assert(both[i] == keys_of(b)[i]);
        }
        assert forall|i: int| 0 <= i < keys_of(a).len() implies keys_of(a)[i] != ifindex by {
            assert(both[keys_of(b).len() + i] == keys_of(a)[i]);
        }
        assert(interface_changes(ifindex, empty_aggregate(), empty_aggregate()) =~= Seq::empty());
    }
}

/// The state of an interface as far as an event tells it.
pub open spec fn told(state: AggregateView, event: EventView) -> AggregateView {
    match event {
        EventView::RouterUpdate { ifindex, managed, other_config } => AggregateView {
            router: Some(Router { managed, other_config }),
            ..state
        },
        EventView::RouterDown { ifindex } => AggregateView { router: None, ..state },
        EventView::RaDns { ifindex, servers, domains } => AggregateView {
            dns_servers: servers,
            domains,
            ..state
        },
        EventView::RaPrefix { ifindex, prefixes } => AggregateView { prefixes, ..state },
        EventView::RaPrefixSoftExpiry { ifindex, prefix } => state,
    }
}

/// The state of an interface as far as events tell it, one after the other.
pub open spec fn told_all(state: AggregateView, events: Seq<EventView>) -> AggregateView
    decreases events.len(),
{
    if events.len() == 0 {
        state
    } else {
        told(told_all(state, events.drop_last()), events.last())
    }
}

/// Whoever knows the state of an interface and hears what is reported of it
/// knows the state afterwards, without looking at anything else.
pub proof fn law_reports_tell_the_state(
    before: AggregatorView,
    after: AggregatorView,
    ifindex: InterfaceIndex,
)
    ensures
        told_all(
            aggregate_of(before, ifindex),
            events_on(changes(aggregated(before), aggregated(after)), ifindex),
        ) == aggregate_of(after, ifindex),
{
    let (b, a) = (aggregate_of(before, ifindex), aggregate_of(after, ifindex));
    let x = router_changes(ifindex, b, a);
    let y = dns_changes(ifindex, b, a);
    let z = prefix_changes(ifindex, b, a);
    law_reports_are_the_changes(before, after, ifindex);
    reveal_with_fuel(told_all, 2);
    assert(told_all(b, x) == (AggregateView { router: a.router, ..b }));
    lemma_told_all_add(b, x, y);
    let c = told_all(b, x);
    assert(told_all(c, y) == (AggregateView { prefixes: b.prefixes, ..a }));
    lemma_told_all_add(b, x + y, z);
}

proof fn lemma_told_all_add(state: AggregateView, a: Seq<EventView>, b: Seq<EventView>)
    ensures
        told_all(state, a + b) == told_all(told_all(state, a), b),
    decreases b.len(),
{
    if b.len() == 0 {
        assert(a + b =~= a);
    } else {
        lemma_told_all_add(state, a, b.drop_last());
        assert((a + b).drop_last() =~= a + b.drop_last());
    }
}

/// Nothing is reported where no aggregated state changed.
pub proof fn law_no_change_no_report(before: AggregatorView, after: AggregatorView)
    requires
        forall|i: InterfaceIndex| #[trigger]
            aggregate_of(before, i) == aggregate_of(after, i),
    ensures
        changes(aggregated(before), aggregated(after)).len() == 0,
{
    let out = changes(aggregated(before), aggregated(after));
    if out.len() > 0 {
        let i = interface_of(out[0]);
        law_reports_are_the_changes(before, after, i);
        assert(aggregate_of(before, i) == aggregate_of(after, i));
        assert(interface_changes(i, aggregate_of(before, i), aggregate_of(after, i))
            =~= Seq::empty());
        out.lemma_filter_contains(|e: EventView| interface_of(e) == i, 0);
    }
}

/// Whether some router of an interface contributes an item.
pub open spec fn contributed<T>(t: Seq<(Key, Seq<T>)>, ifindex: InterfaceIndex, item: T) -> bool {
    exists|n: int|
        0 <= n < t.len() && (#[trigger] t[n]).0.ifindex == ifindex && t[n].1.contains(item)
}

proof fn lemma_contributions_members<T>(t: Seq<(Key, Seq<T>)>, ifindex: InterfaceIndex, item: T)
    ensures
        contributions(t, ifindex).contains(item) <==> contributed(t, ifindex, item),
    decreases t.len(),
{
    if t.len() > 0 {
        let rest = t.drop_last();
        let last = t.last();
        let head = contributions(rest, ifindex);
        let out = contributions(t, ifindex);
        lemma_contributions_members(rest, ifindex, item);
        assert(t[t.len() - 1] == last);
        if contributed(rest, ifindex, item) {
            let n = choose|n: int|
                0 <= n < rest.len() && (#[trigger] rest[n]).0.ifindex == ifindex
                    && rest[n].1.contains(item);
            assert(t[n].0.ifindex == ifindex && t[n].1.contains(item));
            let k = choose|k: int| 0 <= k < head.len() && head[k] == item;
            assert(out[k] == item);
        }
        if contributed(t, ifindex, item) && !contributed(rest, ifindex, item) {
            let n = choose|n: int|
                0 <= n < t.len() && (#[trigger] t[n]).0.ifindex == ifindex && t[n].1.contains(item);
            if n < rest.len() {
                assert(rest[n].0.ifindex == ifindex && rest[n].1.contains(item));
            }
            let k = choose|k: int| 0 <= k < last.1.len() && last.1[k] == item;
            assert(out[head.len() + k] == item);
        }
        if out.contains(item) && !head.contains(item) {
            let k = choose|k: int| 0 <= k < out.len() && out[k] == item;
            if k < head.len() {
                assert(head[k] == item);
            }
            assert(last.1[k - head.len()] == item);
        }
    }
}

/// A merged list holds what some router of the interface contributes, nothing
/// else, and nothing twice.
proof fn lemma_merged<T>(t: Seq<(Key, Seq<T>)>, ifindex: InterfaceIndex)
    ensures
        first_seen(contributions(t, ifindex)).no_duplicates(),
        forall|x: T| #[trigger]
            first_seen(contributions(t, ifindex)).contains(x) <==> contributed(t, ifindex, x),
{
    law_extend_unique(Seq::<T>::empty(), contributions(t, ifindex));
    assert forall|x: T| #[trigger]
        first_seen(contributions(t, ifindex)).contains(x) <==> contributed(t, ifindex, x) by {
        lemma_contributions_members(t, ifindex, x);
    }
}

/// The aggregated state of an interface holds what its routers contribute,
/// nothing else, and nothing twice. It has flags if and only if it has a
/// router.
pub proof fn law_aggregate_members(state: AggregatorView, ifindex: InterfaceIndex)
    ensures
        aggregate_of(state, ifindex).dns_servers.no_duplicates(),
        aggregate_of(state, ifindex).domains.no_duplicates(),
        aggregate_of(state, ifindex).prefixes.no_duplicates(),
        forall|x: Ipv6Addr| #[trigger]
            aggregate_of(state, ifindex).dns_servers.contains(x) <==> contributed(
                state.servers,
                ifindex,
                x,
            ),
        forall|x: Seq<char>| #[trigger]
            aggregate_of(state, ifindex).domains.contains(x) <==> contributed(
                state.domains,
                ifindex,
                x,
            ),
        forall|x: PrefixInfo| #[trigger]
            aggregate_of(state, ifindex).prefixes.contains(x) <==> contributed(
                state.prefixes,
                ifindex,
                x,
            ),
        aggregate_of(state, ifindex).router is Some <==> interfaces_of(state.routers).contains(
            ifindex,
        ),
{
    lemma_merged(state.servers, ifindex);
    lemma_merged(state.domains, ifindex);
    lemma_merged(state.prefixes, ifindex);
    let list = interfaces_of(state.routers);
    if list.contains(ifindex) {
        let i = choose|i: int| 0 <= i < list.len() && list[i] == ifindex;
        assert(state.routers[i].0.ifindex == ifindex);
    }
    if aggregate_of(state, ifindex).router is Some {
        let i = choose|i: int|
            0 <= i < state.routers.len() && (#[trigger] state.routers[i]).0.ifindex == ifindex;
        assert(list[i] == ifindex);
    }
}

/// An interface is reported as down if and only if its last router is gone.
pub proof fn law_router_down(
    before: AggregatorView,
    after: AggregatorView,
    ifindex: InterfaceIndex,
)
    ensures
        changes(aggregated(before), aggregated(after)).contains(
            EventView::RouterDown { ifindex },
        ) <==> aggregate_of(before, ifindex).router is Some && aggregate_of(
            after,
            ifindex,
        ).router is None,
{
    let out = changes(aggregated(before), aggregated(after));
    let p = |e: EventView| interface_of(e) == ifindex;
    let down = EventView::RouterDown { ifindex };
    let (b, a) = (aggregate_of(before, ifindex), aggregate_of(after, ifindex));
    let here = interface_changes(ifindex, b, a);
    law_reports_are_the_changes(before, after, ifindex);
    if b.router is Some && a.router is None {
        assert(here[0] == down);
        assert(out.filter(p).contains(down));
        out.lemma_filter_contains_rev(p, down);
    }
    if out.contains(down) {
        let k = choose|k: int| 0 <= k < out.len() && out[k] == down;
        out.lemma_filter_contains(p, k);
        let j = choose|j: int| 0 <= j < here.len() && here[j] == down;
        let (x, y) = (router_changes(ifindex, b, a), dns_changes(ifindex, b, a));
        if j < x.len() {
            assert(here[j] == x[j]);
        } else if j < x.len() + y.len() {
            assert(here[j] == y[j - x.len()]);
        } else {
            assert(here[j] == prefix_changes(ifindex, b, a)[j - x.len() - y.len()]);
        }
    }
}

/// Everything that a router contributes.
pub struct Contribution {
    pub router: Option<Router>,
    pub servers: Seq<Ipv6Addr>,
    pub domains: Seq<Seq<char>>,
    pub prefixes: Seq<PrefixInfo>,
}

impl AggregatorView {
    /// What a router contributes.
    pub open spec fn contribution(self, key: Key) -> Contribution {
        Contribution {
            router: lookup(self.routers, key),
            servers: items_at(self.servers, key),
            domains: items_at(self.domains, key),
            prefixes: items_at(self.prefixes, key),
        }
    }
}

/// The router that a change is about.
pub open spec fn subject(event: lifecycle::EventView) -> Key {
    match event {
        lifecycle::EventView::Router { key, managed, other_config } => key,
        lifecycle::EventView::DnsServers { key, servers } => key,
        lifecycle::EventView::DnsDomains { key, domains } => key,
        lifecycle::EventView::Prefix { key, prefix_info } => key,
        lifecycle::EventView::RouterExpiry { key } => key,
        lifecycle::EventView::PrefixExpiry { key, prefix_info } => key,
        lifecycle::EventView::PrefixSoftExpiry { key, prefix_info } => key,
    }
}

/// What a router contributes after a change that is about it.
pub open spec fn changed_contribution(
    before: Contribution,
    event: lifecycle::EventView,
) -> Contribution {
    match event {
        lifecycle::EventView::Router { key, managed, other_config } => Contribution {
            router: Some(Router { managed, other_config }),
            ..before
        },
        lifecycle::EventView::DnsServers { key, servers } => Contribution {
            servers: by_lifetime(servers),
            ..before
        },
        lifecycle::EventView::DnsDomains { key, domains } => Contribution {
            domains: by_lifetime(domains),
            ..before
        },
        lifecycle::EventView::Prefix { key, prefix_info } => Contribution {
            prefixes: replace_prefix(before.prefixes, prefix_info),
            ..before
        },
        lifecycle::EventView::RouterExpiry { key } => Contribution {
            router: None,
            servers: Seq::empty(),
            domains: Seq::empty(),
            prefixes: Seq::empty(),
        },
        lifecycle::EventView::PrefixExpiry { key, prefix_info } => Contribution {
            prefixes: drop_prefix(before.prefixes, prefix_info.prefix),
            ..before
        },
        lifecycle::EventView::PrefixSoftExpiry { key, prefix_info } => before,
    }
}

/// A change affects what its own router contributes, and no other router. A
/// router that expires contributes nothing any more.
pub proof fn law_applied(state: AggregatorView, event: lifecycle::EventView, key: Key)
    requires
        state.wf(),
    ensures
        applied(state, event).contribution(key) == if key == subject(event) {
            changed_contribution(state.contribution(key), event)
        } else {
            state.contribution(key)
        },
{
    match event {
        lifecycle::EventView::Router { key, managed, other_config } => {
            law_put(state.routers, key, Router { managed, other_config });
        },
        lifecycle::EventView::DnsServers { key, servers } => {
            lemma_put_items(state.servers, key, by_lifetime(servers));
        },
        lifecycle::EventView::DnsDomains { key, domains } => {
            lemma_put_items(state.domains, key, by_lifetime(domains));
        },
        lifecycle::EventView::Prefix { key, prefix_info } => {
            let list = items_at(state.prefixes, key);
            lemma_put_items(state.prefixes, key, replace_prefix(list, prefix_info));
        },
        lifecycle::EventView::RouterExpiry { key } => {
            law_without(state.routers, key);
            lemma_without_items(state.servers, key);
            lemma_without_items(state.domains, key);
            lemma_without_items(state.prefixes, key);
        },
        lifecycle::EventView::PrefixExpiry { key, prefix_info } => {
            let left = drop_prefix(items_at(state.prefixes, key), prefix_info.prefix);
            lemma_put_items(state.prefixes, key, left);
            lemma_without_items(state.prefixes, key);
            if left.len() == 0 {
                assert(left =~= Seq::empty());
            }
        },
        lifecycle::EventView::PrefixSoftExpiry { key, prefix_info } => {},
    }
}

proof fn lemma_contributions_update<T>(
    t: Seq<(Key, Seq<T>)>,
    p: int,
    entry: (Key, Seq<T>),
    ifindex: InterfaceIndex,
)
    requires
        0 <= p < t.len(),
        t[p].0.ifindex != ifindex,
        entry.0.ifindex != ifindex,
    ensures
        contributions(t.update(p, entry), ifindex) == contributions(t, ifindex),
    decreases t.len(),
{
    let out = t.update(p, entry);
    if p == t.len() - 1 {
        assert(out.drop_last() =~= t.drop_last());
    } else {
        assert(out.drop_last() =~= t.drop_last().update(p, entry));
        lemma_contributions_update(t.drop_last(), p, entry, ifindex);
    }
}

proof fn lemma_contributions_remove<T>(t: Seq<(Key, Seq<T>)>, p: int, ifindex: InterfaceIndex)
    requires
        0 <= p < t.len(),
        t[p].0.ifindex != ifindex,
    ensures
        contributions(t.remove(p), ifindex) == contributions(t, ifindex),
    decreases t.len(),
{
    let out = t.remove(p);
    if p == t.len() - 1 {
        assert(out =~= t.drop_last());
    } else {
        assert(out.drop_last() =~= t.drop_last().remove(p));
        assert(out.last() == t.last());
        lemma_contributions_remove(t.drop_last(), p, ifindex);
    }
}

proof fn lemma_other_interface<T>(
    t: Seq<(Key, Seq<T>)>,
    key: Key,
    items: Seq<T>,
    ifindex: InterfaceIndex,
)
    requires
        key.ifindex != ifindex,
    ensures
        contributions(put(t, key, items), ifindex) == contributions(t, ifindex),
        contributions(without(t, key), ifindex) == contributions(t, ifindex),
{
    if has_key(t, key) {
        let p = position(t, key);
        assert(0 <= p < t.len() && t[p].0 == key);
        lemma_contributions_update(t, p, (key, items), ifindex);
        lemma_contributions_remove(t, p, ifindex);
    } else {
        assert(t.push((key, items)).drop_last() =~= t);
    }
}

proof fn lemma_same_routers(
    a: Seq<(Key, Router)>,
    b: Seq<(Key, Router)>,
    ifindex: InterfaceIndex,
)
    requires
        unique_keys(a),
        unique_keys(b),
        forall|key: Key| key.ifindex == ifindex ==> #[trigger] lookup(a, key) == lookup(b, key),
    ensures
        router_section(a, ifindex) == router_section(b, ifindex),
{
    assert forall|i: int| 0 <= i < a.len() && (#[trigger] a[i]).0.ifindex == ifindex implies exists|
        j: int,
    | 0 <= j < b.len() && #[trigger] b[j] == a[i] by {
        lemma_position(a, i);
        assert(lookup(a, a[i].0) == lookup(b, a[i].0));
        let j = position(b, a[i].0);
        assert(0 <= j < b.len() && b[j].0 == a[i].0);
        assert(b[j] == a[i]);
    }
    assert forall|i: int| 0 <= i < b.len() && (#[trigger] b[i]).0.ifindex == ifindex implies exists|
        j: int,
    | 0 <= j < a.len() && #[trigger] a[j] == b[i] by {
        lemma_position(b, i);
        assert(lookup(a, b[i].0) == lookup(b, b[i].0));
        let j = position(a, b[i].0);
        assert(0 <= j < a.len() && a[j].0 == b[i].0);
        assert(a[j] == b[i]);
    }
}

/// A change leaves the state of all other interfaces as it was, so nothing is
/// reported for them.
pub proof fn law_interfaces_isolated(
    state: AggregatorView,
    event: lifecycle::EventView,
    ifindex: InterfaceIndex,
)
    requires
        state.wf(),
        ifindex != subject(event).ifindex,
    ensures
        aggregate_of(applied(state, event), ifindex) == aggregate_of(state, ifindex),
        events_on(changes(aggregated(state), aggregated(applied(state, event))), ifindex).len()
            == 0,
{
    let after = applied(state, event);
    law_applied_wf(state, event);
    assert forall|k: Key| k.ifindex == ifindex implies #[trigger] lookup(state.routers, k)
        == lookup(after.routers, k) by {
        law_applied(state, event, k);
        assert(state.contribution(k).router == after.contribution(k).router);
    }
    lemma_same_routers(state.routers, after.routers, ifindex);
    match event {
        lifecycle::EventView::DnsServers { key, servers } => {
            lemma_other_interface(state.servers, key, by_lifetime(servers), ifindex);
        },
        lifecycle::EventView::DnsDomains { key, domains } => {
            lemma_other_interface(state.domains, key, by_lifetime(domains), ifindex);
        },
        lifecycle::EventView::Prefix { key, prefix_info } => {
            let replaced = replace_prefix(items_at(state.prefixes, key), prefix_info);
            lemma_other_interface(state.prefixes, key, replaced, ifindex);
        },
        lifecycle::EventView::RouterExpiry { key } => {
            lemma_other_interface(state.servers, key, Seq::empty(), ifindex);
            lemma_other_interface(state.domains, key, Seq::empty(), ifindex);
            lemma_other_interface(state.prefixes, key, Seq::empty(), ifindex);
        },
        lifecycle::EventView::PrefixExpiry { key, prefix_info } => {
            let left = drop_prefix(items_at(state.prefixes, key), prefix_info.prefix);
            lemma_other_interface(state.prefixes, key, left, ifindex);
        },
        _ => {},
    }
    law_reports_are_the_changes(state, after, ifindex);
    let same = aggregate_of(state, ifindex);
    assert(interface_changes(ifindex, same, same) =~= Seq::empty());
}

/// Whether what a change says is the case already.
pub open spec fn holds(state: AggregatorView, event: lifecycle::EventView) -> bool {
    match event {
        lifecycle::EventView::Router { key, managed, other_config } => {
            lookup(state.routers, key) == Some(Router { managed, other_config })
        },
        lifecycle::EventView::DnsServers { key, servers } => {
            lookup(state.servers, key) == Some(by_lifetime(servers))
        },
        lifecycle::EventView::DnsDomains { key, domains } => {
            lookup(state.domains, key) == Some(by_lifetime(domains))
        },
        lifecycle::EventView::Prefix { key, prefix_info } => {
            items_at(state.prefixes, key).contains(prefix_info)
        },
        lifecycle::EventView::RouterExpiry { key } => {
            &&& !has_key(state.routers, key)
            &&& !has_key(state.servers, key)
            &&& !has_key(state.domains, key)
            &&& !has_key(state.prefixes, key)
        },
        lifecycle::EventView::PrefixExpiry { key, prefix_info } => {
            !has_prefix(items_at(state.prefixes, key), prefix_info.prefix)
        },
        lifecycle::EventView::PrefixSoftExpiry { key, prefix_info } => true,
    }
}

proof fn lemma_replace_known(list: Seq<PrefixInfo>, info: PrefixInfo)
    requires
        distinct_prefixes(list),
        list.contains(info),
    ensures
        replace_prefix(list, info) == list,
{
    let i = choose|i: int| 0 <= i < list.len() && list[i] == info;
    assert(list[i].prefix == info.prefix);
    let p = prefix_position(list, info.prefix);
    assert(0 <= p < list.len() && list[p].prefix == info.prefix);
    assert(p == i);
    assert(list.update(p, info) =~= list);
}

proof fn lemma_drop_unknown(list: Seq<PrefixInfo>, prefix: Ipv6Addr)
    requires
        !has_prefix(list, prefix),
    ensures
        drop_prefix(list, prefix) == list,
{
    assert forall|i: int| 0 <= i < list.len() implies with_other_address(prefix)(
        #[trigger] list[i],
    ) by {
        assert(list[i].prefix != prefix);
    }
    lemma_filter_all(list, with_other_address(prefix));
}

/// A change that says what is the case already changes nothing.
pub proof fn law_known_change(state: AggregatorView, event: lifecycle::EventView)
    requires
        state.wf(),
        holds(state, event),
    ensures
        applied(state, event) == state,
{
    match event {
        lifecycle::EventView::Router { key, managed, other_config } => {
            lemma_put_known(state.routers, key);
        },
        lifecycle::EventView::DnsServers { key, servers } => {
            lemma_put_known(state.servers, key);
        },
        lifecycle::EventView::DnsDomains { key, domains } => {
            lemma_put_known(state.domains, key);
        },
        lifecycle::EventView::Prefix { key, prefix_info } => {
            let list = items_at(state.prefixes, key);
            lemma_replace_known(list, prefix_info);
            lemma_put_known(state.prefixes, key);
        },
        lifecycle::EventView::PrefixExpiry { key, prefix_info } => {
            let list = items_at(state.prefixes, key);
            lemma_drop_unknown(list, prefix_info.prefix);
            if has_key(state.prefixes, key) {
                lemma_put_known(state.prefixes, key);
            }
        },
        _ => {},
    }
}

proof fn lemma_holds_applied(state: AggregatorView, event: lifecycle::EventView)
    requires
        state.wf(),
    ensures
        holds(applied(state, event), event),
{
    law_applied(state, event, subject(event));
    match event {
        lifecycle::EventView::Router { key, managed, other_config } => {},
        lifecycle::EventView::DnsServers { key, servers } => {
            law_put(state.servers, key, by_lifetime(servers));
        },
        lifecycle::EventView::DnsDomains { key, domains } => {
            law_put(state.domains, key, by_lifetime(domains));
        },
        lifecycle::EventView::Prefix { key, prefix_info } => {
            let list = items_at(state.prefixes, key);
            let out = replace_prefix(list, prefix_info);
            if has_prefix(list, prefix_info.prefix) {
                let p = prefix_position(list, prefix_info.prefix);
                assert(0 <= p < list.len() && list[p].prefix == prefix_info.prefix);
                assert(out[p] == prefix_info);
            } else {
                assert(out[list.len() as int] == prefix_info);
            }
        },
        lifecycle::EventView::RouterExpiry { key } => {
            law_without(state.routers, key);
            law_without(state.servers, key);
            law_without(state.domains, key);
            law_without(state.prefixes, key);
        },
        lifecycle::EventView::PrefixExpiry { key, prefix_info } => {
            let list = items_at(state.prefixes, key);
            let out = drop_prefix(list, prefix_info.prefix);
            if has_prefix(out, prefix_info.prefix) {
                let p = prefix_position(out, prefix_info.prefix);
                assert(0 <= p < out.len() && out[p].prefix == prefix_info.prefix);
                list.lemma_filter_pred(with_other_address(prefix_info.prefix), p);
            }
        },
        lifecycle::EventView::PrefixSoftExpiry { key, prefix_info } => {},
    }
}

/// A change that comes again right away changes nothing and reports nothing.
pub proof fn law_change_again(state: AggregatorView, event: lifecycle::EventView)
    requires
        state.wf(),
    ensures
        applied(applied(state, event), event) == applied(state, event),
        changes(
            aggregated(applied(state, event)),
            aggregated(applied(applied(state, event), event)),
        ).len() == 0,
{
    let once = applied(state, event);
    law_applied_wf(state, event);
    lemma_holds_applied(state, event);
    law_known_change(once, event);
    law_no_change_no_report(once, once);
}

} // verus!
