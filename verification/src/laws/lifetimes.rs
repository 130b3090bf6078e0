//! How long what a router announces is valid.
use vstd::prelude::*;

use crate::address::Ipv6Addr;
use crate::detector;
use crate::detector::Key;
use crate::laws::tables::{law_lookup, law_put_entries, lemma_without_filter};
use crate::lifecycle::{
    all_nonempty, data_of, distinct_leases, domains_left, drop_lease, entries_at, expired, expiries,
    for_other, group_entries, has_lapsed, has_lease, is_live, lapsed, lapsed_routers,
    law_exchange_lease, law_expiry, law_expiry_reports, law_observed_wf, lease_position,
    lemma_filter_distinct, lemma_lapsed_router, lemma_live_store, lemma_without_all, live,
    live_store, losses, nonempty, observed, observed_all, preferred_until, prefix_deprecated,
    prefix_lost, refresh_lease, remainders, renew_preferred, reported, representable, servers_left,
    soft_expiries, without_all, EventView, LifecycleEntry, LifecycleView, Store,
};
use crate::merge::Group;
use crate::table::{has_key, lemma_filter_table, lookup, put, unique_keys};
use crate::time::{seconds, Duration, Instant};
use crate::PrefixInfo;

verus! {

/// Seconds and nanoseconds, and points in time that lie a span apart.
pub proof fn law_time(t: Instant, d: Duration, secs: nat)
    ensures
        t.reaches(d) <==> t.nanos + d.nanos <= u128::MAX,
        t.nanos + d.nanos <= u128::MAX ==> t.plus(d).nanos == t.nanos + d.nanos,
        secs <= u64::MAX ==> seconds(secs).nanos == secs * 1_000_000_000,
{
}

/// Dropping routers without entries drops just those.
proof fn lemma_nonempty_entries<T>(store: Store<T>)
    requires
        unique_keys(store),
    ensures
        unique_keys(nonempty(store)),
        forall|k: Key, list: Seq<LifecycleEntry<T>>|
            #![trigger nonempty(store).contains((k, list))]
            nonempty(store).contains((k, list)) <==> store.contains((k, list)) && list.len() > 0,
{
    let p = |e: (Key, Seq<LifecycleEntry<T>>)| e.1.len() > 0;
    lemma_filter_table(store, p);
    assert forall|k: Key, list: Seq<LifecycleEntry<T>>|
        #![trigger nonempty(store).contains((k, list))]
        nonempty(store).contains((k, list)) <==> store.contains((k, list)) && list.len() > 0 by {
        law_lookup(store, k);
        law_lookup(nonempty(store), k);
        assert(lookup(store.filter(p), k) == lookup(nonempty(store), k));
        assert(lookup(store, k) == Some(list) <==> store.contains((k, list)));
        assert(lookup(nonempty(store), k) == Some(list) <==> nonempty(store).contains((k, list)));
    }
}

// Observations

/// Observations have their effects one after the other.
pub proof fn law_one_after_the_other(
    state: LifecycleView,
    events: Seq<detector::EventView>,
    event: detector::EventView,
    now: Instant,
)
    ensures
        observed_all(state, Seq::empty(), now) == state,
        observed_all(state, events.push(event), now) == observed(
            observed_all(state, events, now),
            event,
            now,
        ),
{
    assert(events.push(event).drop_last() =~= events);
}

/// A router that announces itself with a lifetime is valid until exactly that
/// lifetime is over. Nothing else changes.
pub proof fn law_router_announced(
    state: LifecycleView,
    key: Key,
    managed: bool,
    other_config: bool,
    lifetime: Duration,
    now: Instant,
)
    requires
        state.wf(),
        lifetime.nanos != 0,
        now.nanos + lifetime.nanos <= u128::MAX,
    ensures
        ({
            let event = detector::EventView::Router { key, managed, other_config, lifetime };
            let out = observed(state, event, now);
            &&& forall|k: Key, t: Instant| #[trigger]
                out.routers.contains((k, t)) <==> if k == key {
                    t.nanos == now.nanos + lifetime.nanos
                } else {
                    state.routers.contains((k, t))
                }
            &&& out.servers == state.servers
            &&& out.domains == state.domains
            &&& out.prefixes == state.prefixes
            &&& out.soft_prefixes == state.soft_prefixes
        }),
{
    law_put_entries(state.routers, key, now.plus(lifetime));
    let event = detector::EventView::Router { key, managed, other_config, lifetime };
    let out = observed(state, event, now);
    assert forall|k: Key, t: Instant| #[trigger] out.routers.contains((k, t)) <==> if k == key {
        t.nanos == now.nanos + lifetime.nanos
    } else {
        state.routers.contains((k, t))
    } by {
        assert(k == key ==> (t == now.plus(lifetime) <==> t.nanos == now.nanos + lifetime.nanos));
    }
}

/// A router that announces itself with lifetime zero is gone with everything
/// that it announced. Nothing of other routers changes.
pub proof fn law_router_withdrawn(
    state: LifecycleView,
    key: Key,
    managed: bool,
    other_config: bool,
    now: Instant,
)
    requires
        state.wf(),
    ensures
        ({
            let event = detector::EventView::Router {
                key,
                managed,
                other_config,
                lifetime: Duration { nanos: 0 },
            };
            let out = observed(state, event, now);
            &&& out.routers == state.routers.filter(|e: (Key, Instant)| e.0 != key)
            &&& out.servers == state.servers.filter(
                |e: (Key, Seq<LifecycleEntry<Group<Ipv6Addr>>>)| e.0 != key,
            )
            &&& out.domains == state.domains.filter(
                |e: (Key, Seq<LifecycleEntry<Group<Seq<char>>>>)| e.0 != key,
            )
            &&& out.prefixes == state.prefixes.filter(
                |e: (Key, Seq<LifecycleEntry<PrefixInfo>>)| e.0 != key,
            )
            &&& out.soft_prefixes == state.soft_prefixes.filter(
                |e: (Key, Seq<LifecycleEntry<PrefixInfo>>)| e.0 != key,
            )
        }),
{
    lemma_without_filter(state.routers, key, |e: (Key, Instant)| e.0 != key);
    lemma_without_filter(
        state.servers,
        key,
        |e: (Key, Seq<LifecycleEntry<Group<Ipv6Addr>>>)| e.0 != key,
    );
    lemma_without_filter(
        state.domains,
        key,
        |e: (Key, Seq<LifecycleEntry<Group<Seq<char>>>>)| e.0 != key,
    );
    let other = |e: (Key, Seq<LifecycleEntry<PrefixInfo>>)| e.0 != key;
    lemma_without_filter(state.prefixes, key, other);
    lemma_without_filter(state.soft_prefixes, key, other);
}

/// What a store holds after groups took the place of those that a router had.
proof fn lemma_groups_replaced<T>(
    store: Store<Group<T>>,
    key: Key,
    groups: Seq<Group<T>>,
    now: Instant,
)
    requires
        unique_keys(store),
        forall|i: int|
            0 <= i < groups.len() ==> now.nanos + (#[trigger] groups[i]).lifetime.nanos
                <= u128::MAX,
    ensures
        ({
            let out = nonempty(put(store, key, group_entries(groups, now)));
            forall|k: Key, list: Seq<LifecycleEntry<Group<T>>>| #[trigger]
                out.contains((k, list)) <==> list.len() > 0 && if k == key {
                    list.len() == groups.len() && forall|i: int|
                        0 <= i < list.len() ==> (#[trigger] list[i]).data == groups[i]
                            && list[i].expires_at.nanos == now.nanos + groups[i].lifetime.nanos
                } else {
                    store.contains((k, list))
                }
        }),
{
    let entries = group_entries(groups, now);
    let all = put(store, key, entries);
    let out = nonempty(all);
    crate::table::law_put(store, key, entries);
    law_put_entries(store, key, entries);
    lemma_nonempty_entries(all);
    assert forall|k: Key, list: Seq<LifecycleEntry<Group<T>>>| #[trigger]
        out.contains((k, list)) <==> list.len() > 0 && if k == key {
            list.len() == groups.len() && forall|i: int|
                0 <= i < list.len() ==> (#[trigger] list[i]).data == groups[i]
                    && list[i].expires_at.nanos == now.nanos + groups[i].lifetime.nanos
        } else {
            store.contains((k, list))
        } by {
        assert(all.contains((k, list)) <==> if k == key {
            list == entries
        } else {
            store.contains((k, list))
        });
        if k == key && list == entries {
            assert forall|i: int| 0 <= i < list.len() implies (#[trigger] list[i]).data == groups[i]
                && list[i].expires_at.nanos == now.nanos + groups[i].lifetime.nanos by {
                assert(now.nanos + groups[i].lifetime.nanos <= u128::MAX);
            }
        }
        if k == key && list.len() == groups.len() && (forall|i: int|
            0 <= i < list.len() ==> (#[trigger] list[i]).data == groups[i]
                && list[i].expires_at.nanos == now.nanos + groups[i].lifetime.nanos) {
            assert forall|i: int| 0 <= i < list.len() implies list[i] == entries[i] by {
                assert(list[i].data == groups[i]);
                assert(now.nanos + groups[i].lifetime.nanos <= u128::MAX);
            }
            assert(list =~= entries);
        }
    }
}

/// Announced DNS servers take the place of all that the router announced
/// before, each group valid until exactly its lifetime is over. An empty
/// announcement leaves none. Nothing else changes.
pub proof fn law_servers_announced(
    state: LifecycleView,
    key: Key,
    groups: Seq<Group<Ipv6Addr>>,
    now: Instant,
)
    requires
        state.wf(),
        forall|i: int|
            0 <= i < groups.len() ==> now.nanos + (#[trigger] groups[i]).lifetime.nanos
                <= u128::MAX,
    ensures
        ({
            let out = observed(state, detector::EventView::DnsServers(key, groups), now);
            &&& forall|k: Key, list: Seq<LifecycleEntry<Group<Ipv6Addr>>>| #[trigger]
                out.servers.contains((k, list)) <==> list.len() > 0 && if k == key {
                    list.len() == groups.len() && forall|i: int|
                        0 <= i < list.len() ==> (#[trigger] list[i]).data == groups[i]
                            && list[i].expires_at.nanos == now.nanos + groups[i].lifetime.nanos
                } else {
                    state.servers.contains((k, list))
                }
            &&& out.routers == state.routers
            &&& out.domains == state.domains
            &&& out.prefixes == state.prefixes
            &&& out.soft_prefixes == state.soft_prefixes
        }),
{
    lemma_groups_replaced(state.servers, key, groups, now);
}

/// Announced search domains take the place of all that the router announced
/// before, each group valid until exactly its lifetime is over. An empty
/// announcement leaves none. Nothing else changes.
pub proof fn law_domains_announced(
    state: LifecycleView,
    key: Key,
    groups: Seq<Group<Seq<char>>>,
    now: Instant,
)
    requires
        state.wf(),
        forall|i: int|
            0 <= i < groups.len() ==> now.nanos + (#[trigger] groups[i]).lifetime.nanos
                <= u128::MAX,
    ensures
        ({
            let out = observed(state, detector::EventView::DnsDomains(key, groups), now);
            &&& forall|k: Key, list: Seq<LifecycleEntry<Group<Seq<char>>>>| #[trigger]
                out.domains.contains((k, list)) <==> list.len() > 0 && if k == key {
                    list.len() == groups.len() && forall|i: int|
                        0 <= i < list.len() ==> (#[trigger] list[i]).data == groups[i]
                            && list[i].expires_at.nanos == now.nanos + groups[i].lifetime.nanos
                } else {
                    state.domains.contains((k, list))
                }
            &&& out.routers == state.routers
            &&& out.servers == state.servers
            &&& out.prefixes == state.prefixes
            &&& out.soft_prefixes == state.soft_prefixes
        }),
{
    lemma_groups_replaced(state.domains, key, groups, now);
}

/// Announcing a prefix leases it until exactly its valid lifetime is over: in
/// the place of its earlier lease if the router has one for that address,
/// else behind the other leases. Leases for other addresses, of other
/// routers, and everything else stay as they are.
pub proof fn law_prefix_announced(
    state: LifecycleView,
    key: Key,
    prefix_info: PrefixInfo,
    lifetime: Duration,
    preferred_lifetime: Duration,
    now: Instant,
)
    requires
        state.wf(),
        lifetime.nanos != 0,
        now.nanos + lifetime.nanos <= u128::MAX,
    ensures
        ({
            let event = detector::EventView::Prefix {
                key,
                prefix_info,
                lifetime,
                preferred_lifetime,
            };
            let out = observed(state, event, now);
            let lease = LifecycleEntry {
                data: prefix_info,
                expires_at: Instant { nanos: (now.nanos + lifetime.nanos) as u128 },
            };
            &&& out.routers == state.routers
            &&& out.servers == state.servers
            &&& out.domains == state.domains
            &&& forall|k: Key, list: Seq<LifecycleEntry<PrefixInfo>>|
                k != key ==> (#[trigger] out.prefixes.contains((k, list))
                    <==> state.prefixes.contains((k, list)))
            &&& forall|a: Seq<LifecycleEntry<PrefixInfo>>, b: Seq<LifecycleEntry<PrefixInfo>>|
                #[trigger] out.prefixes.contains((key, a)) && #[trigger] out.prefixes.contains(
                    (key, b),
                ) ==> a == b
            &&& (forall|list: Seq<LifecycleEntry<PrefixInfo>>|
                !#[trigger] state.prefixes.contains((key, list))) ==> out.prefixes.contains(
                (key, seq![lease]),
            )
            &&& forall|list: Seq<LifecycleEntry<PrefixInfo>>|
                #[trigger] state.prefixes.contains((key, list)) ==> {
                    &&& (forall|i: int|
                        0 <= i < list.len() ==> (#[trigger] list[i]).data.prefix
                            != prefix_info.prefix) ==> out.prefixes.contains(
                        (key, list.push(lease)),
                    )
                    &&& forall|i: int|
                        0 <= i < list.len() && (#[trigger] list[i]).data.prefix
                            == prefix_info.prefix ==> out.prefixes.contains(
                            (key, list.update(i, lease)),
                        )
                }
        }),
{
    let event = detector::EventView::Prefix { key, prefix_info, lifetime, preferred_lifetime };
    let out = observed(state, event, now);
    let lease = LifecycleEntry { data: prefix_info, expires_at: now.plus(lifetime) };
    let leases = entries_at(state.prefixes, key);
    let new = refresh_lease(leases, lease);
    crate::table::law_put(state.prefixes, key, new);
    law_put_entries(state.prefixes, key, new);
    law_lookup(state.prefixes, key);
    assert(out.prefixes == put(state.prefixes, key, new));
    assert(out.prefixes.contains((key, new)));
    if forall|list: Seq<LifecycleEntry<PrefixInfo>>|
        !#[trigger] state.prefixes.contains((key, list)) {
        assert(!state.prefixes.contains((key, leases)));
        assert(leases =~= Seq::empty());
        assert(new =~= seq![lease]);
    }
    assert forall|list: Seq<LifecycleEntry<PrefixInfo>>|
        #[trigger] state.prefixes.contains((key, list)) implies {
        &&& (forall|i: int|
            0 <= i < list.len() ==> (#[trigger] list[i]).data.prefix != prefix_info.prefix)
            ==> out.prefixes.contains((key, list.push(lease)))
        &&& forall|i: int|
            0 <= i < list.len() && (#[trigger] list[i]).data.prefix == prefix_info.prefix
                ==> out.prefixes.contains((key, list.update(i, lease)))
    } by {
        assert(lookup(state.prefixes, key) == Some(list));
        assert(list == leases);
        assert forall|i: int| 0 <= i < list.len() && (#[trigger] list[i]).data.prefix
            == prefix_info.prefix implies new == list.update(i, lease) by {
            let p = lease_position(leases, prefix_info.prefix);
            assert(has_lease(leases, prefix_info.prefix));
            assert(0 <= p < leases.len() && leases[p].data.prefix == prefix_info.prefix);
            assert(crate::lifecycle::distinct_leases(leases));
            assert(p == i);
        }
    }
}

/// Announcing a prefix with a preferred lifetime makes that the one preferred
/// lifetime of the prefix, which is reached after exactly that time; where it
/// is as long as the valid lifetime, the prefix has none. A zero preferred
/// lifetime leaves all preferred lifetimes as they are. Those of other
/// addresses and routers stay in any case.
pub proof fn law_preferred_announced(
    state: LifecycleView,
    key: Key,
    prefix_info: PrefixInfo,
    lifetime: Duration,
    preferred_lifetime: Duration,
    now: Instant,
)
    requires
        state.wf(),
        lifetime.nanos != 0,
        now.nanos + preferred_lifetime.nanos <= u128::MAX,
    ensures
        ({
            let event = detector::EventView::Prefix {
                key,
                prefix_info,
                lifetime,
                preferred_lifetime,
            };
            let out = observed(state, event, now);
            &&& preferred_lifetime.nanos == 0 ==> out.soft_prefixes == state.soft_prefixes
            &&& forall|k: Key, list: Seq<LifecycleEntry<PrefixInfo>>|
                k != key ==> (#[trigger] out.soft_prefixes.contains((k, list))
                    <==> state.soft_prefixes.contains((k, list)))
            &&& preferred_lifetime.nanos != 0 ==> forall|e: LifecycleEntry<PrefixInfo>|
                #![trigger e.data]
                (exists|list: Seq<LifecycleEntry<PrefixInfo>>| #[trigger]
                    out.soft_prefixes.contains((key, list)) && list.contains(e))
                    <==> if e.data.prefix == prefix_info.prefix {
                    &&& preferred_lifetime.nanos != lifetime.nanos
                    &&& e.data == prefix_info
                    &&& e.expires_at.nanos == now.nanos + preferred_lifetime.nanos
                } else {
                    exists|list: Seq<LifecycleEntry<PrefixInfo>>| #[trigger]
                        state.soft_prefixes.contains((key, list)) && list.contains(e)
                }
        }),
{
    let event = detector::EventView::Prefix { key, prefix_info, lifetime, preferred_lifetime };
    let out = observed(state, event, now);
    let timers = entries_at(state.soft_prefixes, key);
    let new = renew_preferred(timers, prefix_info, lifetime, preferred_lifetime, now);
    let all = put(state.soft_prefixes, key, new);
    crate::table::law_put(state.soft_prefixes, key, new);
    law_put_entries(state.soft_prefixes, key, new);
    lemma_nonempty_entries(all);
    law_lookup(state.soft_prefixes, key);
    lemma_listed(state.soft_prefixes);
    if preferred_lifetime.nanos == 0 {
        crate::lifecycle::lemma_entries_kept(state.soft_prefixes, key);
    }
    let timer = preferred_until(prefix_info, lifetime, preferred_lifetime, now);
    assert(crate::lifecycle::distinct_leases(timers));
    law_exchange_lease(timers, prefix_info.prefix, timer);
    if preferred_lifetime.nanos != 0 {
        assert forall|e: LifecycleEntry<PrefixInfo>|
            #![trigger e.data]
            (exists|list: Seq<LifecycleEntry<PrefixInfo>>| #[trigger]
                out.soft_prefixes.contains((key, list)) && list.contains(e)) <==> if e.data.prefix
                == prefix_info.prefix {
                &&& preferred_lifetime.nanos != lifetime.nanos
                &&& e.data == prefix_info
                &&& e.expires_at.nanos == now.nanos + preferred_lifetime.nanos
            } else {
                exists|list: Seq<LifecycleEntry<PrefixInfo>>| #[trigger]
                    state.soft_prefixes.contains((key, list)) && list.contains(e)
            } by {
            lemma_in_store(state.soft_prefixes, key, e);
            assert(new.contains(e) <==> if e.data.prefix == prefix_info.prefix {
                timer == Some(e)
            } else {
                timers.contains(e)
            });
            if new.contains(e) {
                assert(new.len() > 0);
                assert(all.contains((key, new)));
                assert(out.soft_prefixes.contains((key, new)));
            }
            if exists|list: Seq<LifecycleEntry<PrefixInfo>>| #[trigger]
                out.soft_prefixes.contains((key, list)) && list.contains(e) {
                let list = choose|list: Seq<LifecycleEntry<PrefixInfo>>| #[trigger]
                    out.soft_prefixes.contains((key, list)) && list.contains(e);
                assert(all.contains((key, list)));
                assert(list == new);
            }
        }
    }
}

/// In a store without empty lists, every list that is there has an entry.
proof fn lemma_listed<T>(store: Store<T>)
    requires
        unique_keys(store),
        all_nonempty(store),
    ensures
        forall|k: Key, list: Seq<LifecycleEntry<T>>| #[trigger]
            store.contains((k, list)) ==> list.len() > 0,
{
    assert forall|k: Key, list: Seq<LifecycleEntry<T>>| #[trigger]
        store.contains((k, list)) implies list.len() > 0 by {
        law_lookup(store, k);
        assert(lookup(store, k) == Some(list));
        assert(has_key(store, k));
    }
}

/// The entries of a router in a store.
proof fn lemma_in_store<T>(store: Store<T>, key: Key, e: LifecycleEntry<T>)
    requires
        unique_keys(store),
    ensures
        entries_at(store, key).contains(e) <==> exists|list: Seq<LifecycleEntry<T>>| #[trigger]
            store.contains((key, list)) && list.contains(e),
{
    law_lookup(store, key);
    if entries_at(store, key).contains(e) {
        assert(lookup(store, key) is Some);
        assert(store.contains((key, entries_at(store, key))));
    }
    if exists|list: Seq<LifecycleEntry<T>>| #[trigger]
        store.contains((key, list)) && list.contains(e) {
        let list = choose|list: Seq<LifecycleEntry<T>>| #[trigger]
            store.contains((key, list)) && list.contains(e);
        assert(lookup(store, key) == Some(list));
    }
}

proof fn lemma_lease_dropped(store: Store<PrefixInfo>, key: Key, prefix: Ipv6Addr)
    requires
        unique_keys(store),
        all_nonempty(store),
    ensures
        ({
            let out = nonempty(put(store, key, drop_lease(entries_at(store, key), prefix)));
            forall|k: Key, left: Seq<LifecycleEntry<PrefixInfo>>| #[trigger]
                out.contains((k, left)) <==> left.len() > 0 && if k == key {
                    exists|list: Seq<LifecycleEntry<PrefixInfo>>| #[trigger]
                        store.contains((key, list)) && left == list.filter(
                            |e: LifecycleEntry<PrefixInfo>| e.data.prefix != prefix,
                        )
                } else {
                    store.contains((k, left))
                }
        }),
{
    let list = entries_at(store, key);
    let new = drop_lease(list, prefix);
    let all = put(store, key, new);
    let out = nonempty(all);
    let p = |e: LifecycleEntry<PrefixInfo>| e.data.prefix != prefix;
    crate::table::law_put(store, key, new);
    law_put_entries(store, key, new);
    lemma_nonempty_entries(all);
    law_lookup(store, key);
    crate::repetition::lemma_filter_same(list, for_other(prefix), p);
    assert forall|k: Key, left: Seq<LifecycleEntry<PrefixInfo>>| #[trigger]
        out.contains((k, left)) <==> left.len() > 0 && if k == key {
            exists|l: Seq<LifecycleEntry<PrefixInfo>>| #[trigger]
                store.contains((key, l)) && left == l.filter(p)
        } else {
            store.contains((k, left))
        } by {
        assert(out.contains((k, left)) <==> all.contains((k, left)) && left.len() > 0);
        if k == key {
            if left == new && left.len() > 0 {
                reveal(Seq::filter);
                assert(lookup(store, key) is Some);
                assert(store.contains((key, list)));
            }
            if exists|l: Seq<LifecycleEntry<PrefixInfo>>| #[trigger]
                store.contains((key, l)) && left == l.filter(p) {
                let l = choose|l: Seq<LifecycleEntry<PrefixInfo>>| #[trigger]
                    store.contains((key, l)) && left == l.filter(p);
                assert(lookup(store, key) == Some(l));
            }
        }
    }
}

/// Announcing a prefix with valid lifetime zero ends the lease that its router
/// has for the address, and its preferred lifetime. Everything else stays.
pub proof fn law_prefix_withdrawn(
    state: LifecycleView,
    key: Key,
    prefix_info: PrefixInfo,
    preferred_lifetime: Duration,
    now: Instant,
)
    requires
        state.wf(),
    ensures
        ({
            let event = detector::EventView::Prefix {
                key,
                prefix_info,
                lifetime: Duration { nanos: 0 },
                preferred_lifetime,
            };
            let out = observed(state, event, now);
            &&& out.routers == state.routers
            &&& out.servers == state.servers
            &&& out.domains == state.domains
            &&& forall|k: Key, left: Seq<LifecycleEntry<PrefixInfo>>| #[trigger]
                out.prefixes.contains((k, left)) <==> left.len() > 0 && if k == key {
                    exists|list: Seq<LifecycleEntry<PrefixInfo>>| #[trigger]
                        state.prefixes.contains((key, list)) && left == list.filter(
                            |e: LifecycleEntry<PrefixInfo>| e.data.prefix != prefix_info.prefix,
                        )
                } else {
                    state.prefixes.contains((k, left))
                }
            &&& forall|k: Key, left: Seq<LifecycleEntry<PrefixInfo>>| #[trigger]
                out.soft_prefixes.contains((k, left)) <==> left.len() > 0 && if k == key {
                    exists|list: Seq<LifecycleEntry<PrefixInfo>>| #[trigger]
                        state.soft_prefixes.contains((key, list)) && left == list.filter(
                            |e: LifecycleEntry<PrefixInfo>| e.data.prefix != prefix_info.prefix,
                        )
                } else {
                    state.soft_prefixes.contains((k, left))
                }
        }),
{
    lemma_lease_dropped(state.prefixes, key, prefix_info.prefix);
    lemma_lease_dropped(state.soft_prefixes, key, prefix_info.prefix);
}

/// Every observation is reported by one change, in its order: a router or a
/// prefix with lifetime zero as expired, everything else as announced.
pub proof fn law_reported(events: Seq<detector::EventView>)
    ensures
        reported(events).len() == events.len(),
        forall|i: int|
            0 <= i < events.len() ==> #[trigger] reported(events)[i] == match events[i] {
                detector::EventView::Router { key, managed, other_config, lifetime } => {
                    if lifetime.nanos == 0 {
                        EventView::RouterExpiry { key }
                    } else {
                        EventView::Router { key, managed, other_config }
                    }
                },
                detector::EventView::DnsServers(key, servers) => EventView::DnsServers {
                    key,
                    servers,
                },
                detector::EventView::DnsDomains(key, domains) => EventView::DnsDomains {
                    key,
                    domains,
                },
                detector::EventView::Prefix { key, prefix_info, lifetime, preferred_lifetime } => {
                    if lifetime.nanos == 0 {
                        EventView::PrefixExpiry { key, prefix_info }
                    } else {
                        EventView::Prefix { key, prefix_info }
                    }
                },
            },
{
}

// Expiry

/// What a store holds after routers and lapsed entries are gone.
proof fn lemma_store_expired<T>(
    store: Store<T>,
    routers: Seq<(Key, Instant)>,
    now: Instant,
)
    requires
        unique_keys(store),
        unique_keys(routers),
    ensures
        ({
            let out = live_store(without_all(store, lapsed_routers(routers, now)), now);
            &&& unique_keys(out)
            &&& forall|k: Key, left: Seq<LifecycleEntry<T>>| #[trigger]
                out.contains((k, left)) <==> {
                    &&& forall|t: Instant| #[trigger]
                        routers.contains((k, t)) ==> t.nanos > now.nanos
                    &&& exists|list: Seq<LifecycleEntry<T>>| #[trigger]
                        store.contains((k, list)) && left == list.filter(
                            |e: LifecycleEntry<T>| e.expires_at.nanos > now.nanos,
                        )
                }
        }),
{
    let gone = lapsed_routers(routers, now);
    let rest = without_all(store, gone);
    let out = live_store(rest, now);
    let p = |e: LifecycleEntry<T>| e.expires_at.nanos > now.nanos;
    lemma_without_all(store, gone);
    lemma_live_store(rest, now);
    assert forall|k: Key, left: Seq<LifecycleEntry<T>>| #[trigger]
        out.contains((k, left)) <==> {
            &&& forall|t: Instant| #[trigger] routers.contains((k, t)) ==> t.nanos > now.nanos
            &&& exists|list: Seq<LifecycleEntry<T>>| #[trigger]
                store.contains((k, list)) && left == list.filter(p)
        } by {
        let list = entries_at(store, k);
        lemma_router_there(routers, k, now);
        law_lookup(store, k);
        law_lookup(out, k);
        assert(lookup(out, k) == Some(left) <==> out.contains((k, left)));
        assert(has_key(out, k) <==> has_key(rest, k));
        assert(has_key(rest, k) <==> has_key(store, k) && !gone.contains(k));
        assert(entries_at(out, k) == live(entries_at(rest, k), now));
        crate::repetition::lemma_filter_same(list, is_live(now), p);
        if out.contains((k, left)) {
            assert(store.contains((k, list)));
        }
        if exists|l: Seq<LifecycleEntry<T>>| #[trigger]
            store.contains((k, l)) && left == l.filter(p) {
            let l = choose|l: Seq<LifecycleEntry<T>>| #[trigger]
                store.contains((k, l)) && left == l.filter(p);
            assert(lookup(store, k) == Some(l));
        }
    }
}

/// A router is not among the lapsed ones if its deadline is still to come, or
/// if it has none.
proof fn lemma_router_there(routers: Seq<(Key, Instant)>, key: Key, now: Instant)
    requires
        unique_keys(routers),
    ensures
        !lapsed_routers(routers, now).contains(key) <==> forall|t: Instant| #[trigger]
            routers.contains((key, t)) ==> t.nanos > now.nanos,
{
    law_lookup(routers, key);
    lemma_lapsed_router(routers, now, key);
    if let Some(t) = lookup(routers, key) {
        assert(routers.contains((key, t)));
    }
    assert forall|t: Instant| #[trigger] routers.contains((key, t)) implies lookup(routers, key)
        == Some(t) by {}
}

/// At time `now`, exactly what expires later is left, in its order, and of
/// routers that are over nothing is left at all.
pub proof fn law_expired(state: LifecycleView, now: Instant)
    requires
        state.wf(),
    ensures
        ({
            let out = expired(state, now);
            &&& out.routers == state.routers.filter(|e: (Key, Instant)| e.1.nanos > now.nanos)
            &&& forall|k: Key, left: Seq<LifecycleEntry<Group<Ipv6Addr>>>| #[trigger]
                out.servers.contains((k, left)) <==> {
                    &&& forall|t: Instant| #[trigger]
                        state.routers.contains((k, t)) ==> t.nanos > now.nanos
                    &&& exists|list: Seq<LifecycleEntry<Group<Ipv6Addr>>>| #[trigger]
                        state.servers.contains((k, list)) && left == list.filter(
                            |e: LifecycleEntry<Group<Ipv6Addr>>| e.expires_at.nanos > now.nanos,
                        )
                }
            &&& forall|k: Key, left: Seq<LifecycleEntry<Group<Seq<char>>>>| #[trigger]
                out.domains.contains((k, left)) <==> {
                    &&& forall|t: Instant| #[trigger]
                        state.routers.contains((k, t)) ==> t.nanos > now.nanos
                    &&& exists|list: Seq<LifecycleEntry<Group<Seq<char>>>>| #[trigger]
                        state.domains.contains((k, list)) && left == list.filter(
                            |e: LifecycleEntry<Group<Seq<char>>>| e.expires_at.nanos > now.nanos,
                        )
                }
            &&& forall|k: Key, left: Seq<LifecycleEntry<PrefixInfo>>| #[trigger]
                out.prefixes.contains((k, left)) <==> left.len() > 0 && {
                    &&& forall|t: Instant| #[trigger]
                        state.routers.contains((k, t)) ==> t.nanos > now.nanos
                    &&& exists|list: Seq<LifecycleEntry<PrefixInfo>>| #[trigger]
                        state.prefixes.contains((k, list)) && left == list.filter(
                            |e: LifecycleEntry<PrefixInfo>| e.expires_at.nanos > now.nanos,
                        )
                }
            &&& forall|k: Key, left: Seq<LifecycleEntry<PrefixInfo>>| #[trigger]
                out.soft_prefixes.contains((k, left)) <==> left.len() > 0 && {
                    &&& forall|t: Instant| #[trigger]
                        state.routers.contains((k, t)) ==> t.nanos > now.nanos
                    &&& exists|list: Seq<LifecycleEntry<PrefixInfo>>| #[trigger]
                        state.soft_prefixes.contains((k, list)) && left == list.filter(
                            |e: LifecycleEntry<PrefixInfo>| e.expires_at.nanos > now.nanos,
                        )
                }
        }),
{
    let gone = lapsed_routers(state.routers, now);
    lemma_store_expired(state.servers, state.routers, now);
    lemma_store_expired(state.domains, state.routers, now);
    lemma_store_expired(state.prefixes, state.routers, now);
    lemma_store_expired(state.soft_prefixes, state.routers, now);
    lemma_nonempty_entries(live_store(without_all(state.prefixes, gone), now));
    lemma_nonempty_entries(live_store(without_all(state.soft_prefixes, gone), now));
}

/// Some entry lapsed exactly if not all are kept.
proof fn lemma_some_lapsed<T>(list: Seq<LifecycleEntry<T>>, now: Instant)
    ensures
        live(list, now).len() <= list.len(),
        live(list, now).len() != list.len() <==> exists|e: LifecycleEntry<T>| #[trigger]
            list.contains(e) && e.expires_at.nanos <= now.nanos,
    decreases list.len(),
{
    reveal(Seq::filter);
    if list.len() > 0 {
        let rest = list.drop_last();
        let last = list.last();
        lemma_some_lapsed(rest, now);
        assert(list[list.len() - 1] == last);
        if exists|e: LifecycleEntry<T>| #[trigger]
            rest.contains(e) && e.expires_at.nanos <= now.nanos {
            let e = choose|e: LifecycleEntry<T>| #[trigger]
                rest.contains(e) && e.expires_at.nanos <= now.nanos;
            let i = choose|i: int| 0 <= i < rest.len() && rest[i] == e;
            assert(list[i] == e);
            assert(list.contains(e));
        }
        if exists|e: LifecycleEntry<T>| #[trigger]
            list.contains(e) && e.expires_at.nanos <= now.nanos {
            let e = choose|e: LifecycleEntry<T>| #[trigger]
                list.contains(e) && e.expires_at.nanos <= now.nanos;
            let i = choose|i: int| 0 <= i < list.len() && list[i] == e;
            if i < rest.len() {
                assert(rest[i] == e);
                assert(rest.contains(e));
            }
        }
        if last.expires_at.nanos <= now.nanos {
            assert(list.contains(last));
        }
    }
}

/// The data of lapsed entries.
proof fn lemma_data_lapsed<T>(list: Seq<LifecycleEntry<T>>, now: Instant, data: T)
    ensures
        data_of(lapsed(list, now)).contains(data) <==> exists|e: LifecycleEntry<T>| #[trigger]
            list.contains(e) && e.data == data && e.expires_at.nanos <= now.nanos,
{
    let gone = lapsed(list, now);
    if data_of(gone).contains(data) {
        let k = choose|k: int| 0 <= k < data_of(gone).len() && data_of(gone)[k] == data;
        list.lemma_filter_pred(has_lapsed(now), k);
        list.lemma_filter_contains_rev(has_lapsed(now), gone[k]);
        assert(list.contains(gone[k]));
    }
    if exists|e: LifecycleEntry<T>| #[trigger]
        list.contains(e) && e.data == data && e.expires_at.nanos <= now.nanos {
        let e = choose|e: LifecycleEntry<T>| #[trigger]
            list.contains(e) && e.data == data && e.expires_at.nanos <= now.nanos;
        let i = choose|i: int| 0 <= i < list.len() && list[i] == e;
        list.lemma_filter_contains(has_lapsed(now), i);
        let k = choose|k: int| 0 <= k < gone.len() && gone[k] == e;
        assert(data_of(gone)[k] == data);
    }
}

/// A prefix is lost exactly if an entry of it lapsed.
proof fn lemma_lost(store: Store<PrefixInfo>, key: Key, info: PrefixInfo, now: Instant)
    requires
        unique_keys(store),
    ensures
        data_of(lapsed(entries_at(store, key), now)).contains(info) <==> exists|
            list: Seq<LifecycleEntry<PrefixInfo>>,
            e: LifecycleEntry<PrefixInfo>,
        | #[trigger]
            store.contains((key, list)) && #[trigger] list.contains(e) && e.data == info
                && e.expires_at.nanos <= now.nanos,
{
    let list = entries_at(store, key);
    lemma_data_lapsed(list, now, info);
    law_lookup(store, key);
    if data_of(lapsed(list, now)).contains(info) {
        let e = choose|e: LifecycleEntry<PrefixInfo>| #[trigger]
            list.contains(e) && e.data == info && e.expires_at.nanos <= now.nanos;
        assert(lookup(store, key) is Some);
        assert(store.contains((key, list)) && list.contains(e));
    }
    if exists|l: Seq<LifecycleEntry<PrefixInfo>>, e: LifecycleEntry<PrefixInfo>| #[trigger]
        store.contains((key, l)) && #[trigger] l.contains(e) && e.data == info
            && e.expires_at.nanos <= now.nanos {
        let (l, e) = choose|l: Seq<LifecycleEntry<PrefixInfo>>, e: LifecycleEntry<PrefixInfo>|
            #[trigger]
            store.contains((key, l)) && #[trigger] l.contains(e) && e.data == info
                && e.expires_at.nanos <= now.nanos;
        assert(lookup(store, key) == Some(l));
    }
}

/// A router, a prefix and a preferred lifetime are reported exactly when they
/// are over, the latter two only of a router that is still there.
pub proof fn law_expiry_is_reported(state: LifecycleView, now: Instant, key: Key, info: PrefixInfo)
    requires
        state.wf(),
    ensures
        ({
            let there = forall|t: Instant| #[trigger]
                state.routers.contains((key, t)) ==> t.nanos > now.nanos;
            &&& expiries(state, now).contains(EventView::RouterExpiry { key }) <==> !there
            &&& expiries(state, now).contains(EventView::PrefixExpiry { key, prefix_info: info })
                <==> there && exists|
                list: Seq<LifecycleEntry<PrefixInfo>>,
                e: LifecycleEntry<PrefixInfo>,
            | #[trigger]
                state.prefixes.contains((key, list)) && #[trigger] list.contains(e) && e.data
                    == info && e.expires_at.nanos <= now.nanos
            &&& soft_expiries(state, now).contains(
                EventView::PrefixSoftExpiry { key, prefix_info: info },
            ) <==> there && exists|
                list: Seq<LifecycleEntry<PrefixInfo>>,
                e: LifecycleEntry<PrefixInfo>,
            | #[trigger]
                state.soft_prefixes.contains((key, list)) && #[trigger] list.contains(e) && e.data
                    == info && e.expires_at.nanos <= now.nanos
        }),
{
    lemma_router_there(state.routers, key, now);
    lemma_lapsed_router(state.routers, now, key);
    law_expiry_reports(state, now, key);
    lemma_lost(state.prefixes, key, info, now);
    lemma_lost(state.soft_prefixes, key, info, now);
    assert(prefix_lost(key, info) == EventView::PrefixExpiry { key, prefix_info: info });
    assert(prefix_deprecated(key, info) == EventView::PrefixSoftExpiry { key, prefix_info: info });
}

proof fn lemma_groups_left<T>(store: Store<Group<T>>, key: Key, left: Seq<Group<T>>, now: Instant)
    requires
        unique_keys(store),
    ensures
        (live(entries_at(store, key), now).len() != entries_at(store, key).len() && left == data_of(
            live(entries_at(store, key), now),
        )) <==> exists|list: Seq<LifecycleEntry<Group<T>>>, e: LifecycleEntry<Group<T>>|
            #[trigger]
            store.contains((key, list)) && #[trigger] list.contains(e) && e.expires_at.nanos
                <= now.nanos && left == list.filter(
                |e: LifecycleEntry<Group<T>>| e.expires_at.nanos > now.nanos,
            ).map_values(|e: LifecycleEntry<Group<T>>| e.data),
{
    let list = entries_at(store, key);
    let p = |e: LifecycleEntry<Group<T>>| e.expires_at.nanos > now.nanos;
    let f = |e: LifecycleEntry<Group<T>>| e.data;
    crate::repetition::lemma_filter_same(list, is_live(now), p);
    assert(list.filter(p).map_values(f) =~= data_of(live(list, now)));
    lemma_some_lapsed(list, now);
    law_lookup(store, key);
    if live(list, now).len() != list.len() && left == data_of(live(list, now)) {
        let e = choose|e: LifecycleEntry<Group<T>>| #[trigger]
            list.contains(e) && e.expires_at.nanos <= now.nanos;
        assert(lookup(store, key) is Some);
        assert(store.contains((key, list)) && list.contains(e));
    }
    if exists|l: Seq<LifecycleEntry<Group<T>>>, e: LifecycleEntry<Group<T>>| #[trigger]
        store.contains((key, l)) && #[trigger] l.contains(e) && e.expires_at.nanos <= now.nanos
            && left == l.filter(p).map_values(f) {
        let (l, e) = choose|l: Seq<LifecycleEntry<Group<T>>>, e: LifecycleEntry<Group<T>>|
            #[trigger]
            store.contains((key, l)) && #[trigger] l.contains(e) && e.expires_at.nanos
                <= now.nanos && left == l.filter(p).map_values(f);
        assert(lookup(store, key) == Some(l));
    }
}

/// Where a group of DNS servers is over, all that the router has left is
/// reported, and otherwise nothing; and likewise for search domains.
pub proof fn law_dns_expiry_is_reported(
    state: LifecycleView,
    now: Instant,
    key: Key,
    servers: Seq<Group<Ipv6Addr>>,
    domains: Seq<Group<Seq<char>>>,
)
    requires
        state.wf(),
    ensures
        ({
            let there = forall|t: Instant| #[trigger]
                state.routers.contains((key, t)) ==> t.nanos > now.nanos;
            &&& expiries(state, now).contains(EventView::DnsServers { key, servers })
                <==> there && exists|
                list: Seq<LifecycleEntry<Group<Ipv6Addr>>>,
                e: LifecycleEntry<Group<Ipv6Addr>>,
            | #[trigger]
                state.servers.contains((key, list)) && #[trigger] list.contains(e)
                    && e.expires_at.nanos <= now.nanos && servers == list.filter(
                    |e: LifecycleEntry<Group<Ipv6Addr>>| e.expires_at.nanos > now.nanos,
                ).map_values(|e: LifecycleEntry<Group<Ipv6Addr>>| e.data)
            &&& expiries(state, now).contains(EventView::DnsDomains { key, domains })
                <==> there && exists|
                list: Seq<LifecycleEntry<Group<Seq<char>>>>,
                e: LifecycleEntry<Group<Seq<char>>>,
            | #[trigger]
                state.domains.contains((key, list)) && #[trigger] list.contains(e)
                    && e.expires_at.nanos <= now.nanos && domains == list.filter(
                    |e: LifecycleEntry<Group<Seq<char>>>| e.expires_at.nanos > now.nanos,
                ).map_values(|e: LifecycleEntry<Group<Seq<char>>>| e.data)
        }),
{
    lemma_router_there(state.routers, key, now);
    lemma_lapsed_router(state.routers, now, key);
    law_expiry_reports(state, now, key);
    lemma_groups_left(state.servers, key, servers, now);
    lemma_groups_left(state.domains, key, domains, now);
    assert(servers_left(key, servers) == EventView::DnsServers { key, servers });
    assert(domains_left(key, domains) == EventView::DnsDomains { key, domains });
}

/// Expiry reports expired routers and prefixes and the DNS data that is left,
/// and nothing of another kind; and apart from these, deprecated prefixes
/// alone.
pub proof fn law_kinds_of_expiry(state: LifecycleView, now: Instant)
    ensures
        forall|i: int|
            0 <= i < expiries(state, now).len() ==> match #[trigger] expiries(state, now)[i] {
                EventView::RouterExpiry { key } => true,
                EventView::DnsServers { key, servers } => true,
                EventView::DnsDomains { key, domains } => true,
                EventView::PrefixExpiry { key, prefix_info } => true,
                _ => false,
            },
        forall|i: int|
            0 <= i < soft_expiries(state, now).len() ==> match #[trigger] soft_expiries(
                state,
                now,
            )[i] {
                EventView::PrefixSoftExpiry { key, prefix_info } => true,
                _ => false,
            },
{
}

// Nothing is reported twice

proof fn lemma_left_once<T>(store: Store<T>, now: Instant)
    requires
        unique_keys(store),
    ensures
        forall|i: int, j: int|
            0 <= i < j < remainders(store, now).len() ==> (#[trigger] remainders(store, now)[i]).0
                != (#[trigger] remainders(store, now)[j]).0,
        forall|i: int|
            0 <= i < remainders(store, now).len() ==> has_key(
                store,
                (#[trigger] remainders(store, now)[i]).0,
            ),
    decreases store.len(),
{
    if store.len() > 0 {
        let rest = store.drop_last();
        let before = remainders(rest, now);
        let out = remainders(store, now);
        let n = store.len() - 1;
        lemma_left_once(rest, now);
        assert forall|i: int| 0 <= i < before.len() implies has_key(store, before[i].0)
            && before[i].0 != store[n].0 by {
            assert(has_key(rest, before[i].0));
            let k = choose|k: int| 0 <= k < rest.len() && (#[trigger] rest[k]).0 == before[i].0;
            assert(store[k].0 != store[n].0);
        }
        assert forall|i: int| 0 <= i < out.len() implies has_key(store, (#[trigger] out[i]).0) by {
            if i < before.len() {
                assert(out[i] == before[i]);
            } else {
                assert(out[i].0 == store[n].0);
            }
        }
        assert forall|i: int, j: int| 0 <= i < j < out.len() implies (#[trigger] out[i]).0 != (
        #[trigger] out[j]).0 by {
            assert(out[i] == before[i]);
            if j < before.len() {
                assert(out[j] == before[j]);
            }
        }
    }
}

proof fn lemma_lost_once(store: Store<PrefixInfo>, now: Instant)
    requires
        unique_keys(store),
        forall|i: int| 0 <= i < store.len() ==> distinct_leases((#[trigger] store[i]).1),
    ensures
        forall|i: int, j: int|
            0 <= i < j < losses(store, now).len() ==> #[trigger] losses(store, now)[i]
                != #[trigger] losses(store, now)[j],
        forall|i: int|
            0 <= i < losses(store, now).len() ==> has_key(
                store,
                (#[trigger] losses(store, now)[i]).0,
            ),
    decreases store.len(),
{
    if store.len() > 0 {
        let rest = store.drop_last();
        let n = store.len() - 1;
        let (key, entries) = store.last();
        let before = losses(rest, now);
        let gone = lapsed(entries, now);
        let out = losses(store, now);
        assert forall|i: int| 0 <= i < rest.len() implies distinct_leases(
            (#[trigger] rest[i]).1,
        ) by {
            assert(rest[i] == store[i]);
        }
        lemma_lost_once(rest, now);
        assert(distinct_leases(store[n].1));
        lemma_filter_distinct(entries, has_lapsed(now));
        assert forall|i: int| 0 <= i < before.len() implies has_key(store, before[i].0)
            && before[i].0 != store[n].0 by {
            assert(has_key(rest, before[i].0));
            let k = choose|k: int| 0 <= k < rest.len() && (#[trigger] rest[k]).0 == before[i].0;
            assert(store[k].0 != store[n].0);
        }
        assert forall|i: int| before.len() <= i < out.len() implies #[trigger] out[i] == (
            key,
            gone[i - before.len()].data,
        ) by {}
        assert forall|i: int| 0 <= i < out.len() implies has_key(store, (#[trigger] out[i]).0) by {
            if i < before.len() {
                assert(out[i] == before[i]);
            } else {
                assert(out[i].0 == store[n].0);
            }
        }
        assert forall|i: int, j: int| 0 <= i < j < out.len() implies #[trigger] out[i]
            != #[trigger] out[j] by {
            if j < before.len() {
                assert(out[i] == before[i] && out[j] == before[j]);
            } else if i < before.len() {
                assert(out[i] == before[i]);
            } else {
                let (a, b) = (gone[i - before.len()], gone[j - before.len()]);
                assert(a.data.prefix != b.data.prefix);
            }
        }
    }
}

proof fn lemma_others_distinct(store: Store<PrefixInfo>, gone: Seq<Key>)
    requires
        unique_keys(store),
        forall|key: Key| distinct_leases(#[trigger] entries_at(store, key)),
    ensures
        unique_keys(without_all(store, gone)),
        forall|i: int|
            0 <= i < without_all(store, gone).len() ==> distinct_leases(
                (#[trigger] without_all(store, gone)[i]).1,
            ),
{
    let p = |e: (Key, Seq<LifecycleEntry<PrefixInfo>>)| !gone.contains(e.0);
    let out = without_all(store, gone);
    lemma_filter_table(store, p);
    assert forall|i: int| 0 <= i < out.len() implies distinct_leases((#[trigger] out[i]).1) by {
        let (key, list) = out[i];
        assert(out.contains((key, list)));
        crate::repetition::lemma_filter_members(store, p, (key, list));
        law_lookup(store, key);
        assert(entries_at(store, key) == list);
    }
}

/// Where in a report of expiry a change stands: routers first, then DNS
/// servers, search domains, and prefixes.
pub open spec fn stage(event: EventView) -> int {
    match event {
        EventView::RouterExpiry { .. } => 0,
        EventView::DnsServers { .. } => 1,
        EventView::DnsDomains { .. } => 2,
        _ => 3,
    }
}

/// No expiry is reported twice, and what is left of the DNS data of a router
/// is reported at most once. Routers are reported first and prefixes last.
pub proof fn law_expiry_reported_once(state: LifecycleView, now: Instant)
    requires
        state.wf(),
    ensures
        forall|i: int, j: int|
            0 <= i < j < expiries(state, now).len() ==> {
                let (x, y) = (
                    #[trigger] expiries(state, now)[i],
                    #[trigger] expiries(state, now)[j],
                );
                &&& x != y
                &&& stage(x) <= stage(y)
                &&& match (x, y) {
                    (
                        EventView::DnsServers { key: a, .. },
                        EventView::DnsServers { key: b, .. },
                    ) => a != b,
                    (
                        EventView::DnsDomains { key: a, .. },
                        EventView::DnsDomains { key: b, .. },
                    ) => a != b,
                    _ => true,
                }
            },
        forall|i: int, j: int|
            0 <= i < j < soft_expiries(state, now).len() ==> #[trigger] soft_expiries(state, now)[i]
                != #[trigger] soft_expiries(state, now)[j],
{
    let gone = lapsed_routers(state.routers, now);
    let over = state.routers.filter(|e: (Key, Instant)| e.1.nanos <= now.nanos);
    let (s, d) = (without_all(state.servers, gone), without_all(state.domains, gone));
    let (p, q) = (without_all(state.prefixes, gone), without_all(state.soft_prefixes, gone));
    lemma_filter_table(state.routers, |e: (Key, Instant)| e.1.nanos <= now.nanos);
    lemma_filter_table(
        state.servers,
        |e: (Key, Seq<LifecycleEntry<Group<Ipv6Addr>>>)| !gone.contains(e.0),
    );
    lemma_filter_table(
        state.domains,
        |e: (Key, Seq<LifecycleEntry<Group<Seq<char>>>>)| !gone.contains(e.0),
    );
    lemma_left_once(s, now);
    lemma_left_once(d, now);
    lemma_others_distinct(state.prefixes, gone);
    lemma_others_distinct(state.soft_prefixes, gone);
    lemma_lost_once(p, now);
    lemma_lost_once(q, now);
    let (b, c, l) = (remainders(s, now), remainders(d, now), losses(p, now));
    let out = expiries(state, now);
    let (m, n, o) = (
        gone.len() as int,
        (gone.len() + b.len()) as int,
        (gone.len() + b.len() + c.len()) as int,
    );
    assert(out.len() == o + l.len());
    assert forall|i: int| 0 <= i < out.len() implies #[trigger] out[i] == if i < m {
        EventView::RouterExpiry { key: over[i].0 }
    } else if i < n {
        EventView::DnsServers { key: b[i - m].0, servers: b[i - m].1 }
    } else if i < o {
        EventView::DnsDomains { key: c[i - n].0, domains: c[i - n].1 }
    } else {
        EventView::PrefixExpiry { key: l[i - o].0, prefix_info: l[i - o].1 }
    } by {}
    assert forall|i: int, j: int| 0 <= i < j < out.len() implies {
        let (x, y) = (#[trigger] out[i], #[trigger] out[j]);
        &&& x != y
        &&& stage(x) <= stage(y)
        &&& match (x, y) {
            (EventView::DnsServers { key: a, .. }, EventView::DnsServers { key: b, .. }) => a != b,
            (EventView::DnsDomains { key: a, .. }, EventView::DnsDomains { key: b, .. }) => a != b,
            _ => true,
        }
    } by {
        if j < m {
            assert(over[i].0 != over[j].0);
        } else if m <= i && j < n {
            assert(b[i - m].0 != b[j - m].0);
        } else if n <= i && j < o {
            assert(c[i - n].0 != c[j - n].0);
        } else if o <= i {
            assert(l[i - o] != l[j - o]);
        }
    }
    let soft = soft_expiries(state, now);
    let r = losses(q, now);
    assert forall|i: int, j: int| 0 <= i < j < soft.len() implies #[trigger] soft[i]
        != #[trigger] soft[j] by {
        assert(r[i] != r[j]);
        assert(soft[i] == (EventView::PrefixSoftExpiry { key: r[i].0, prefix_info: r[i].1 }));
        assert(soft[j] == (EventView::PrefixSoftExpiry { key: r[j].0, prefix_info: r[j].1 }));
    }
}

/// A deadline can be told exactly if the point in time that lies the lifetime
/// ahead can be represented.
pub proof fn law_representable(event: detector::EventView, now: Instant)
    ensures
        representable(event, now) <==> match event {
            detector::EventView::Router { lifetime, .. } => now.nanos + lifetime.nanos <= u128::MAX,
            detector::EventView::DnsServers(key, servers) => forall|i: int|
                0 <= i < servers.len() ==> now.nanos + (#[trigger] servers[i]).lifetime.nanos
                    <= u128::MAX,
            detector::EventView::DnsDomains(key, domains) => forall|i: int|
                0 <= i < domains.len() ==> now.nanos + (#[trigger] domains[i]).lifetime.nanos
                    <= u128::MAX,
            detector::EventView::Prefix { lifetime, preferred_lifetime, .. } => {
                lifetime.nanos != 0 ==> {
                    &&& now.nanos + lifetime.nanos <= u128::MAX
                    &&& preferred_lifetime.nanos != lifetime.nanos ==> now.nanos
                        + preferred_lifetime.nanos <= u128::MAX
                }
            },
        },
{
}

/// The next deadline is reached by something, and nothing is over before it;
/// there is none exactly if there is nothing that could be over.
pub proof fn law_next_expiry(state: LifecycleView, next: Option<Instant>)
    requires
        state.next_deadline(next),
    ensures
        ({
            let due = |t: Instant|
                {
                    ||| exists|i: int|
                        0 <= i < state.routers.len() && (#[trigger] state.routers[i]).1 == t
                    ||| exists|i: int, j: int|
                        0 <= i < state.servers.len() && 0 <= j < state.servers[i].1.len() && (
                        #[trigger] state.servers[i].1[j]).expires_at == t
                    ||| exists|i: int, j: int|
                        0 <= i < state.domains.len() && 0 <= j < state.domains[i].1.len() && (
                        #[trigger] state.domains[i].1[j]).expires_at == t
                    ||| exists|i: int, j: int|
                        0 <= i < state.prefixes.len() && 0 <= j < state.prefixes[i].1.len() && (
                        #[trigger] state.prefixes[i].1[j]).expires_at == t
                    ||| exists|i: int, j: int|
                        0 <= i < state.soft_prefixes.len() && 0 <= j
                            < state.soft_prefixes[i].1.len() && (
                        #[trigger] state.soft_prefixes[i].1[j]).expires_at == t
                };
            match next {
                Some(t) => due(t) && forall|u: Instant| #[trigger] due(u) ==> t.nanos <= u.nanos,
                None => forall|u: Instant| !#[trigger] due(u),
            }
        }),
{
    let due = |t: Instant|
        {
            ||| exists|i: int| 0 <= i < state.routers.len() && (#[trigger] state.routers[i]).1 == t
            ||| exists|i: int, j: int|
                0 <= i < state.servers.len() && 0 <= j < state.servers[i].1.len() && (
                #[trigger] state.servers[i].1[j]).expires_at == t
            ||| exists|i: int, j: int|
                0 <= i < state.domains.len() && 0 <= j < state.domains[i].1.len() && (
                #[trigger] state.domains[i].1[j]).expires_at == t
            ||| exists|i: int, j: int|
                0 <= i < state.prefixes.len() && 0 <= j < state.prefixes[i].1.len() && (
                #[trigger] state.prefixes[i].1[j]).expires_at == t
            ||| exists|i: int, j: int|
                0 <= i < state.soft_prefixes.len() && 0 <= j < state.soft_prefixes[i].1.len() && (
                #[trigger] state.soft_prefixes[i].1[j]).expires_at == t
        };
    assert forall|t: Instant| #[trigger] due(t) == state.deadline(t) by {}
}

// From announcement to expiry

/// DNS servers that were announced at time `then` by a router that is still
/// there are valid at time `now`, group by group, exactly if less time has
/// passed than the lifetime of the group.
pub proof fn law_servers_live_their_lifetime(
    state: LifecycleView,
    key: Key,
    groups: Seq<Group<Ipv6Addr>>,
    then: Instant,
    now: Instant,
    n: int,
)
    requires
        state.wf(),
        forall|i: int|
            0 <= i < groups.len() ==> then.nanos + (#[trigger] groups[i]).lifetime.nanos
                <= u128::MAX,
        forall|t: Instant| #[trigger] state.routers.contains((key, t)) ==> t.nanos > now.nanos,
        0 <= n < groups.len(),
    ensures
        ({
            let told = observed(state, detector::EventView::DnsServers(key, groups), then);
            (exists|
                list: Seq<LifecycleEntry<Group<Ipv6Addr>>>,
                e: LifecycleEntry<Group<Ipv6Addr>>,
            | #[trigger]
                expired(told, now).servers.contains((key, list)) && #[trigger] list.contains(e)
                    && e.data == groups[n]) <==> then.nanos + groups[n].lifetime.nanos > now.nanos
        }),
{
    let event = detector::EventView::DnsServers(key, groups);
    let told = observed(state, event, then);
    let out = expired(told, now);
    let all = group_entries(groups, then);
    law_observed_wf(state, event, then);
    law_servers_announced(state, key, groups, then);
    law_expired(told, now);
    lemma_groups_replaced(state.servers, key, groups, then);
    lemma_groups_live(told.servers, out.servers, key, groups, then, now, n);
}

/// Search domains that were announced at time `then` by a router that is still
/// there are valid at time `now`, group by group, exactly if less time has
/// passed than the lifetime of the group.
pub proof fn law_domains_live_their_lifetime(
    state: LifecycleView,
    key: Key,
    groups: Seq<Group<Seq<char>>>,
    then: Instant,
    now: Instant,
    n: int,
)
    requires
        state.wf(),
        forall|i: int|
            0 <= i < groups.len() ==> then.nanos + (#[trigger] groups[i]).lifetime.nanos
                <= u128::MAX,
        forall|t: Instant| #[trigger] state.routers.contains((key, t)) ==> t.nanos > now.nanos,
        0 <= n < groups.len(),
    ensures
        ({
            let told = observed(state, detector::EventView::DnsDomains(key, groups), then);
            (exists|
                list: Seq<LifecycleEntry<Group<Seq<char>>>>,
                e: LifecycleEntry<Group<Seq<char>>>,
            | #[trigger]
                expired(told, now).domains.contains((key, list)) && #[trigger] list.contains(e)
                    && e.data == groups[n]) <==> then.nanos + groups[n].lifetime.nanos > now.nanos
        }),
{
    let event = detector::EventView::DnsDomains(key, groups);
    let told = observed(state, event, then);
    let out = expired(told, now);
    law_observed_wf(state, event, then);
    law_domains_announced(state, key, groups, then);
    law_expired(told, now);
    lemma_groups_replaced(state.domains, key, groups, then);
    lemma_groups_live(told.domains, out.domains, key, groups, then, now, n);
}

proof fn lemma_groups_live<T>(
    told: Store<Group<T>>,
    out: Store<Group<T>>,
    key: Key,
    groups: Seq<Group<T>>,
    then: Instant,
    now: Instant,
    n: int,
)
    requires
        0 <= n < groups.len(),
        then.nanos + groups[n].lifetime.nanos <= u128::MAX,
        forall|list: Seq<LifecycleEntry<Group<T>>>| #[trigger]
            told.contains((key, list)) <==> list.len() > 0 && list.len() == groups.len() && (
            forall|i: int|
                0 <= i < list.len() ==> (#[trigger] list[i]).data == groups[i]
                    && list[i].expires_at.nanos == then.nanos + groups[i].lifetime.nanos),
        forall|i: int|
            0 <= i < groups.len() ==> then.nanos + (#[trigger] groups[i]).lifetime.nanos
                <= u128::MAX,
        forall|left: Seq<LifecycleEntry<Group<T>>>| #[trigger]
            out.contains((key, left)) <==> exists|list: Seq<LifecycleEntry<Group<T>>>| #[trigger]
                told.contains((key, list)) && left == list.filter(
                    |e: LifecycleEntry<Group<T>>| e.expires_at.nanos > now.nanos,
                ),
    ensures
        (exists|list: Seq<LifecycleEntry<Group<T>>>, e: LifecycleEntry<Group<T>>| #[trigger]
            out.contains((key, list)) && #[trigger] list.contains(e) && e.data == groups[n])
            <==> then.nanos + groups[n].lifetime.nanos > now.nanos,
{
    let p = |e: LifecycleEntry<Group<T>>| e.expires_at.nanos > now.nanos;
    let all = Seq::new(
        groups.len(),
        |i: int|
            LifecycleEntry {
                data: groups[i],
                expires_at: Instant { nanos: (then.nanos + groups[i].lifetime.nanos) as u128 },
            },
    );
    assert forall|i: int| 0 <= i < all.len() implies (#[trigger] all[i]).data == groups[i]
        && all[i].expires_at.nanos == then.nanos + groups[i].lifetime.nanos by {
        assert(then.nanos + groups[i].lifetime.nanos <= u128::MAX);
    }
    assert(told.contains((key, all)));
    assert(out.contains((key, all.filter(p))));
    if then.nanos + groups[n].lifetime.nanos > now.nanos {
        assert(p(all[n]));
        all.lemma_filter_contains(p, n);
        assert(out.contains((key, all.filter(p))) && all.filter(p).contains(all[n]));
    }
    if exists|list: Seq<LifecycleEntry<Group<T>>>, e: LifecycleEntry<Group<T>>| #[trigger]
        out.contains((key, list)) && #[trigger] list.contains(e) && e.data == groups[n] {
        let (left, e) = choose|
            list: Seq<LifecycleEntry<Group<T>>>,
            e: LifecycleEntry<Group<T>>,
        | #[trigger]
            out.contains((key, list)) && #[trigger] list.contains(e) && e.data == groups[n];
        let list = choose|list: Seq<LifecycleEntry<Group<T>>>| #[trigger]
            told.contains((key, list)) && left == list.filter(p);
        let i = choose|i: int| 0 <= i < left.len() && left[i] == e;
        list.lemma_filter_pred(p, i);
        list.lemma_filter_contains_rev(p, e);
        let k = choose|k: int| 0 <= k < list.len() && list[k] == e;
        assert(list[k].data == groups[k]);
        assert(groups[k] == groups[n]);
    }
}

/// A prefix that was announced at time `then` by a router that is still there
/// has a lease at time `now` exactly if less time has passed than its valid
/// lifetime, and is reported as expired exactly if not. It is reported as
/// deprecated exactly if its preferred lifetime is neither zero nor the valid
/// one, and that much time has passed.
pub proof fn law_prefix_lives_its_lifetimes(
    state: LifecycleView,
    key: Key,
    info: PrefixInfo,
    lifetime: Duration,
    preferred: Duration,
    then: Instant,
    now: Instant,
)
    requires
        state.wf(),
        lifetime.nanos != 0,
        preferred.nanos != 0,
        then.nanos + lifetime.nanos <= u128::MAX,
        then.nanos + preferred.nanos <= u128::MAX,
        forall|t: Instant| #[trigger] state.routers.contains((key, t)) ==> t.nanos > now.nanos,
    ensures
        ({
            let event = detector::EventView::Prefix {
                key,
                prefix_info: info,
                lifetime,
                preferred_lifetime: preferred,
            };
            let told = observed(state, event, then);
            &&& (exists|
                list: Seq<LifecycleEntry<PrefixInfo>>,
                e: LifecycleEntry<PrefixInfo>,
            | #[trigger]
                expired(told, now).prefixes.contains((key, list)) && #[trigger] list.contains(e)
                    && e.data.prefix == info.prefix) <==> then.nanos + lifetime.nanos > now.nanos
            &&& expiries(told, now).contains(EventView::PrefixExpiry { key, prefix_info: info })
                <==> then.nanos + lifetime.nanos <= now.nanos
            &&& soft_expiries(told, now).contains(
                EventView::PrefixSoftExpiry { key, prefix_info: info },
            ) <==> preferred.nanos != lifetime.nanos && then.nanos + preferred.nanos <= now.nanos
        }),
{
    let event = detector::EventView::Prefix {
        key,
        prefix_info: info,
        lifetime,
        preferred_lifetime: preferred,
    };
    let told = observed(state, event, then);
    let out = expired(told, now);
    law_observed_wf(state, event, then);
    law_lookup(state.routers, key);
    if let Some(t) = lookup(state.routers, key) {
        assert(state.routers.contains((key, t)));
    }
    crate::lifecycle::law_prefix_lifetimes(state, event, then, now);
    assert(prefix_lost(key, info) == EventView::PrefixExpiry { key, prefix_info: info });
    assert(prefix_deprecated(key, info) == EventView::PrefixSoftExpiry { key, prefix_info: info });
    let left = entries_at(out.prefixes, key);
    law_expiry(told, now, key);
    assert(left == out.router(key).prefixes);
    law_lookup(out.prefixes, key);
    if then.nanos + lifetime.nanos > now.nanos {
        let lease = LifecycleEntry { data: info, expires_at: then.plus(lifetime) };
        assert(left.contains(lease));
        assert(lookup(out.prefixes, key) is Some);
        assert(out.prefixes.contains((key, left)) && left.contains(lease));
    }
    if exists|list: Seq<LifecycleEntry<PrefixInfo>>, e: LifecycleEntry<PrefixInfo>| #[trigger]
        out.prefixes.contains((key, list)) && #[trigger] list.contains(e) && e.data.prefix
            == info.prefix {
        let (list, e) = choose|
            list: Seq<LifecycleEntry<PrefixInfo>>,
            e: LifecycleEntry<PrefixInfo>,
        | #[trigger]
            out.prefixes.contains((key, list)) && #[trigger] list.contains(e) && e.data.prefix
                == info.prefix;
        assert(lookup(out.prefixes, key) == Some(list));
        let i = choose|i: int| 0 <= i < list.len() && list[i] == e;
        assert(left[i].data.prefix == info.prefix);
        assert(has_lease(left, info.prefix));
    }
}

/// A router that announced itself at time `then` is there at time `now`
/// exactly if less time has passed than its lifetime, and is reported as
/// expired exactly if not; then nothing of it is left.
pub proof fn law_router_lives_its_lifetime(
    state: LifecycleView,
    key: Key,
    managed: bool,
    other_config: bool,
    lifetime: Duration,
    then: Instant,
    now: Instant,
)
    requires
        state.wf(),
        lifetime.nanos != 0,
        then.nanos + lifetime.nanos <= u128::MAX,
    ensures
        ({
            let event = detector::EventView::Router { key, managed, other_config, lifetime };
            let told = observed(state, event, then);
            let out = expired(told, now);
            let over = then.nanos + lifetime.nanos <= now.nanos;
            &&& (exists|t: Instant| #[trigger] out.routers.contains((key, t))) <==> !over
            &&& expiries(told, now).contains(EventView::RouterExpiry { key }) <==> over
            &&& over ==> {
                &&& forall|l: Seq<LifecycleEntry<Group<Ipv6Addr>>>|
                    !#[trigger] out.servers.contains((key, l))
                &&& forall|l: Seq<LifecycleEntry<Group<Seq<char>>>>|
                    !#[trigger] out.domains.contains((key, l))
                &&& forall|l: Seq<LifecycleEntry<PrefixInfo>>|
                    !#[trigger] out.prefixes.contains((key, l))
                &&& forall|l: Seq<LifecycleEntry<PrefixInfo>>|
                    !#[trigger] out.soft_prefixes.contains((key, l))
            }
        }),
{
    let event = detector::EventView::Router { key, managed, other_config, lifetime };
    let told = observed(state, event, then);
    let out = expired(told, now);
    let t = Instant { nanos: (then.nanos + lifetime.nanos) as u128 };
    let p = |e: (Key, Instant)| e.1.nanos > now.nanos;
    law_observed_wf(state, event, then);
    law_router_announced(state, key, managed, other_config, lifetime, then);
    law_expired(told, now);
    let any = PrefixInfo { prefix: Ipv6Addr { bits: 0 }, prefix_len: 0 };
    law_expiry_is_reported(told, now, key, any);
    assert(told.routers.contains((key, t)));
    crate::repetition::lemma_filter_members(told.routers, p, (key, t));
    if exists|u: Instant| #[trigger] out.routers.contains((key, u)) {
        let u = choose|u: Instant| #[trigger] out.routers.contains((key, u));
        crate::repetition::lemma_filter_members(told.routers, p, (key, u));
    }
    if then.nanos + lifetime.nanos > now.nanos {
        assert(out.routers.contains((key, t)));
        assert forall|u: Instant| #[trigger] told.routers.contains((key, u)) implies u.nanos
            > now.nanos by {}
    }
}

} // verus!
