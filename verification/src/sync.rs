//! Agreement of what is aggregated with what is valid.
//!
//! The aggregator learns of lifetimes only through reported changes. The laws
//! of this module say that this is enough: after every observation and every
//! expiry, each router contributes exactly what is valid of it.
use vstd::prelude::*;

use crate::aggregator::{
    aggregate_of, applied, applied_all, changed_contribution, contributed, drop_prefix, has_prefix,
    interfaces_of, items_at, law_aggregate_members, law_applied, law_applied_wf, prefix_position,
    replace_prefix, with_other_address, AggregatorView, Contribution,
};
use crate::address::Ipv6Addr;
use crate::detector;
use crate::detector::Key;
use crate::lifecycle::{
    data_of, distinct_leases, drop_lease, entries_at, expired, expiries, for_other, group_entries,
    has_lapsed, has_lease, is_live, lapsed, lapsed_routers, law_expiry, law_observation,
    law_observation_isolated, law_observed_wf, lease_position, lemma_lapsed_router,
    lemma_store_last, lemma_without_all, live, losses, nothing_known, observed, observed_all,
    refresh_lease, remainders, reported, subject, validity_event, without_all, EventView,
    LifecycleEntry, LifecycleView, RouterState, Store,
};
use crate::list::{lemma_filter_all, lemma_filter_map};
use crate::merge::{by_lifetime, in_some_group, items_of, law_by_lifetime_members, rank, Group};
use crate::table::{has_key, lemma_position, lookup, position, unique_keys};
use crate::time::Instant;
use crate::{InterfaceIndex, PrefixInfo};

verus! {

/// Whether a router contributes exactly what is valid of it.
pub open spec fn agrees(valid: RouterState, contribution: Contribution) -> bool {
    &&& valid.expires_at is Some <==> contribution.router is Some
    &&& contribution.servers == by_lifetime(data_of(valid.servers))
    &&& contribution.domains == by_lifetime(data_of(valid.domains))
    &&& contribution.prefixes == data_of(valid.prefixes)
}

/// Whether every router contributes exactly what is valid of it.
pub open spec fn in_sync(valid: LifecycleView, aggregated: AggregatorView) -> bool {
    &&& valid.wf()
    &&& aggregated.wf()
    &&& forall|key: Key| agrees(#[trigger] valid.router(key), aggregated.contribution(key))
}

/// No groups have no items.
pub proof fn lemma_no_groups<T>()
    ensures
        by_lifetime(Seq::<Group<T>>::empty()) == Seq::<T>::empty(),
        data_of(Seq::<LifecycleEntry<Group<T>>>::empty()) == Seq::<Group<T>>::empty(),
{
    assert(rank(Seq::<Group<T>>::empty()) =~= Seq::empty());
    assert(items_of(Seq::<Group<T>>::empty()) =~= Seq::empty());
    assert(data_of(Seq::<LifecycleEntry<Group<T>>>::empty()) =~= Seq::empty());
}

/// At the start nothing is valid and nothing is contributed.
pub proof fn law_in_sync_at_first()
    ensures
        in_sync(nothing_known(), crate::aggregator::no_contributions()),
{
    lemma_no_groups::<Ipv6Addr>();
    lemma_no_groups::<Seq<char>>();
    let (valid, aggregated) = (nothing_known(), crate::aggregator::no_contributions());
    assert forall|key: Key| agrees(#[trigger] valid.router(key), aggregated.contribution(key)) by {
        assert(data_of(valid.router(key).prefixes) =~= Seq::empty());
    }
}

// Observations

proof fn lemma_refresh_matches(
    entries: Seq<LifecycleEntry<PrefixInfo>>,
    lease: LifecycleEntry<PrefixInfo>,
)
    requires
        distinct_leases(entries),
    ensures
        data_of(refresh_lease(entries, lease)) == replace_prefix(data_of(entries), lease.data),
{
    let prefix = lease.data.prefix;
    let list = data_of(entries);
    if has_lease(entries, prefix) {
        let p = lease_position(entries, prefix);
        assert(0 <= p < entries.len() && entries[p].data.prefix == prefix);
        assert(list[p].prefix == prefix);
        let q = prefix_position(list, prefix);
        assert(0 <= q < list.len() && list[q].prefix == prefix);
        assert(entries[q].data.prefix == prefix);
        assert(p == q);
    } else if has_prefix(list, prefix) {
        let q = prefix_position(list, prefix);
        assert(0 <= q < list.len() && list[q].prefix == prefix);
        assert(entries[q].data.prefix == prefix);
    }
    assert(data_of(refresh_lease(entries, lease)) =~= replace_prefix(list, lease.data));
}

proof fn lemma_drop_matches(entries: Seq<LifecycleEntry<PrefixInfo>>, prefix: Ipv6Addr)
    ensures
        data_of(drop_lease(entries, prefix)) == drop_prefix(data_of(entries), prefix),
{
    lemma_filter_map(
        entries,
        |e: LifecycleEntry<PrefixInfo>| e.data,
        for_other(prefix),
        with_other_address(prefix),
    );
}

/// Reporting an observation keeps everything in sync.
pub proof fn law_in_sync_observed(
    valid: LifecycleView,
    aggregated: AggregatorView,
    event: detector::EventView,
    now: Instant,
)
    requires
        in_sync(valid, aggregated),
    ensures
        in_sync(observed(valid, event, now), applied(aggregated, validity_event(event))),
{
    let out = observed(valid, event, now);
    let after = applied(aggregated, validity_event(event));
    law_observed_wf(valid, event, now);
    law_applied_wf(aggregated, validity_event(event));
    assert forall|key: Key| agrees(#[trigger] out.router(key), after.contribution(key)) by {
        let before = valid.router(key);
        assert(agrees(before, aggregated.contribution(key)));
        law_applied(aggregated, validity_event(event), key);
        if key == subject(event) {
            law_observation(valid, event, now);
            lemma_no_groups::<Ipv6Addr>();
            lemma_no_groups::<Seq<char>>();
            match event {
                detector::EventView::Router { key, managed, other_config, lifetime } => {
                    if lifetime.nanos == 0 {
                        assert(data_of(out.router(key).prefixes) =~= Seq::empty());
                    }
                },
                detector::EventView::DnsServers(key, servers) => {
                    assert(data_of(group_entries(servers, now)) =~= servers);
                },
                detector::EventView::DnsDomains(key, domains) => {
                    assert(data_of(group_entries(domains, now)) =~= domains);
                },
                detector::EventView::Prefix { key, prefix_info, lifetime, preferred_lifetime } => {
                    lemma_drop_matches(before.prefixes, prefix_info.prefix);
                    lemma_refresh_matches(
                        before.prefixes,
                        LifecycleEntry { data: prefix_info, expires_at: now.plus(lifetime) },
                    );
                },
            }
        } else {
            law_observation_isolated(valid, event, now, key);
        }
    }
}

/// Reporting all observations of an advertisement keeps everything in sync.
pub proof fn law_in_sync_observed_all(
    valid: LifecycleView,
    aggregated: AggregatorView,
    events: Seq<detector::EventView>,
    now: Instant,
)
    requires
        in_sync(valid, aggregated),
    ensures
        in_sync(
            observed_all(valid, events, now),
            applied_all(aggregated, reported(events)),
        ),
    decreases events.len(),
{
    if events.len() > 0 {
        let rest = events.drop_last();
        law_in_sync_observed_all(valid, aggregated, rest, now);
        assert(reported(events).drop_last() =~= reported(rest));
        law_in_sync_observed(
            observed_all(valid, rest, now),
            applied_all(aggregated, reported(rest)),
            events.last(),
            now,
        );
    }
}

// Expiry

/// What a router contributes after changes, of which those about other
/// routers have no effect.
spec fn changed_by(before: Contribution, events: Seq<EventView>, key: Key) -> Contribution
    decreases events.len(),
{
    if events.len() == 0 {
        before
    } else {
        let state = changed_by(before, events.drop_last(), key);
        if crate::aggregator::subject(events.last()) == key {
            changed_contribution(state, events.last())
        } else {
            state
        }
    }
}

proof fn lemma_changed_by(state: AggregatorView, events: Seq<EventView>, key: Key)
    requires
        state.wf(),
    ensures
        applied_all(state, events).wf(),
        applied_all(state, events).contribution(key) == changed_by(
            state.contribution(key),
            events,
            key,
        ),
    decreases events.len(),
{
    if events.len() > 0 {
        let rest = events.drop_last();
        lemma_changed_by(state, rest, key);
        law_applied_wf(applied_all(state, rest), events.last());
        law_applied(applied_all(state, rest), events.last(), key);
    }
}

proof fn lemma_changed_by_add(
    before: Contribution,
    a: Seq<EventView>,
    b: Seq<EventView>,
    key: Key,
)
    ensures
        changed_by(before, a + b, key) == changed_by(changed_by(before, a, key), b, key),
    decreases b.len(),
{
    if b.len() == 0 {
        assert(a + b =~= a);
    } else {
        lemma_changed_by_add(before, a, b.drop_last(), key);
        assert((a + b).drop_last() =~= a + b.drop_last());
    }
}

/// Changes about other routers have no effect.
proof fn lemma_changed_by_others(before: Contribution, events: Seq<EventView>, key: Key)
    requires
        forall|i: int|
            0 <= i < events.len() ==> crate::aggregator::subject(#[trigger] events[i]) != key,
    ensures
        changed_by(before, events, key) == before,
    decreases events.len(),
{
    if events.len() > 0 {
        assert(crate::aggregator::subject(events[events.len() - 1]) != key);
        lemma_changed_by_others(before, events.drop_last(), key);
    }
}

/// What is contributed by a router of which nothing is left.
spec fn no_contribution() -> Contribution {
    Contribution {
        router: None,
        servers: Seq::empty(),
        domains: Seq::empty(),
        prefixes: Seq::empty(),
    }
}

/// Reported router expiries leave nothing of these routers.
proof fn lemma_changed_by_routers(before: Contribution, gone: Seq<Key>, key: Key)
    ensures
        changed_by(before, gone.map_values(|k: Key| EventView::RouterExpiry { key: k }), key)
            == if gone.contains(key) {
            no_contribution()
        } else {
            before
        },
    decreases gone.len(),
{
    let f = |k: Key| EventView::RouterExpiry { key: k };
    if gone.len() > 0 {
        let rest = gone.drop_last();
        lemma_changed_by_routers(before, rest, key);
        assert(gone.map_values(f).drop_last() =~= rest.map_values(f));
        assert(gone[gone.len() - 1] == gone.last());
        if rest.contains(key) {
            let i = choose|i: int| 0 <= i < rest.len() && rest[i] == key;
            assert(gone[i] == key);
        }
        if gone.contains(key) && gone.last() != key {
            let i = choose|i: int| 0 <= i < gone.len() && gone[i] == key;
            assert(rest[i] == key);
        }
    }
}

/// A filter that drops nothing changes nothing.
proof fn lemma_filter_same_len<A>(s: Seq<A>, p: spec_fn(A) -> bool)
    ensures
        s.filter(p).len() <= s.len(),
        s.filter(p).len() == s.len() ==> s.filter(p) == s,
    decreases s.len(),
{
    reveal(Seq::filter);
    if s.len() > 0 {
        lemma_filter_same_len(s.drop_last(), p);
        if s.filter(p).len() == s.len() {
            assert(s.filter(p) =~= s);
        }
    }
}

/// The remaining DNS servers, as reported.
spec fn servers_reported(left: Seq<(Key, Seq<Group<Ipv6Addr>>)>) -> Seq<EventView> {
    left.map_values(
        |e: (Key, Seq<Group<Ipv6Addr>>)| EventView::DnsServers { key: e.0, servers: e.1 },
    )
}

/// The remaining search domains, as reported.
spec fn domains_reported(left: Seq<(Key, Seq<Group<Seq<char>>>)>) -> Seq<EventView> {
    left.map_values(
        |e: (Key, Seq<Group<Seq<char>>>)| EventView::DnsDomains { key: e.0, domains: e.1 },
    )
}

/// The expired prefixes, as reported.
spec fn prefixes_reported(lost: Seq<(Key, PrefixInfo)>) -> Seq<EventView> {
    lost.map_values(
        |e: (Key, PrefixInfo)| EventView::PrefixExpiry { key: e.0, prefix_info: e.1 },
    )
}

proof fn lemma_changed_by_servers(
    before: Contribution,
    store: Store<Group<Ipv6Addr>>,
    now: Instant,
    key: Key,
)
    requires
        unique_keys(store),
    ensures
        changed_by(before, servers_reported(remainders(store, now)), key) == ({
            let entries = entries_at(store, key);
            if live(entries, now).len() == entries.len() {
                before
            } else {
                Contribution { servers: by_lifetime(data_of(live(entries, now))), ..before }
            }
        }),
    decreases store.len(),
{
    reveal(Seq::filter);
    if store.len() > 0 {
        let rest = store.drop_last();
        lemma_store_last(store);
        lemma_changed_by_servers(before, rest, now, key);
        let told = servers_reported(remainders(rest, now));
        let all = servers_reported(remainders(store, now));
        let (k, entries) = store.last();
        if live(entries, now).len() != entries.len() {
            assert(all.drop_last() =~= told);
            assert(all.last() == (EventView::DnsServers {
                key: k,
                servers: data_of(live(entries, now)),
            }));
        }
    }
}

proof fn lemma_changed_by_domains(
    before: Contribution,
    store: Store<Group<Seq<char>>>,
    now: Instant,
    key: Key,
)
    requires
        unique_keys(store),
    ensures
        changed_by(before, domains_reported(remainders(store, now)), key) == ({
            let entries = entries_at(store, key);
            if live(entries, now).len() == entries.len() {
                before
            } else {
                Contribution { domains: by_lifetime(data_of(live(entries, now))), ..before }
            }
        }),
    decreases store.len(),
{
    reveal(Seq::filter);
    if store.len() > 0 {
        let rest = store.drop_last();
        lemma_store_last(store);
        lemma_changed_by_domains(before, rest, now, key);
        let told = domains_reported(remainders(rest, now));
        let all = domains_reported(remainders(store, now));
        let (k, entries) = store.last();
        if live(entries, now).len() != entries.len() {
            assert(all.drop_last() =~= told);
            assert(all.last() == (EventView::DnsDomains {
                key: k,
                domains: data_of(live(entries, now)),
            }));
        }
    }
}

/// Whether a prefix with the address of `info` is among those lost.
spec fn not_lost(lost: Seq<PrefixInfo>) -> spec_fn(PrefixInfo) -> bool {
    |info: PrefixInfo| !has_prefix(lost, info.prefix)
}

proof fn lemma_filter_twice<A>(
    s: Seq<A>,
    p: spec_fn(A) -> bool,
    q: spec_fn(A) -> bool,
    both: spec_fn(A) -> bool,
)
    requires
        forall|x: A| #[trigger] both(x) == (p(x) && q(x)),
    ensures
        s.filter(p).filter(q) == s.filter(both),
    decreases s.len(),
{
    reveal(Seq::filter);
    if s.len() > 0 {
        let rest = s.drop_last();
        lemma_filter_twice(rest, p, q, both);
        assert(both(s.last()) == (p(s.last()) && q(s.last())));
        if p(s.last()) {
            assert(s.filter(p).drop_last() =~= rest.filter(p));
        }
    }
}

proof fn lemma_changed_by_losses(
    before: Contribution,
    lost: Seq<(Key, PrefixInfo)>,
    infos: Seq<PrefixInfo>,
    key: Key,
)
    requires
        lost.len() == infos.len(),
        forall|i: int| 0 <= i < lost.len() ==> #[trigger] lost[i] == (key, infos[i]),
    ensures
        changed_by(before, prefixes_reported(lost), key) == (Contribution {
            prefixes: before.prefixes.filter(not_lost(infos)),
            ..before
        }),
    decreases lost.len(),
{
    if lost.len() == 0 {
        assert forall|i: int| 0 <= i < before.prefixes.len() implies not_lost(infos)(
            #[trigger] before.prefixes[i],
        ) by {}
        lemma_filter_all(before.prefixes, not_lost(infos));
    } else {
        let rest = infos.drop_last();
        let last = infos.last();
        lemma_changed_by_losses(before, lost.drop_last(), rest, key);
        assert(prefixes_reported(lost).drop_last() =~= prefixes_reported(lost.drop_last()));
        assert(lost[lost.len() - 1] == (key, last));
        assert forall|info: PrefixInfo| #[trigger] not_lost(infos)(info) == (not_lost(rest)(info)
            && with_other_address(last.prefix)(info)) by {
            if has_prefix(infos, info.prefix) {
                let i = prefix_position(infos, info.prefix);
                assert(0 <= i < infos.len() && infos[i].prefix == info.prefix);
                if i < rest.len() {
                    assert(rest[i].prefix == info.prefix);
                }
            }
            if has_prefix(rest, info.prefix) {
                let i = prefix_position(rest, info.prefix);
                assert(0 <= i < rest.len() && rest[i].prefix == info.prefix);
                assert(infos[i].prefix == info.prefix);
            }
            assert(infos[infos.len() - 1].prefix == last.prefix);
        }
        lemma_filter_twice(
            before.prefixes,
            not_lost(rest),
            with_other_address(last.prefix),
            not_lost(infos),
        );
    }
}

/// Of distinct leases, those that have not lapsed are those for other
/// addresses than the lapsed ones.
proof fn lemma_live_leases(entries: Seq<LifecycleEntry<PrefixInfo>>, now: Instant)
    requires
        distinct_leases(entries),
    ensures
        data_of(entries).filter(not_lost(data_of(lapsed(entries, now)))) == data_of(
            live(entries, now),
        ),
{
    let lost = data_of(lapsed(entries, now));
    let gone = lapsed(entries, now);
    assert forall|i: int| 0 <= i < entries.len() implies is_live::<PrefixInfo>(now)(
        #[trigger] entries[i],
    ) == not_lost(lost)(entries[i].data) by {
        let e = entries[i];
        if e.expires_at.nanos <= now.nanos {
            entries.lemma_filter_contains(has_lapsed(now), i);
            let k = choose|k: int| 0 <= k < gone.len() && gone[k] == e;
            assert(lost[k].prefix == e.data.prefix);
        }
        if has_prefix(lost, e.data.prefix) {
            let k = prefix_position(lost, e.data.prefix);
            assert(0 <= k < lost.len() && lost[k].prefix == e.data.prefix);
            assert(gone[k].data == lost[k]);
            entries.lemma_filter_pred(has_lapsed(now), k);
            entries.lemma_filter_contains_rev(has_lapsed(now), gone[k]);
            let j = choose|j: int| 0 <= j < entries.len() && entries[j] == gone[k];
            assert(entries[j].data.prefix == entries[i].data.prefix);
            assert(j == i);
        }
    }
    lemma_filter_map(
        entries,
        |e: LifecycleEntry<PrefixInfo>| e.data,
        is_live(now),
        not_lost(lost),
    );
}

proof fn lemma_changed_by_prefixes(
    before: Contribution,
    store: Store<PrefixInfo>,
    now: Instant,
    key: Key,
)
    requires
        unique_keys(store),
    ensures
        changed_by(before, prefixes_reported(losses(store, now)), key) == (Contribution {
            prefixes: before.prefixes.filter(
                not_lost(data_of(lapsed(entries_at(store, key), now))),
            ),
            ..before
        }),
    decreases store.len(),
{
    reveal(Seq::filter);
    if store.len() == 0 {
        let none = data_of(lapsed(entries_at(store, key), now));
        assert forall|i: int| 0 <= i < before.prefixes.len() implies not_lost(none)(
            #[trigger] before.prefixes[i],
        ) by {}
        lemma_filter_all(before.prefixes, not_lost(none));
    } else {
        let rest = store.drop_last();
        let (k, entries) = store.last();
        let told = losses(rest, now);
        let more = lapsed(entries, now).map_values(|e: LifecycleEntry<PrefixInfo>| (k, e.data));
        lemma_store_last(store);
        lemma_changed_by_prefixes(before, rest, now, key);
        assert(prefixes_reported(losses(store, now)) =~= prefixes_reported(told)
            + prefixes_reported(more));
        lemma_changed_by_add(before, prefixes_reported(told), prefixes_reported(more), key);
        if k == key {
            let none = data_of(lapsed(entries_at(rest, key), now));
            assert forall|i: int| 0 <= i < before.prefixes.len() implies not_lost(none)(
                #[trigger] before.prefixes[i],
            ) by {}
            lemma_filter_all(before.prefixes, not_lost(none));
            lemma_changed_by_losses(before, more, data_of(lapsed(entries, now)), key);
        } else {
            let state = changed_by(before, prefixes_reported(told), key);
            lemma_changed_by_others(state, prefixes_reported(more), key);
        }
    }
}

/// Reporting expiry keeps everything in sync.
pub proof fn law_in_sync_expired(valid: LifecycleView, aggregated: AggregatorView, now: Instant)
    requires
        in_sync(valid, aggregated),
    ensures
        in_sync(expired(valid, now), applied_all(aggregated, expiries(valid, now))),
{
    let out = expired(valid, now);
    let events = expiries(valid, now);
    let after = applied_all(aggregated, events);
    let gone = lapsed_routers(valid.routers, now);
    let servers = without_all(valid.servers, gone);
    let domains = without_all(valid.domains, gone);
    let prefixes = without_all(valid.prefixes, gone);
    lemma_without_all(valid.servers, gone);
    lemma_without_all(valid.domains, gone);
    lemma_without_all(valid.prefixes, gone);
    let a = gone.map_values(|k: Key| EventView::RouterExpiry { key: k });
    let b = servers_reported(remainders(servers, now));
    let c = domains_reported(remainders(domains, now));
    let d = prefixes_reported(losses(prefixes, now));
    assert(events =~= a + b + c + d);
    lemma_no_groups::<Ipv6Addr>();
    lemma_no_groups::<Seq<char>>();
    assert forall|key: Key| agrees(#[trigger] out.router(key), after.contribution(key)) by {
        let before = valid.router(key);
        let c0 = aggregated.contribution(key);
        assert(agrees(before, c0));
        lemma_changed_by(aggregated, events, key);
        lemma_changed_by_add(c0, a + b + c, d, key);
        lemma_changed_by_add(c0, a + b, c, key);
        lemma_changed_by_add(c0, a, b, key);
        lemma_changed_by_routers(c0, gone, key);
        let c1 = changed_by(c0, a, key);
        lemma_changed_by_servers(c1, servers, now, key);
        let c2 = changed_by(c1, b, key);
        lemma_changed_by_domains(c2, domains, now, key);
        let c3 = changed_by(c2, c, key);
        lemma_changed_by_prefixes(c3, prefixes, now, key);
        law_expiry(valid, now, key);
        lemma_lapsed_router(valid.routers, now, key);
        reveal(Seq::filter);
        if gone.contains(key) {
            assert(entries_at(servers, key) == Seq::<LifecycleEntry<Group<Ipv6Addr>>>::empty());
            assert(c3 == no_contribution());
            assert(data_of(out.router(key).prefixes) =~= Seq::empty());
        } else {
            lemma_filter_same_len(before.servers, is_live(now));
            lemma_filter_same_len(before.domains, is_live(now));
            assert(distinct_leases(entries_at(valid.prefixes, key)));
            lemma_live_leases(before.prefixes, now);
        }
    }
    lemma_changed_by(aggregated, events, Key { ifindex: 0, router_ip: Ipv6Addr { bits: 0 } });
    law_expiry(valid, now, Key { ifindex: 0, router_ip: Ipv6Addr { bits: 0 } });
}

// What is reported is what is valid

/// Whether some router of an interface has a valid group with an item.
pub open spec fn group_valid<T>(
    store: Store<Group<T>>,
    ifindex: InterfaceIndex,
    item: T,
) -> bool {
    exists|key: Key|
        key.ifindex == ifindex && in_some_group(#[trigger] data_of(entries_at(store, key)), item)
}

/// Whether some router of an interface has a valid lease of a prefix.
pub open spec fn lease_valid(
    store: Store<PrefixInfo>,
    ifindex: InterfaceIndex,
    info: PrefixInfo,
) -> bool {
    exists|key: Key|
        key.ifindex == ifindex && (#[trigger] data_of(entries_at(store, key))).contains(info)
}

/// Whether some router of an interface is active.
pub open spec fn router_active(valid: LifecycleView, ifindex: InterfaceIndex) -> bool {
    exists|key: Key| key.ifindex == ifindex && (#[trigger] lookup(valid.routers, key)) is Some
}

proof fn lemma_contributed<T>(t: Seq<(Key, Seq<T>)>, ifindex: InterfaceIndex, item: T)
    requires
        unique_keys(t),
    ensures
        contributed(t, ifindex, item) <==> exists|key: Key|
            key.ifindex == ifindex && (#[trigger] items_at(t, key)).contains(item),
{
    if contributed(t, ifindex, item) {
        let n = choose|n: int|
            0 <= n < t.len() && (#[trigger] t[n]).0.ifindex == ifindex && t[n].1.contains(item);
        lemma_position(t, n);
        assert(items_at(t, t[n].0).contains(item));
    }
    if exists|key: Key| key.ifindex == ifindex && (#[trigger] items_at(t, key)).contains(item) {
        let key = choose|key: Key|
            key.ifindex == ifindex && (#[trigger] items_at(t, key)).contains(item);
        assert(has_key(t, key));
        let n = position(t, key);
        assert(0 <= n < t.len() && t[n].0 == key);
        assert(t[n].1.contains(item));
    }
}

/// In sync, the aggregated state of an interface is complete and current: it
/// holds every DNS server, search domain and prefix of which some router of
/// the interface has valid information, and nothing else; and it has flags if
/// and only if some router of the interface is active.
pub proof fn law_aggregate_is_what_is_valid(
    valid: LifecycleView,
    aggregated: AggregatorView,
    ifindex: InterfaceIndex,
)
    requires
        in_sync(valid, aggregated),
    ensures
        forall|x: Ipv6Addr| #[trigger]
            aggregate_of(aggregated, ifindex).dns_servers.contains(x) <==> group_valid(
                valid.servers,
                ifindex,
                x,
            ),
        forall|x: Seq<char>| #[trigger]
            aggregate_of(aggregated, ifindex).domains.contains(x) <==> group_valid(
                valid.domains,
                ifindex,
                x,
            ),
        forall|x: PrefixInfo| #[trigger]
            aggregate_of(aggregated, ifindex).prefixes.contains(x) <==> lease_valid(
                valid.prefixes,
                ifindex,
                x,
            ),
        aggregate_of(aggregated, ifindex).router is Some <==> router_active(valid, ifindex),
{
    let state = aggregate_of(aggregated, ifindex);
    law_aggregate_members(aggregated, ifindex);
    assert forall|x: Ipv6Addr| #[trigger] state.dns_servers.contains(x) <==> group_valid(
        valid.servers,
        ifindex,
        x,
    ) by {
        lemma_contributed(aggregated.servers, ifindex, x);
        assert forall|key: Key|
            #![trigger items_at(aggregated.servers, key)]
            #![trigger data_of(entries_at(valid.servers, key))]
            items_at(aggregated.servers, key).contains(x) == in_some_group(
                data_of(entries_at(valid.servers, key)),
                x,
            ) by {
            assert(agrees(valid.router(key), aggregated.contribution(key)));
            law_by_lifetime_members(data_of(entries_at(valid.servers, key)));
        }
    }
    assert forall|x: Seq<char>| #[trigger] state.domains.contains(x) <==> group_valid(
        valid.domains,
        ifindex,
        x,
    ) by {
        lemma_contributed(aggregated.domains, ifindex, x);
        assert forall|key: Key|
            #![trigger items_at(aggregated.domains, key)]
            #![trigger data_of(entries_at(valid.domains, key))]
            items_at(aggregated.domains, key).contains(x) == in_some_group(
                data_of(entries_at(valid.domains, key)),
                x,
            ) by {
            assert(agrees(valid.router(key), aggregated.contribution(key)));
            law_by_lifetime_members(data_of(entries_at(valid.domains, key)));
        }
    }
    assert forall|x: PrefixInfo| #[trigger] state.prefixes.contains(x) <==> lease_valid(
        valid.prefixes,
        ifindex,
        x,
    ) by {
        lemma_contributed(aggregated.prefixes, ifindex, x);
        assert forall|key: Key|
            #![trigger items_at(aggregated.prefixes, key)]
            #![trigger data_of(entries_at(valid.prefixes, key))]
            items_at(aggregated.prefixes, key) == data_of(entries_at(valid.prefixes, key)) by {
            assert(agrees(valid.router(key), aggregated.contribution(key)));
        }
    }
    let list = interfaces_of(aggregated.routers);
    if list.contains(ifindex) {
        let i = choose|i: int| 0 <= i < list.len() && list[i] == ifindex;
        let key = aggregated.routers[i].0;
        lemma_position(aggregated.routers, i);
        assert(agrees(valid.router(key), aggregated.contribution(key)));
        assert(lookup(valid.routers, key) is Some);
    }
    if router_active(valid, ifindex) {
        let key = choose|key: Key|
            key.ifindex == ifindex && (#[trigger] lookup(valid.routers, key)) is Some;
        assert(agrees(valid.router(key), aggregated.contribution(key)));
        assert(has_key(aggregated.routers, key));
        let i = position(aggregated.routers, key);
        assert(0 <= i < aggregated.routers.len() && aggregated.routers[i].0 == key);
        assert(list[i] == ifindex);
    }
}

} // verus!
