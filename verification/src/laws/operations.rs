//! What the operations of the pipeline do to its state, and what they report.
use vstd::prelude::*;

use crate::address::Ipv6Addr;
use crate::aggregator::{
    aggregate_of, aggregated, applied_all, changes, diff_aggregate_parts, Aggregate, Aggregator,
    Router,
};
use crate::detector;
use crate::detector::{detect, Key};
use crate::laws::aggregation::{
    law_changes_reported, law_flags, law_flags_combine, law_sections_reported,
};
use crate::laws::detection::{
    law_domains_detected, law_prefixes_detected, law_router_detected, law_servers_detected,
};
use crate::laws::lifetimes::{
    law_expired, law_expiry_is_reported, law_one_after_the_other, law_prefix_lives_its_lifetimes,
    law_servers_live_their_lifetime,
};
use crate::laws::merging::law_extended;
use crate::laws::pipeline::{law_burst, law_interface_has_what_is_valid, law_soft_report};
use crate::laws::tables::{
    law_lookup, law_put_entries, law_without_entries, lemma_without_filter,
};
use crate::laws::views::law_aggregate_view;
use crate::lifecycle;
use crate::lifecycle::{observed_all, soft_expiries, Lifecycle, LifecycleEntry};
use crate::list::{contains, same_list, Item};
use crate::merge::{extend_dedup, Group};
use crate::monitor::{soft_expiry_events, soft_reports, Reaction, RouterMonitor};
use crate::router_advertisement::{
    advertisement, RouterAdvertisement, RouterSolicitationBurst,
};
use crate::table::{lemma_deep_table, Table, TableKey};
use crate::time::{Duration, Instant};
use crate::{Event, EventView, InterfaceIndex, PrefixInfo};

verus! {

// Tables and lists

/// A value is found exactly if the table has an entry of it.
pub proof fn law_table_searched<K: TableKey, V>(table: &Table<K, V>, key: &K, res: Option<&V>)
    requires
        table.wf(),
        call_ensures(Table::<K, V>::get, (table, key), res),
    ensures
        res matches Some(v) ==> table@.contains((*key, *v)),
        res is None ==> forall|i: int| 0 <= i < table@.len() ==> (#[trigger] table@[i]).0 != *key,
{
    law_lookup(table@, *key);
}

/// A value comes in the place of the one with its key, or else at the end.
pub proof fn law_table_extended<K: TableKey, V>(table: &mut Table<K, V>, key: K, value: V, res: ())
    requires
        old(table).wf(),
        call_ensures(Table::<K, V>::insert, (table, key, value), res),
    ensures
        forall|i: int|
            0 <= i < old(table)@.len() && (#[trigger] old(table)@[i]).0 == key ==> final(table)@
                == old(table)@.update(i, (key, value)),
        (forall|i: int| 0 <= i < old(table)@.len() ==> (#[trigger] old(table)@[i]).0 != key)
            ==> final(table)@ == old(table)@.push((key, value)),
{
    law_put_entries(old(table)@, key, value);
}

/// The entry with a key is taken out and its value handed back; the others
/// stay in their order.
pub proof fn law_table_reduced<K: TableKey, V>(table: &mut Table<K, V>, key: &K, res: Option<V>)
    requires
        old(table).wf(),
        call_ensures(Table::<K, V>::remove, (table, key), res),
    ensures
        final(table)@ == old(table)@.filter(|e: (K, V)| e.0 != *key),
        forall|v: V| res == Some(v) <==> #[trigger] old(table)@.contains((*key, v)),
{
    law_without_entries(old(table)@, *key);
    law_lookup(old(table)@, *key);
}

/// Lists are searched and compared by what their items stand for.
pub proof fn law_lists_compared<T: Item>(
    a: &Vec<T>,
    b: &Vec<T>,
    item: &T,
    found: bool,
    same: bool,
)
    requires
        call_ensures(contains::<T>, (a, item), found),
        call_ensures(same_list::<T>, (a, b), same),
    ensures
        found <==> exists|i: int|
            0 <= i < a@.len() && (#[trigger] a@[i]).deep_view() == item.deep_view(),
        same <==> a@.len() == b@.len() && forall|i: int|
            0 <= i < a@.len() ==> (#[trigger] a@[i]).deep_view() == b@[i].deep_view(),
{
    let (x, y) = (a.deep_view(), b.deep_view());
    assert forall|i: int| 0 <= i < a@.len() implies (#[trigger] a@[i]).deep_view() == x[i] by {}
    if found {
        let i = choose|i: int| 0 <= i < x.len() && x[i] == item.deep_view();
        assert(a@[i].deep_view() == item.deep_view());
    }
    if exists|i: int| 0 <= i < a@.len() && (#[trigger] a@[i]).deep_view() == item.deep_view() {
        let i = choose|i: int|
            0 <= i < a@.len() && (#[trigger] a@[i]).deep_view() == item.deep_view();
        assert(x[i] == item.deep_view());
        assert(x.contains(item.deep_view()));
    }
    if same {
        assert(x.len() == a@.len() && y.len() == b@.len());
        assert forall|i: int| 0 <= i < a@.len() implies (#[trigger] a@[i]).deep_view()
            == b@[i].deep_view() by {
            assert(x[i] == y[i]);
        }
    }
    if a@.len() == b@.len() && (forall|i: int|
        0 <= i < a@.len() ==> (#[trigger] a@[i]).deep_view() == b@[i].deep_view()) {
        assert forall|i: int| 0 <= i < x.len() implies x[i] == y[i] by {
            assert(a@[i].deep_view() == b@[i].deep_view());
        }
        assert(x =~= y);
    }
}

/// A list is extended by what is not in it yet, once each.
pub proof fn law_list_extended<T: Item>(target: &mut Vec<T>, src: Vec<T>, res: ())
    requires
        call_ensures(extend_dedup::<T>, (target, src), res),
    ensures
        final(target)@.len() >= old(target)@.len(),
        final(target).deep_view().take(old(target)@.len() as int) == old(target).deep_view(),
        forall|x: T::V| #[trigger]
            final(target).deep_view().contains(x) <==> old(target).deep_view().contains(x)
                || src.deep_view().contains(x),
        ({
            let out = final(target).deep_view();
            forall|i: int, j: int|
                0 <= i < j < out.len() && old(target)@.len() <= j ==> #[trigger] out[i]
                    != #[trigger] out[j]
        }),
{
    law_extended(old(target).deep_view(), src.deep_view());
    assert(old(target).deep_view().len() == old(target)@.len());
    assert(final(target).deep_view().len() == final(target)@.len());
}

// Detection

/// The router itself is detected first, with its own flags and lifetime. A
/// router that withdraws itself is all that is detected; otherwise there is
/// one event for all RDNSS options, one for all DNSSL options, and one for
/// each prefix.
pub proof fn law_detected(ra: RouterAdvertisement, events: Vec<detector::Event>)
    requires
        call_ensures(detect, (ra,), events),
    ensures
        events@.len() > 0,
        events@[0] matches detector::Event::Router { key, managed, other_config, lifetime } && {
            &&& key.ifindex == ra.ifindex
            &&& key.router_ip == ra.router_ip
            &&& managed == ra.managed
            &&& other_config == ra.other_config
            &&& lifetime.nanos == ra.router_lifetime * 1_000_000_000
        },
        ra.router_lifetime == 0 ==> events@.len() == 1,
        ra.router_lifetime != 0 ==> events@.len() == 1 + ra.prefixes@.len() + if ra.rdnss@.len()
            > 0 {
            1int
        } else {
            0
        } + if ra.dnssl@.len() > 0 {
            1int
        } else {
            0
        },
{
    let said = ra.deep_view();
    let out = events.deep_view();
    law_router_detected(said);
    assert(out.len() == events@.len());
    assert(out[0] == events@[0].deep_view());
    assert(said.options.rdnss.len() == ra.rdnss@.len());
    assert(said.options.dnssl.len() == ra.dnssl@.len());
    assert(said.options.prefixes =~= ra.prefixes@);
    if ra.router_lifetime != 0 {
        law_prefixes_detected(said);
    }
}

/// Prefixes are detected last, in the order of their options, each with its
/// own lifetimes.
pub proof fn law_prefix_detected(ra: RouterAdvertisement, events: Vec<detector::Event>, i: int)
    requires
        call_ensures(detect, (ra,), events),
        ra.router_lifetime != 0,
        0 <= i < ra.prefixes@.len(),
    ensures
        match events@[events@.len() - ra.prefixes@.len() + i] {
            detector::Event::Prefix { key, prefix_info, lifetime, preferred_lifetime } => {
                let option = ra.prefixes@[i];
                &&& key.ifindex == ra.ifindex
                &&& key.router_ip == ra.router_ip
                &&& prefix_info.prefix == option.prefix
                &&& prefix_info.prefix_len == option.prefix_len
                &&& lifetime.nanos == option.valid_lifetime * 1_000_000_000
                &&& preferred_lifetime.nanos == option.preferred_lifetime * 1_000_000_000
            },
            _ => false,
        },
{
    let said = ra.deep_view();
    let out = events.deep_view();
    let n = events@.len() - ra.prefixes@.len() + i;
    law_prefixes_detected(said);
    assert(out.len() == events@.len());
    assert(said.options.rdnss.len() == ra.rdnss@.len());
    assert(said.options.dnssl.len() == ra.dnssl@.len());
    assert(said.options.prefixes =~= ra.prefixes@);
    assert(out[n] == events@[n].deep_view());
}

/// DNS servers are detected option by option, each with its servers and
/// lifetime; none at all if one of the options has a zero lifetime.
pub proof fn law_rdnss_detected(ra: RouterAdvertisement, events: Vec<detector::Event>)
    requires
        call_ensures(detect, (ra,), events),
        ra.router_lifetime != 0,
    ensures
        ra.rdnss@.len() > 0 ==> events@.len() > 1 && match events@[1] {
            detector::Event::DnsServers(key, groups) => {
                &&& key.ifindex == ra.ifindex
                &&& key.router_ip == ra.router_ip
                &&& if exists|i: int|
                    0 <= i < ra.rdnss@.len() && (#[trigger] ra.rdnss@[i]).lifetime == 0 {
                    groups@.len() == 0
                } else {
                    groups@.len() == ra.rdnss@.len() && forall|i: int|
                        0 <= i < groups@.len() ==> (#[trigger] groups@[i]).servers@
                            == ra.rdnss@[i].servers@ && groups@[i].lifetime.nanos
                            == ra.rdnss@[i].lifetime * 1_000_000_000
                }
            },
            _ => false,
        },
{
    let said = ra.deep_view();
    let out = events.deep_view();
    let options = said.options.rdnss;
    law_servers_detected(said);
    assert(out.len() == events@.len());
    assert(options.len() == ra.rdnss@.len());
    assert forall|i: int| 0 <= i < options.len() implies #[trigger] options[i].lifetime
        == ra.rdnss@[i].lifetime by {}
    if ra.rdnss@.len() > 0 {
        assert(out[1] == events@[1].deep_view());
        if exists|i: int| 0 <= i < ra.rdnss@.len() && (#[trigger] ra.rdnss@[i]).lifetime == 0 {
            let i = choose|i: int|
                0 <= i < ra.rdnss@.len() && (#[trigger] ra.rdnss@[i]).lifetime == 0;
            assert(options[i].lifetime == 0);
        }
        if let detector::Event::DnsServers(key, groups) = events@[1] {
            let seen = groups.deep_view();
            assert(seen.len() == groups@.len());
            assert forall|i: int| 0 <= i < groups@.len() && seen.len() == options.len() && (forall|
                i: int,
            |
                0 <= i < seen.len() ==> (#[trigger] seen[i]).items == options[i].items
                    && seen[i].lifetime.nanos == options[i].lifetime
                    * 1_000_000_000) implies (#[trigger] groups@[i]).servers@
                == ra.rdnss@[i].servers@ && groups@[i].lifetime.nanos == ra.rdnss@[i].lifetime
                * 1_000_000_000 by {
                assert(seen[i] == groups@[i].deep_view());
                assert(options[i] == ra.rdnss@[i].deep_view());
                assert(groups@[i].servers.deep_view() =~= groups@[i].servers@);
                assert(ra.rdnss@[i].servers.deep_view() =~= ra.rdnss@[i].servers@);
            }
        }
    }
}

/// Search domains are detected option by option, each with its domains and
/// lifetime; none at all if one of the options has a zero lifetime.
pub proof fn law_dnssl_detected(ra: RouterAdvertisement, events: Vec<detector::Event>)
    requires
        call_ensures(detect, (ra,), events),
        ra.router_lifetime != 0,
    ensures
        ({
            let at: int = if ra.rdnss@.len() > 0 {
                2
            } else {
                1
            };
            ra.dnssl@.len() > 0 ==> events@.len() > at && match events@[at] {
                detector::Event::DnsDomains(key, groups) => {
                    &&& key.ifindex == ra.ifindex
                    &&& key.router_ip == ra.router_ip
                    &&& if exists|i: int|
                        0 <= i < ra.dnssl@.len() && (#[trigger] ra.dnssl@[i]).lifetime == 0 {
                        groups@.len() == 0
                    } else {
                        groups@.len() == ra.dnssl@.len() && forall|i: int|
                            0 <= i < groups@.len() ==> (#[trigger] groups@[i]).domains.deep_view()
                                == ra.dnssl@[i].domains.deep_view() && groups@[i].lifetime.nanos
                                == ra.dnssl@[i].lifetime * 1_000_000_000
                    }
                },
                _ => false,
            }
        }),
{
    let at: int = if ra.rdnss@.len() > 0 {
        2
    } else {
        1
    };
    let said = ra.deep_view();
    let out = events.deep_view();
    let options = said.options.dnssl;
    law_domains_detected(said);
    assert(out.len() == events@.len());
    assert(options.len() == ra.dnssl@.len());
    assert(said.options.rdnss.len() == ra.rdnss@.len());
    assert forall|i: int| 0 <= i < options.len() implies #[trigger] options[i].lifetime
        == ra.dnssl@[i].lifetime by {}
    if ra.dnssl@.len() > 0 {
        assert(out[at] == events@[at].deep_view());
        if exists|i: int| 0 <= i < ra.dnssl@.len() && (#[trigger] ra.dnssl@[i]).lifetime == 0 {
            let i = choose|i: int|
                0 <= i < ra.dnssl@.len() && (#[trigger] ra.dnssl@[i]).lifetime == 0;
            assert(options[i].lifetime == 0);
        }
        if let detector::Event::DnsDomains(key, groups) = events@[at] {
            let seen = groups.deep_view();
            assert(seen.len() == groups@.len());
            assert forall|i: int| 0 <= i < groups@.len() && seen.len() == options.len() && (forall|
                i: int,
            |
                0 <= i < seen.len() ==> (#[trigger] seen[i]).items == options[i].items
                    && seen[i].lifetime.nanos == options[i].lifetime
                    * 1_000_000_000) implies (#[trigger] groups@[i]).domains.deep_view()
                == ra.dnssl@[i].domains.deep_view() && groups@[i].lifetime.nanos
                == ra.dnssl@[i].lifetime * 1_000_000_000 by {
                assert(seen[i] == groups@[i].deep_view());
                assert(options[i] == ra.dnssl@[i].deep_view());
            }
        }
    }
}

// Validity

/// Every observation is reported by one change, in its order.
pub proof fn law_observations_handled(
    valid: &mut Lifecycle,
    events: Vec<detector::Event>,
    now: Instant,
    res: Vec<lifecycle::Event>,
)
    requires
        call_ensures(Lifecycle::update, (valid, events, now), res),
    ensures
        final(valid).deep_view() == observed_all(old(valid).deep_view(), events.deep_view(), now),
        res@.len() == events@.len(),
        forall|i: int|
            0 <= i < res@.len() ==> #[trigger] res@[i] == match events@[i] {
                detector::Event::Router { key, managed, other_config, lifetime } => {
                    if lifetime.nanos == 0 {
                        lifecycle::Event::RouterExpiry { key }
                    } else {
                        lifecycle::Event::Router { key, managed, other_config }
                    }
                },
                detector::Event::DnsServers(key, servers) => lifecycle::Event::DnsServers {
                    key,
                    servers,
                },
                detector::Event::DnsDomains(key, domains) => lifecycle::Event::DnsDomains {
                    key,
                    domains,
                },
                detector::Event::Prefix { key, prefix_info, lifetime, preferred_lifetime } => {
                    if lifetime.nanos == 0 {
                        lifecycle::Event::PrefixExpiry { key, prefix_info }
                    } else {
                        lifecycle::Event::Prefix { key, prefix_info }
                    }
                },
            },
{
}

/// After expiry everything that is left has its deadline still to come, and a
/// prefix is reported exactly if its valid or its preferred lifetime is over.
pub proof fn law_expiry_handled(
    valid: &mut Lifecycle,
    now: Instant,
    res: (Vec<lifecycle::Event>, Vec<lifecycle::Event>),
    key: Key,
    info: PrefixInfo,
)
    requires
        old(valid).deep_view().wf(),
        call_ensures(Lifecycle::expire, (valid, now), res),
    ensures
        final(valid).router_store@ == old(valid).router_store@.filter(
            |e: (Key, Instant)| e.1.nanos > now.nanos,
        ),
        forall|k: Key, list: Seq<LifecycleEntry<PrefixInfo>>, i: int|
            #![trigger final(valid).deep_view().prefixes.contains((k, list)), list[i]]
            final(valid).deep_view().prefixes.contains((k, list)) && 0 <= i < list.len()
                ==> list[i].expires_at.nanos > now.nanos,
        ({
            let t = old(valid).deep_view();
            let there = forall|t: Instant| #[trigger]
                old(valid).router_store@.contains((key, t)) ==> t.nanos > now.nanos;
            &&& res.0.deep_view().contains(lifecycle::EventView::RouterExpiry { key }) <==> !there
            &&& res.0.deep_view().contains(
                lifecycle::EventView::PrefixExpiry { key, prefix_info: info },
            ) <==> there && exists|
                list: Seq<LifecycleEntry<PrefixInfo>>,
                e: LifecycleEntry<PrefixInfo>,
            | #[trigger]
                t.prefixes.contains((key, list)) && #[trigger] list.contains(e) && e.data == info
                    && e.expires_at.nanos <= now.nanos
            &&& res.1.deep_view().contains(
                lifecycle::EventView::PrefixSoftExpiry { key, prefix_info: info },
            ) <==> there && exists|
                list: Seq<LifecycleEntry<PrefixInfo>>,
                e: LifecycleEntry<PrefixInfo>,
            | #[trigger]
                t.soft_prefixes.contains((key, list)) && #[trigger] list.contains(e) && e.data
                    == info && e.expires_at.nanos <= now.nanos
        }),
{
    let state = old(valid).deep_view();
    let out = final(valid).deep_view();
    law_expired(state, now);
    law_expiry_is_reported(state, now, key, info);
    assert forall|k: Key, list: Seq<LifecycleEntry<PrefixInfo>>, i: int|
        #![trigger out.prefixes.contains((k, list)), list[i]]
        out.prefixes.contains((k, list)) && 0 <= i < list.len() implies list[i].expires_at.nanos
        > now.nanos by {
        let p = |e: LifecycleEntry<PrefixInfo>| e.expires_at.nanos > now.nanos;
        let whole = choose|whole: Seq<LifecycleEntry<PrefixInfo>>| #[trigger]
            state.prefixes.contains((k, whole)) && list == whole.filter(p);
        whole.lemma_filter_pred(p, i);
    }
}

/// DNS servers that are announced at time `then` by a router that stays are
/// still there after expiry at time `now`, group by group, exactly if their
/// lifetime is not over.
pub proof fn law_servers_kept(
    first: &mut Lifecycle,
    events: Vec<detector::Event>,
    then: Instant,
    told: Vec<lifecycle::Event>,
    second: &mut Lifecycle,
    now: Instant,
    gone: (Vec<lifecycle::Event>, Vec<lifecycle::Event>),
    key: Key,
    groups: Vec<detector::DnsServers>,
    n: int,
)
    requires
        old(first).deep_view().wf(),
        call_ensures(Lifecycle::update, (first, events, then), told),
        *old(second) == *final(first),
        call_ensures(Lifecycle::expire, (second, now), gone),
        events@ == seq![detector::Event::DnsServers(key, groups)],
        forall|i: int|
            0 <= i < groups@.len() ==> then.nanos + (#[trigger] groups@[i]).lifetime.nanos
                <= u128::MAX,
        forall|t: Instant| #[trigger]
            old(first).router_store@.contains((key, t)) ==> t.nanos > now.nanos,
        0 <= n < groups@.len(),
    ensures
        (exists|
            list: Seq<LifecycleEntry<Group<Ipv6Addr>>>,
            e: LifecycleEntry<Group<Ipv6Addr>>,
        | #[trigger]
            final(second).deep_view().servers.contains((key, list)) && #[trigger] list.contains(e)
                && e.data == groups@[n].deep_view()) <==> then.nanos + groups@[n].lifetime.nanos
            > now.nanos,
{
    let state = old(first).deep_view();
    let seen = groups.deep_view();
    lemma_one_event(state, events, then);
    assert forall|i: int| 0 <= i < seen.len() implies then.nanos + (
    #[trigger] seen[i]).lifetime.nanos <= u128::MAX by {
        assert(seen[i] == groups@[i].deep_view());
    }
    assert(seen[n] == groups@[n].deep_view());
    law_servers_live_their_lifetime(state, key, seen, then, now, n);
}

proof fn lemma_one_event(
    state: lifecycle::LifecycleView,
    events: Vec<detector::Event>,
    now: Instant,
)
    requires
        events@.len() == 1,
    ensures
        observed_all(state, events.deep_view(), now) == lifecycle::observed(
            state,
            events@[0].deep_view(),
            now,
        ),
{
    let seen = events.deep_view();
    assert(seen[0] == events@[0].deep_view());
    law_one_after_the_other(state, Seq::empty(), seen[0], now);
    assert(seen =~= Seq::empty().push(seen[0]));
}

/// A prefix that is announced at time `then` by a router that stays is
/// reported as expired at time `now` exactly if its valid lifetime is over,
/// and as deprecated exactly if its preferred lifetime, where it differs, is
/// over.
pub proof fn law_prefix_kept(
    first: &mut Lifecycle,
    events: Vec<detector::Event>,
    then: Instant,
    told: Vec<lifecycle::Event>,
    second: &mut Lifecycle,
    now: Instant,
    gone: (Vec<lifecycle::Event>, Vec<lifecycle::Event>),
    key: Key,
    info: PrefixInfo,
    lifetime: Duration,
    preferred: Duration,
)
    requires
        old(first).deep_view().wf(),
        call_ensures(Lifecycle::update, (first, events, then), told),
        *old(second) == *final(first),
        call_ensures(Lifecycle::expire, (second, now), gone),
        events@ == seq![
            detector::Event::Prefix {
                key,
                prefix_info: info,
                lifetime,
                preferred_lifetime: preferred,
            },
        ],
        lifetime.nanos != 0,
        preferred.nanos != 0,
        then.nanos + lifetime.nanos <= u128::MAX,
        then.nanos + preferred.nanos <= u128::MAX,
        forall|t: Instant| #[trigger]
            old(first).router_store@.contains((key, t)) ==> t.nanos > now.nanos,
    ensures
        gone.0.deep_view().contains(lifecycle::EventView::PrefixExpiry { key, prefix_info: info })
            <==> then.nanos + lifetime.nanos <= now.nanos,
        gone.1.deep_view().contains(
            lifecycle::EventView::PrefixSoftExpiry { key, prefix_info: info },
        ) <==> preferred.nanos != lifetime.nanos && then.nanos + preferred.nanos <= now.nanos,
{
    let state = old(first).deep_view();
    lemma_one_event(state, events, then);
    law_prefix_lives_its_lifetimes(state, key, info, lifetime, preferred, then, now);
}

/// The next deadline is one that something has, nothing has an earlier one,
/// and there is none exactly if nothing has any.
pub proof fn law_next_deadline(valid: &Lifecycle, next: Option<Instant>)
    requires
        call_ensures(Lifecycle::next_expiry, (valid,), next),
    ensures
        ({
            let t = valid.deep_view();
            let bound = |u: Instant| next is Some && next->0.nanos <= u.nanos;
            &&& forall|i: int| 0 <= i < t.routers.len() ==> bound((#[trigger] t.routers[i]).1)
            &&& forall|i: int, j: int|
                0 <= i < t.servers.len() && 0 <= j < t.servers[i].1.len() ==> bound(
                    (#[trigger] t.servers[i].1[j]).expires_at,
                )
            &&& forall|i: int, j: int|
                0 <= i < t.domains.len() && 0 <= j < t.domains[i].1.len() ==> bound(
                    (#[trigger] t.domains[i].1[j]).expires_at,
                )
            &&& forall|i: int, j: int|
                0 <= i < t.prefixes.len() && 0 <= j < t.prefixes[i].1.len() ==> bound(
                    (#[trigger] t.prefixes[i].1[j]).expires_at,
                )
            &&& forall|i: int, j: int|
                0 <= i < t.soft_prefixes.len() && 0 <= j < t.soft_prefixes[i].1.len() ==> bound(
                    (#[trigger] t.soft_prefixes[i].1[j]).expires_at,
                )
        }),
        next matches Some(u) ==> {
            let t = valid.deep_view();
            ||| exists|i: int| 0 <= i < t.routers.len() && (#[trigger] t.routers[i]).1 == u
            ||| exists|i: int, j: int|
                0 <= i < t.servers.len() && 0 <= j < t.servers[i].1.len() && (
                #[trigger] t.servers[i].1[j]).expires_at == u
            ||| exists|i: int, j: int|
                0 <= i < t.domains.len() && 0 <= j < t.domains[i].1.len() && (
                #[trigger] t.domains[i].1[j]).expires_at == u
            ||| exists|i: int, j: int|
                0 <= i < t.prefixes.len() && 0 <= j < t.prefixes[i].1.len() && (
                #[trigger] t.prefixes[i].1[j]).expires_at == u
            ||| exists|i: int, j: int|
                0 <= i < t.soft_prefixes.len() && 0 <= j < t.soft_prefixes[i].1.len() && (
                #[trigger] t.soft_prefixes[i].1[j]).expires_at == u
        },
{
    let t = valid.deep_view();
    assert forall|i: int| 0 <= i < t.routers.len() implies next is Some && next->0.nanos <= (
    #[trigger] t.routers[i]).1.nanos by {
        assert(t.deadline(t.routers[i].1));
    }
    assert forall|i: int, j: int|
        0 <= i < t.servers.len() && 0 <= j < t.servers[i].1.len() implies next is Some
        && next->0.nanos <= (#[trigger] t.servers[i].1[j]).expires_at.nanos by {
        assert(t.deadline(t.servers[i].1[j].expires_at));
    }
    assert forall|i: int, j: int|
        0 <= i < t.domains.len() && 0 <= j < t.domains[i].1.len() implies next is Some
        && next->0.nanos <= (#[trigger] t.domains[i].1[j]).expires_at.nanos by {
        assert(t.deadline(t.domains[i].1[j].expires_at));
    }
    assert forall|i: int, j: int|
        0 <= i < t.prefixes.len() && 0 <= j < t.prefixes[i].1.len() implies next is Some
        && next->0.nanos <= (#[trigger] t.prefixes[i].1[j]).expires_at.nanos by {
        assert(t.deadline(t.prefixes[i].1[j].expires_at));
    }
    assert forall|i: int, j: int|
        0 <= i < t.soft_prefixes.len() && 0 <= j < t.soft_prefixes[i].1.len() implies next is Some
        && next->0.nanos <= (#[trigger] t.soft_prefixes[i].1[j]).expires_at.nanos by {
        assert(t.deadline(t.soft_prefixes[i].1[j].expires_at));
    }
}

// Aggregation

/// What a router contributes to the prefixes is what the table has of it.
pub proof fn law_prefixes_looked_up(
    aggregator: &Aggregator,
    key: &Key,
    res: Option<Vec<PrefixInfo>>,
)
    requires
        aggregator.deep_view().wf(),
        call_ensures(Aggregator::get_prefixes, (aggregator, key), res),
    ensures
        res matches Some(list) ==> aggregator.deep_view().prefixes.contains((*key, list@)),
        res is None ==> forall|i: int|
            0 <= i < aggregator.deep_view().prefixes.len() ==> (
            #[trigger] aggregator.deep_view().prefixes[i]).0 != *key,
{
    law_lookup(aggregator.deep_view().prefixes, *key);
    if let Some(list) = res {
        assert(list.deep_view() =~= list@);
        assert(res.deep_view() == Some(list@));
    }
}

/// DNS servers of an interface are extended by those that are not there yet,
/// and nothing else of it changes.
pub proof fn law_servers_added(aggregate: &mut Aggregate, servers: &[Ipv6Addr], res: ())
    requires
        call_ensures(Aggregate::apply_dns_servers, (aggregate, servers), res),
    ensures
        final(aggregate).router == old(aggregate).router,
        final(aggregate).domains.deep_view() == old(aggregate).domains.deep_view(),
        final(aggregate).prefixes@ == old(aggregate).prefixes@,
        forall|x: Ipv6Addr| #[trigger]
            final(aggregate).dns_servers@.contains(x) <==> old(aggregate).dns_servers@.contains(x)
                || servers@.contains(x),
        old(aggregate).dns_servers@.is_prefix_of(final(aggregate).dns_servers@),
{
    let (a, b) = (old(aggregate).deep_view(), final(aggregate).deep_view());
    assert(servers.deep_view() =~= servers@);
    law_aggregate_view(*old(aggregate));
    law_aggregate_view(*final(aggregate));
    assert(a.router == b.router && a.domains == b.domains && a.prefixes == b.prefixes);
    law_extended(a.dns_servers, servers@);
}

/// Search domains of an interface are extended by those that are not there
/// yet, and nothing else of it changes.
pub proof fn law_domains_added(aggregate: &mut Aggregate, domains: &[String], res: ())
    requires
        call_ensures(Aggregate::apply_domains, (aggregate, domains), res),
    ensures
        final(aggregate).router == old(aggregate).router,
        final(aggregate).dns_servers@ == old(aggregate).dns_servers@,
        final(aggregate).prefixes@ == old(aggregate).prefixes@,
        forall|x: Seq<char>| #[trigger]
            final(aggregate).domains.deep_view().contains(x) <==> old(
                aggregate,
            ).domains.deep_view().contains(x) || domains.deep_view().contains(x),
        old(aggregate).domains.deep_view().is_prefix_of(final(aggregate).domains.deep_view()),
{
    let (a, b) = (old(aggregate).deep_view(), final(aggregate).deep_view());
    law_aggregate_view(*old(aggregate));
    law_aggregate_view(*final(aggregate));
    assert(a.router == b.router && a.dns_servers == b.dns_servers && a.prefixes == b.prefixes);
    law_extended(a.domains, domains.deep_view());
}

/// Prefixes of an interface are extended by those that are not there yet, and
/// nothing else of it changes.
pub proof fn law_prefixes_added(aggregate: &mut Aggregate, prefixes: &[PrefixInfo], res: ())
    requires
        call_ensures(Aggregate::apply_prefixes, (aggregate, prefixes), res),
    ensures
        final(aggregate).router == old(aggregate).router,
        final(aggregate).dns_servers@ == old(aggregate).dns_servers@,
        final(aggregate).domains.deep_view() == old(aggregate).domains.deep_view(),
        forall|x: PrefixInfo| #[trigger]
            final(aggregate).prefixes@.contains(x) <==> old(aggregate).prefixes@.contains(x)
                || prefixes@.contains(x),
        old(aggregate).prefixes@.is_prefix_of(final(aggregate).prefixes@),
{
    let (a, b) = (old(aggregate).deep_view(), final(aggregate).deep_view());
    assert(prefixes.deep_view() =~= prefixes@);
    law_aggregate_view(*old(aggregate));
    law_aggregate_view(*final(aggregate));
    assert(a.router == b.router && a.dns_servers == b.dns_servers && a.domains == b.domains);
    law_extended(a.prefixes, prefixes@);
}

/// A router adds its flags to those that are there, and takes none away.
pub proof fn law_router_added(aggregate: &mut Aggregate, router: &Router, res: ())
    requires
        call_ensures(Aggregate::apply_router, (aggregate, router), res),
    ensures
        final(aggregate).router matches Some(flags) && {
            &&& flags.managed <==> router.managed || (old(aggregate).router is Some
                && old(aggregate).router->0.managed)
            &&& flags.other_config <==> router.other_config || (old(aggregate).router is Some
                && old(aggregate).router->0.other_config)
        },
{
    assert(final(aggregate).deep_view().router == final(aggregate).router);
    law_flags_combine(old(aggregate).router, *router);
}

/// The flags of an interface are set exactly if one of its routers sets them.
pub proof fn law_interface_aggregated(
    aggregator: &Aggregator,
    ifindex: InterfaceIndex,
    res: Aggregate,
)
    requires
        call_ensures(Aggregator::aggregate_interface, (aggregator, ifindex), res),
    ensures
        ({
            let t = aggregator.routers@;
            &&& res.router is Some <==> exists|i: int|
                0 <= i < t.len() && (#[trigger] t[i]).0.ifindex == ifindex
            &&& res.router matches Some(flags) ==> {
                &&& flags.managed <==> exists|i: int|
                    0 <= i < t.len() && (#[trigger] t[i]).0.ifindex == ifindex && t[i].1.managed
                &&& flags.other_config <==> exists|i: int|
                    0 <= i < t.len() && (#[trigger] t[i]).0.ifindex == ifindex
                        && t[i].1.other_config
            }
        }),
        res.deep_view() == aggregate_of(aggregator.deep_view(), ifindex),
{
    assert(res.deep_view().router == res.router);
    law_flags(aggregator.deep_view(), ifindex);
}

/// Of an interface exactly those sections are reported that differ.
pub proof fn law_differences_reported(
    before: Table<InterfaceIndex, Aggregate>,
    after: Table<InterfaceIndex, Aggregate>,
    events: Vec<Event>,
    ifindex: InterfaceIndex,
    x: Aggregate,
    y: Aggregate,
)
    requires
        before.wf(),
        after.wf(),
        call_ensures(diff_aggregate_parts, (before, after), events),
        before@.contains((ifindex, x)),
        after@.contains((ifindex, y)),
    ensures
        forall|managed: bool, other_config: bool|
            #[trigger] events.deep_view().contains(
                EventView::RouterUpdate { ifindex, managed, other_config },
            ) <==> x.router != y.router && y.router == Some(Router { managed, other_config }),
        events.deep_view().contains(EventView::RouterDown { ifindex }) <==> x.router is Some
            && y.router is None,
        forall|servers: Seq<Ipv6Addr>, domains: Seq<Seq<char>>|
            #[trigger] events.deep_view().contains(
                EventView::RaDns { ifindex, servers, domains },
            ) <==> {
                &&& x.dns_servers@ != y.dns_servers@ || x.domains.deep_view()
                    != y.domains.deep_view()
                &&& servers == y.dns_servers@
                &&& domains == y.domains.deep_view()
            },
        forall|prefixes: Seq<PrefixInfo>|
            #[trigger] events.deep_view().contains(EventView::RaPrefix { ifindex, prefixes })
                <==> x.prefixes@ != y.prefixes@ && prefixes == y.prefixes@,
{
    assert(x.dns_servers.deep_view() =~= x.dns_servers@);
    assert(y.dns_servers.deep_view() =~= y.dns_servers@);
    assert(x.prefixes.deep_view() =~= x.prefixes@);
    assert(y.prefixes.deep_view() =~= y.prefixes@);
    lemma_deep_table(before@);
    lemma_deep_table(after@);
    lemma_deep_entry(before@, ifindex, x);
    lemma_deep_entry(after@, ifindex, y);
    law_sections_reported(
        before.deep_view(),
        after.deep_view(),
        ifindex,
        x.deep_view(),
        y.deep_view(),
    );
}

proof fn lemma_deep_entry<K, V: DeepView>(t: Seq<(K, V)>, key: K, value: V)
    requires
        t.contains((key, value)),
    ensures
        crate::table::deep_table(t).contains((key, value.deep_view())),
{
    let i = choose|i: int| 0 <= i < t.len() && t[i] == (key, value);
    assert(crate::table::deep_table(t)[i] == (key, value.deep_view()));
}

/// Changes are applied in their order, and of every interface exactly those
/// sections are reported that are different afterwards.
pub proof fn law_changes_handled(
    aggregator: &mut Aggregator,
    told: Vec<lifecycle::Event>,
    events: Vec<Event>,
    ifindex: InterfaceIndex,
)
    requires
        call_ensures(Aggregator::process, (aggregator, told), events),
    ensures
        final(aggregator).deep_view() == applied_all(
            old(aggregator).deep_view(),
            told.deep_view(),
        ),
        ({
            let x = aggregate_of(old(aggregator).deep_view(), ifindex);
            let y = aggregate_of(final(aggregator).deep_view(), ifindex);
            &&& forall|servers: Seq<Ipv6Addr>, domains: Seq<Seq<char>>|
                #[trigger] events.deep_view().contains(
                    EventView::RaDns { ifindex, servers, domains },
                ) <==> {
                    &&& x.dns_servers != y.dns_servers || x.domains != y.domains
                    &&& servers == y.dns_servers
                    &&& domains == y.domains
                }
            &&& forall|prefixes: Seq<PrefixInfo>|
                #[trigger] events.deep_view().contains(EventView::RaPrefix { ifindex, prefixes })
                    <==> x.prefixes != y.prefixes && prefixes == y.prefixes
            &&& forall|managed: bool, other_config: bool|
                #[trigger] events.deep_view().contains(
                    EventView::RouterUpdate { ifindex, managed, other_config },
                ) <==> x.router != y.router && y.router == Some(Router { managed, other_config })
            &&& events.deep_view().contains(EventView::RouterDown { ifindex }) <==> x.router is Some
                && y.router is None
        }),
{
    law_changes_reported(old(aggregator).deep_view(), final(aggregator).deep_view(), ifindex);
}

// The pipeline

/// A prefix that reached its preferred lifetime is reported for its interface
/// exactly if its router still contributes it.
pub proof fn law_deprecation_reported(
    aggregator: &Aggregator,
    told: Vec<lifecycle::Event>,
    events: Vec<Event>,
    key: Key,
    info: PrefixInfo,
)
    requires
        aggregator.deep_view().wf(),
        call_ensures(soft_expiry_events, (aggregator, told), events),
        told@ == seq![lifecycle::Event::PrefixSoftExpiry { key, prefix_info: info }],
    ensures
        ({
            let t = aggregator.deep_view().prefixes;
            if exists|i: int, j: int|
                {
                    &&& 0 <= i < t.len()
                    &&& t[i].0 == key
                    &&& 0 <= j < t[i].1.len()
                    &&& #[trigger] t[i].1[j] == info
                } {
                events@.len() == 1 && events@[0] == (Event::RaPrefixSoftExpiry {
                    ifindex: key.ifindex,
                    prefix: info,
                })
            } else {
                events@.len() == 0
            }
        }),
{
    let seen = told.deep_view();
    let out = events.deep_view();
    assert(seen[0] == told@[0].deep_view());
    assert(seen =~= seq![seen[0]]);
    law_soft_report(aggregator.deep_view(), seen[0]);
    assert(out.len() == events@.len());
    if out.len() == 1 {
        assert(out[0] == events@[0].deep_view());
    }
}

/// A link that comes up gets a burst of three solicitations, a second apart,
/// in place of the burst that its interface may have. Nothing else changes.
pub proof fn law_link_handled<H>(
    monitor: &mut RouterMonitor<H>,
    ifindex: InterfaceIndex,
    handle: H,
    res: (RouterSolicitationBurst, Option<H>),
)
    requires
        old(monitor).wf(),
        call_ensures(RouterMonitor::<H>::link_up, (monitor, ifindex, handle), res),
    ensures
        res.0.ifindex == ifindex,
        res.0.remaining == 3,
        res.0.interval.nanos == 1_000_000_000,
        forall|h: H| res.1 == Some(h) <==> #[trigger]
            old(monitor).pending_rs@.contains((ifindex, h)),
        final(monitor).pending_rs@ == old(monitor).pending_rs@.filter(
            |e: (InterfaceIndex, H)| e.0 != ifindex,
        ).push((ifindex, handle)),
        final(monitor).lifecycle == old(monitor).lifecycle,
        final(monitor).aggregator == old(monitor).aggregator,
{
    let t = old(monitor).pending_rs@;
    law_burst();
    law_lookup(t, ifindex);
    lemma_without_filter(t, ifindex, |e: (InterfaceIndex, H)| e.0 != ifindex);
    crate::table::law_without(t, ifindex);
    let rest = crate::table::without(t, ifindex);
    law_put_entries(rest, ifindex, handle);
    law_lookup(rest, ifindex);
}

/// A message has an effect exactly if it is an advertisement. It then ends the
/// burst of its interface, and afterwards the interface has exactly what is
/// valid; of every interface exactly those sections are reported that are
/// different afterwards.
pub proof fn law_message_handled<H>(
    monitor: &mut RouterMonitor<H>,
    from: InterfaceIndex,
    router_ip: Ipv6Addr,
    payload: &[u8],
    now: Instant,
    res: Option<Reaction<H>>,
    ifindex: InterfaceIndex,
)
    requires
        old(monitor).wf(),
        call_ensures(RouterMonitor::<H>::receive, (monitor, from, router_ip, payload, now), res),
    ensures
        res is Some <==> payload@.len() >= 16 && payload@[0] == 134,
        res is None ==> *final(monitor) == *old(monitor),
        final(monitor).wf(),
        res matches Some(reaction) ==> {
            let x = aggregate_of(old(monitor).aggregator.deep_view(), ifindex);
            let y = aggregate_of(final(monitor).aggregator.deep_view(), ifindex);
            let out = reaction.events.deep_view();
            &&& forall|h: H| reaction.stop == Some(h) <==> #[trigger]
                old(monitor).pending_rs@.contains((from, h))
            &&& final(monitor).pending_rs@ == old(monitor).pending_rs@.filter(
                |e: (InterfaceIndex, H)| e.0 != from,
            )
            &&& final(monitor).lifecycle.deep_view() == observed_all(
                old(monitor).lifecycle.deep_view(),
                detector::detected(advertisement(from, router_ip, payload@)),
                now,
            )
            &&& forall|servers: Seq<Ipv6Addr>, domains: Seq<Seq<char>>|
                #[trigger] out.contains(EventView::RaDns { ifindex, servers, domains }) <==> {
                    &&& x.dns_servers != y.dns_servers || x.domains != y.domains
                    &&& servers == y.dns_servers
                    &&& domains == y.domains
                }
            &&& forall|prefixes: Seq<PrefixInfo>|
                #[trigger] out.contains(EventView::RaPrefix { ifindex, prefixes }) <==> x.prefixes
                    != y.prefixes && prefixes == y.prefixes
            &&& forall|managed: bool, other_config: bool|
                #[trigger] out.contains(
                    EventView::RouterUpdate { ifindex, managed, other_config },
                ) <==> x.router != y.router && y.router == Some(Router { managed, other_config })
            &&& out.contains(EventView::RouterDown { ifindex }) <==> x.router is Some
                && y.router is None
        },
{
    let t = old(monitor).pending_rs@;
    law_lookup(t, from);
    lemma_without_filter(t, from, |e: (InterfaceIndex, H)| e.0 != from);
    law_changes_reported(
        old(monitor).aggregator.deep_view(),
        final(monitor).aggregator.deep_view(),
        ifindex,
    );
}

/// Expiry leaves of routers and prefixes exactly what is not over, reports
/// prefixes that reached their preferred lifetimes first, and then exactly
/// those sections that are different afterwards.
pub proof fn law_deadline_handled<H>(
    monitor: &mut RouterMonitor<H>,
    now: Instant,
    events: Vec<Event>,
    ifindex: InterfaceIndex,
)
    requires
        old(monitor).wf(),
        call_ensures(RouterMonitor::<H>::expire, (monitor, now), events),
    ensures
        final(monitor).wf(),
        final(monitor).pending_rs == old(monitor).pending_rs,
        final(monitor).lifecycle.router_store@ == old(monitor).lifecycle.router_store@.filter(
            |e: (Key, Instant)| e.1.nanos > now.nanos,
        ),
        final(monitor).lifecycle.deep_view() == lifecycle::expired(
            old(monitor).lifecycle.deep_view(),
            now,
        ),
        ({
            let x = aggregate_of(old(monitor).aggregator.deep_view(), ifindex);
            let y = aggregate_of(final(monitor).aggregator.deep_view(), ifindex);
            let soft = soft_reports(
                old(monitor).aggregator.deep_view(),
                soft_expiries(old(monitor).lifecycle.deep_view(), now),
            );
            let out = events.deep_view().skip(soft.len() as int);
            &&& events.deep_view() == soft + out
            &&& forall|servers: Seq<Ipv6Addr>, domains: Seq<Seq<char>>|
                #[trigger] out.contains(EventView::RaDns { ifindex, servers, domains }) <==> {
                    &&& x.dns_servers != y.dns_servers || x.domains != y.domains
                    &&& servers == y.dns_servers
                    &&& domains == y.domains
                }
            &&& forall|prefixes: Seq<PrefixInfo>|
                #[trigger] out.contains(EventView::RaPrefix { ifindex, prefixes }) <==> x.prefixes
                    != y.prefixes && prefixes == y.prefixes
            &&& forall|managed: bool, other_config: bool|
                #[trigger] out.contains(
                    EventView::RouterUpdate { ifindex, managed, other_config },
                ) <==> x.router != y.router && y.router == Some(Router { managed, other_config })
            &&& out.contains(EventView::RouterDown { ifindex }) <==> x.router is Some
                && y.router is None
        }),
{
    let (a, b) = (old(monitor).aggregator.deep_view(), final(monitor).aggregator.deep_view());
    law_expired(old(monitor).lifecycle.deep_view(), now);
    law_changes_reported(a, b, ifindex);
    let soft = soft_reports(a, soft_expiries(old(monitor).lifecycle.deep_view(), now));
    let second = changes(aggregated(a), aggregated(b));
    assert(events.deep_view().skip(soft.len() as int) =~= second);
}

/// In every state, an interface has a prefix or a DNS server exactly if one
/// of its routers has it among what is valid.
pub proof fn law_state_is_current<H>(monitor: &RouterMonitor<H>, ifindex: InterfaceIndex)
    requires
        monitor.wf(),
    ensures
        ({
            let valid = monitor.lifecycle.deep_view();
            let state = aggregate_of(monitor.aggregator.deep_view(), ifindex);
            &&& state.router is Some <==> exists|i: int|
                0 <= i < valid.routers.len() && (#[trigger] valid.routers[i]).0.ifindex == ifindex
            &&& forall|x: Ipv6Addr| #[trigger]
                state.dns_servers.contains(x) <==> exists|i: int, j: int, k: int|
                    {
                        &&& 0 <= i < valid.servers.len()
                        &&& valid.servers[i].0.ifindex == ifindex
                        &&& 0 <= j < valid.servers[i].1.len()
                        &&& 0 <= k < valid.servers[i].1[j].data.items.len()
                        &&& #[trigger] valid.servers[i].1[j].data.items[k] == x
                    }
            &&& forall|x: PrefixInfo| #[trigger]
                state.prefixes.contains(x) <==> exists|i: int, j: int|
                    {
                        &&& 0 <= i < valid.prefixes.len()
                        &&& valid.prefixes[i].0.ifindex == ifindex
                        &&& 0 <= j < valid.prefixes[i].1.len()
                        &&& (#[trigger] valid.prefixes[i].1[j]).data == x
                    }
        }),
{
    law_interface_has_what_is_valid(
        monitor.lifecycle.deep_view(),
        monitor.aggregator.deep_view(),
        ifindex,
    );
}

} // verus!
