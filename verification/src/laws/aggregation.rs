//! What is aggregated of an interface, and what is reported of it.
use vstd::prelude::*;

use crate::address::Ipv6Addr;
use crate::aggregator::{
    aggregate_of, aggregated, applied, applied_all, changes, changes_on, combine, contributions,
    dns_changes, drop_prefix, empty_aggregate, events_on, has_prefix, interface_changes,
    interface_of, interfaces, interfaces_of, items_at, law_aggregated, lemma_changes_on,
    prefix_changes, prefix_position, replace_prefix, router_changes, state_of, with_other_address,
    AggregateView, AggregatorView, Router,
};
use crate::detector::Key;
use crate::laws::merging::law_first_seen;
use crate::laws::tables::{law_lookup, law_put_entries, lemma_without_filter};
use crate::lifecycle;
use crate::merge::{by_lifetime, first_seen, law_extend_unique, Group};
use crate::repetition::{lemma_filter_members, lemma_filter_same};
use crate::table::{has_key, keys_of, lemma_position, lookup, put, unique_keys};
use crate::{EventView, InterfaceIndex, PrefixInfo};

verus! {

// What an interface is told to have

/// A flag is set once one of the routers sets it.
pub proof fn law_flags_combine(flags: Option<Router>, router: Router)
    ensures
        combine(flags, router).managed <==> router.managed || (flags is Some
            && flags->0.managed),
        combine(flags, router).other_config <==> router.other_config || (flags is Some
            && flags->0.other_config),
{
}

/// An interface has flags exactly if it has a router, and each flag is set
/// exactly if some router of the interface sets it.
pub proof fn law_flags(state: AggregatorView, ifindex: InterfaceIndex)
    ensures
        ({
            let flags = aggregate_of(state, ifindex).router;
            &&& flags is Some <==> exists|i: int|
                0 <= i < state.routers.len() && (#[trigger] state.routers[i]).0.ifindex == ifindex
            &&& flags is Some ==> {
                &&& flags->0.managed <==> exists|i: int|
                    0 <= i < state.routers.len() && (#[trigger] state.routers[i]).0.ifindex
                        == ifindex && state.routers[i].1.managed
                &&& flags->0.other_config <==> exists|i: int|
                    0 <= i < state.routers.len() && (#[trigger] state.routers[i]).0.ifindex
                        == ifindex && state.routers[i].1.other_config
            }
        }),
{
}

/// Where the contributions of a router start among those of its interface.
spec fn start<T>(t: Seq<(Key, Seq<T>)>, ifindex: InterfaceIndex, n: int) -> int {
    contributions(t.take(n), ifindex).len() as int
}

proof fn lemma_start<T>(t: Seq<(Key, Seq<T>)>, ifindex: InterfaceIndex, n: int)
    requires
        0 <= n < t.len(),
    ensures
        start(t, ifindex, n + 1) == start(t, ifindex, n) + if t[n].0.ifindex == ifindex {
            t[n].1.len() as int
        } else {
            0
        },
{
    assert(t.take(n + 1).drop_last() =~= t.take(n));
}

proof fn lemma_start_grows<T>(t: Seq<(Key, Seq<T>)>, ifindex: InterfaceIndex, m: int, n: int)
    requires
        0 <= m <= n <= t.len(),
    ensures
        start(t, ifindex, m) <= start(t, ifindex, n),
    decreases n - m,
{
    if m < n {
        lemma_start_grows(t, ifindex, m, n - 1);
        lemma_start(t, ifindex, n - 1);
    }
}

proof fn lemma_item_at<T>(t: Seq<(Key, Seq<T>)>, ifindex: InterfaceIndex, n: int, a: int)
    requires
        0 <= n < t.len(),
        t[n].0.ifindex == ifindex,
        0 <= a < t[n].1.len(),
    ensures
        0 <= start(t, ifindex, n) + a < contributions(t, ifindex).len(),
        contributions(t, ifindex)[start(t, ifindex, n) + a] == t[n].1[a],
    decreases t.len(),
{
    let rest = t.drop_last();
    if n == t.len() - 1 {
        assert(t.take(n) =~= rest);
    } else {
        lemma_item_at(rest, ifindex, n, a);
        assert(rest.take(n) =~= t.take(n));
    }
}

proof fn lemma_item_from<T>(t: Seq<(Key, Seq<T>)>, ifindex: InterfaceIndex, k: int) -> (at: (
    int,
    int,
))
    requires
        0 <= k < contributions(t, ifindex).len(),
    ensures
        0 <= at.0 < t.len(),
        t[at.0].0.ifindex == ifindex,
        0 <= at.1 < t[at.0].1.len(),
        k == start(t, ifindex, at.0) + at.1,
        contributions(t, ifindex)[k] == t[at.0].1[at.1],
    decreases t.len(),
{
    let rest = t.drop_last();
    let n = t.len() - 1;
    if k < contributions(rest, ifindex).len() {
        let at = lemma_item_from(rest, ifindex, k);
        assert(rest.take(at.0) =~= t.take(at.0));
        at
    } else {
        assert(t.take(n) =~= rest);
        (n, k - contributions(rest, ifindex).len())
    }
}

/// Whether some router of an interface contributes `x` before any of them
/// contributes `y`: in the order of the routers, and of each router in its
/// order.
pub open spec fn ahead<T>(t: Seq<(Key, Seq<T>)>, ifindex: InterfaceIndex, x: T, y: T) -> bool {
    exists|n: int, a: int|
        {
            &&& 0 <= n < t.len()
            &&& 0 <= a < t[n].1.len()
            &&& #[trigger] t[n].1[a] == x
            &&& t[n].0.ifindex == ifindex
            &&& forall|m: int, b: int|
                {
                    &&& 0 <= m < t.len()
                    &&& 0 <= b < t[m].1.len()
                    &&& #[trigger] t[m].1[b] == y
                    &&& t[m].0.ifindex == ifindex
                } ==> n < m || (n == m && a < b)
        }
}

/// A merged list holds what the routers of an interface contribute, once each:
/// in the order of the routers, and of each router in its order.
proof fn lemma_merged<T>(t: Seq<(Key, Seq<T>)>, ifindex: InterfaceIndex)
    ensures
        ({
            let out = first_seen(contributions(t, ifindex));
            forall|x: T| #[trigger]
                out.contains(x) <==> exists|n: int, a: int|
                    0 <= n < t.len() && 0 <= a < t[n].1.len() && #[trigger] t[n].1[a] == x
                        && t[n].0.ifindex == ifindex
        }),
        ({
            let out = first_seen(contributions(t, ifindex));
            forall|i: int, j: int|
                0 <= i < j < out.len() ==> #[trigger] out[i] != #[trigger] out[j]
        }),
        ({
            let out = first_seen(contributions(t, ifindex));
            forall|i: int, j: int|
                0 <= i < j < out.len() ==> ahead(t, ifindex, #[trigger] out[i], #[trigger] out[j])
        }),
{
    let all = contributions(t, ifindex);
    let out = first_seen(all);
    law_first_seen(all);
    assert forall|x: T| #[trigger] out.contains(x) <==> exists|n: int, a: int|
        0 <= n < t.len() && 0 <= a < t[n].1.len() && #[trigger] t[n].1[a] == x && t[n].0.ifindex
            == ifindex by {
        if all.contains(x) {
            let k = choose|k: int| 0 <= k < all.len() && all[k] == x;
            let (n, a) = lemma_item_from(t, ifindex, k);
            assert(t[n].1[a] == x);
        }
        if exists|n: int, a: int|
            0 <= n < t.len() && 0 <= a < t[n].1.len() && #[trigger] t[n].1[a] == x
                && t[n].0.ifindex == ifindex {
            let (n, a) = choose|n: int, a: int|
                0 <= n < t.len() && 0 <= a < t[n].1.len() && #[trigger] t[n].1[a] == x
                    && t[n].0.ifindex == ifindex;
            lemma_item_at(t, ifindex, n, a);
            assert(all.contains(x));
        }
    }
    assert forall|i: int, j: int| 0 <= i < j < out.len() implies ahead(
        t,
        ifindex,
        #[trigger] out[i],
        #[trigger] out[j],
    ) by {
        assert(out[i] != out[j]);
        let k = choose|k: int|
            {
                &&& 0 <= k < all.len()
                &&& #[trigger] all[k] == out[i]
                &&& forall|l: int| 0 <= l < all.len() && #[trigger] all[l] == out[j] ==> k < l
            };
        let (n, a) = lemma_item_from(t, ifindex, k);
        assert(t[n].1[a] == out[i]);
        assert forall|m: int, b: int|
            {
                &&& 0 <= m < t.len()
                &&& 0 <= b < t[m].1.len()
                &&& #[trigger] t[m].1[b] == out[j]
                &&& t[m].0.ifindex == ifindex
            } implies n < m || (n == m && a < b) by {
            lemma_item_at(t, ifindex, m, b);
            let l = start(t, ifindex, m) + b;
            assert(all[l] == out[j]);
            if m < n {
                lemma_start(t, ifindex, m);
                lemma_start_grows(t, ifindex, m + 1, n);
            }
        }
    }
}

/// The DNS servers of an interface are those that its routers contribute, once
/// each: in the order of the routers, and of each router in its order.
pub proof fn law_servers_merged(state: AggregatorView, ifindex: InterfaceIndex)
    ensures
        ({
            let t = state.servers;
            let out = aggregate_of(state, ifindex).dns_servers;
            forall|x: Ipv6Addr| #[trigger]
                out.contains(x) <==> exists|n: int, a: int|
                    0 <= n < t.len() && 0 <= a < t[n].1.len() && #[trigger] t[n].1[a] == x
                        && t[n].0.ifindex == ifindex
        }),
        ({
            let out = aggregate_of(state, ifindex).dns_servers;
            forall|i: int, j: int|
                0 <= i < j < out.len() ==> #[trigger] out[i] != #[trigger] out[j]
        }),
        ({
            let t = state.servers;
            let out = aggregate_of(state, ifindex).dns_servers;
            forall|i: int, j: int|
                0 <= i < j < out.len() ==> ahead(t, ifindex, #[trigger] out[i], #[trigger] out[j])
        }),
{
    lemma_merged(state.servers, ifindex);
}

/// The search domains of an interface are those that its routers contribute,
/// once each: in the order of the routers, and of each router in its order.
pub proof fn law_domains_merged(state: AggregatorView, ifindex: InterfaceIndex)
    ensures
        ({
            let t = state.domains;
            let out = aggregate_of(state, ifindex).domains;
            forall|x: Seq<char>| #[trigger]
                out.contains(x) <==> exists|n: int, a: int|
                    0 <= n < t.len() && 0 <= a < t[n].1.len() && #[trigger] t[n].1[a] == x
                        && t[n].0.ifindex == ifindex
        }),
        ({
            let out = aggregate_of(state, ifindex).domains;
            forall|i: int, j: int|
                0 <= i < j < out.len() ==> #[trigger] out[i] != #[trigger] out[j]
        }),
        ({
            let t = state.domains;
            let out = aggregate_of(state, ifindex).domains;
            forall|i: int, j: int|
                0 <= i < j < out.len() ==> ahead(t, ifindex, #[trigger] out[i], #[trigger] out[j])
        }),
{
    lemma_merged(state.domains, ifindex);
}

/// The prefixes of an interface are those that its routers contribute, once
/// each: in the order of the routers, and of each router in its order.
pub proof fn law_prefixes_merged(state: AggregatorView, ifindex: InterfaceIndex)
    ensures
        ({
            let t = state.prefixes;
            let out = aggregate_of(state, ifindex).prefixes;
            forall|x: PrefixInfo| #[trigger]
                out.contains(x) <==> exists|n: int, a: int|
                    0 <= n < t.len() && 0 <= a < t[n].1.len() && #[trigger] t[n].1[a] == x
                        && t[n].0.ifindex == ifindex
        }),
        ({
            let out = aggregate_of(state, ifindex).prefixes;
            forall|i: int, j: int|
                0 <= i < j < out.len() ==> #[trigger] out[i] != #[trigger] out[j]
        }),
        ({
            let t = state.prefixes;
            let out = aggregate_of(state, ifindex).prefixes;
            forall|i: int, j: int|
                0 <= i < j < out.len() ==> ahead(t, ifindex, #[trigger] out[i], #[trigger] out[j])
        }),
{
    lemma_merged(state.prefixes, ifindex);
}

/// The interfaces with a state are those to which some router contributes.
pub proof fn law_interfaces(
    state: AggregatorView,
    ifindex: InterfaceIndex,
    aggregate: AggregateView,
)
    ensures
        aggregated(state).contains((ifindex, aggregate)) <==> {
            &&& aggregate == aggregate_of(state, ifindex)
            &&& {
                ||| exists|i: int|
                    0 <= i < state.routers.len() && (#[trigger] state.routers[i]).0.ifindex
                        == ifindex
                ||| exists|i: int|
                    0 <= i < state.servers.len() && (#[trigger] state.servers[i]).0.ifindex
                        == ifindex
                ||| exists|i: int|
                    0 <= i < state.domains.len() && (#[trigger] state.domains[i]).0.ifindex
                        == ifindex
                ||| exists|i: int|
                    0 <= i < state.prefixes.len() && (#[trigger] state.prefixes[i]).0.ifindex
                        == ifindex
            }
        },
{
    let (a, b, c, d) = (
        interfaces_of(state.routers),
        interfaces_of(state.servers),
        interfaces_of(state.domains),
        interfaces_of(state.prefixes),
    );
    let all = a + b + c + d;
    let out = aggregated(state);
    law_first_seen(all);
    crate::repetition::lemma_add_members(a + b + c, d, ifindex);
    crate::repetition::lemma_add_members(a + b, c, ifindex);
    crate::repetition::lemma_add_members(a, b, ifindex);
    lemma_listed_interface(state.routers, ifindex);
    lemma_listed_interface(state.servers, ifindex);
    lemma_listed_interface(state.domains, ifindex);
    lemma_listed_interface(state.prefixes, ifindex);
    if out.contains((ifindex, aggregate)) {
        let i = choose|i: int| 0 <= i < out.len() && out[i] == (ifindex, aggregate);
        assert(interfaces(state)[i] == ifindex);
        assert(interfaces(state).contains(ifindex));
    }
    if interfaces(state).contains(ifindex) && aggregate == aggregate_of(state, ifindex) {
        let i = choose|i: int|
            0 <= i < interfaces(state).len() && interfaces(state)[i] == ifindex;
        assert(out[i] == (ifindex, aggregate));
    }
}

proof fn lemma_listed_interface<V>(t: Seq<(Key, V)>, ifindex: InterfaceIndex)
    ensures
        interfaces_of(t).contains(ifindex) <==> exists|i: int|
            0 <= i < t.len() && (#[trigger] t[i]).0.ifindex == ifindex,
{
    if interfaces_of(t).contains(ifindex) {
        let i = choose|i: int| 0 <= i < t.len() && interfaces_of(t)[i] == ifindex;
        assert(t[i].0.ifindex == ifindex);
    }
    if exists|i: int| 0 <= i < t.len() && (#[trigger] t[i]).0.ifindex == ifindex {
        let i = choose|i: int| 0 <= i < t.len() && (#[trigger] t[i]).0.ifindex == ifindex;
        assert(interfaces_of(t)[i] == ifindex);
    }
}

// What is reported

/// Whether `aggregate` is the state of an interface in a table, where an
/// interface that is not listed has nothing.
spec fn has_state(
    t: Seq<(InterfaceIndex, AggregateView)>,
    ifindex: InterfaceIndex,
    aggregate: AggregateView,
) -> bool {
    t.contains((ifindex, aggregate)) || {
        &&& forall|i: int| 0 <= i < t.len() ==> (#[trigger] t[i]).0 != ifindex
        &&& aggregate.router is None
        &&& aggregate.dns_servers.len() == 0
        &&& aggregate.domains.len() == 0
        &&& aggregate.prefixes.len() == 0
    }
}

proof fn lemma_state_of(
    t: Seq<(InterfaceIndex, AggregateView)>,
    ifindex: InterfaceIndex,
    aggregate: AggregateView,
)
    requires
        unique_keys(t),
        has_state(t, ifindex, aggregate),
    ensures
        state_of(t, ifindex) == aggregate,
        !keys_of(t).contains(ifindex) ==> aggregate == empty_aggregate(),
{
    law_lookup(t, ifindex);
    if t.contains((ifindex, aggregate)) {
        let i = choose|i: int| 0 <= i < t.len() && t[i] == (ifindex, aggregate);
        assert(keys_of(t)[i] == ifindex);
    } else {
        assert(aggregate.dns_servers =~= Seq::empty());
        assert(aggregate.domains =~= Seq::empty());
        assert(aggregate.prefixes =~= Seq::empty());
    }
}

proof fn lemma_changes_here(
    before: Seq<(InterfaceIndex, AggregateView)>,
    after: Seq<(InterfaceIndex, AggregateView)>,
    ifindex: InterfaceIndex,
    x: AggregateView,
    y: AggregateView,
)
    requires
        unique_keys(before),
        unique_keys(after),
        has_state(before, ifindex, x),
        has_state(after, ifindex, y),
    ensures
        events_on(changes(before, after), ifindex) == interface_changes(ifindex, x, y),
{
    let both = keys_of(before) + keys_of(after);
    let list = first_seen(both);
    lemma_state_of(before, ifindex, x);
    lemma_state_of(after, ifindex, y);
    law_extend_unique(Seq::<InterfaceIndex>::empty(), both);
    lemma_changes_on(list, before, after, ifindex);
    if !list.contains(ifindex) {
        crate::repetition::lemma_add_members(keys_of(before), keys_of(after), ifindex);
        assert(interface_changes(ifindex, x, y) =~= Seq::empty());
    }
}

proof fn lemma_change_here(
    before: Seq<(InterfaceIndex, AggregateView)>,
    after: Seq<(InterfaceIndex, AggregateView)>,
    ifindex: InterfaceIndex,
    x: AggregateView,
    y: AggregateView,
    e: EventView,
)
    requires
        unique_keys(before),
        unique_keys(after),
        has_state(before, ifindex, x),
        has_state(after, ifindex, y),
        interface_of(e) == ifindex,
    ensures
        changes(before, after).contains(e) <==> {
            ||| router_changes(ifindex, x, y).contains(e)
            ||| dns_changes(ifindex, x, y).contains(e)
            ||| prefix_changes(ifindex, x, y).contains(e)
        },
{
    let (a, b, c) = (
        router_changes(ifindex, x, y),
        dns_changes(ifindex, x, y),
        prefix_changes(ifindex, x, y),
    );
    lemma_changes_here(before, after, ifindex, x, y);
    lemma_filter_members(
        changes(before, after),
        |e: EventView| interface_of(e) == ifindex,
        e,
    );
    crate::repetition::lemma_add_members(a + b, c, e);
    crate::repetition::lemma_add_members(a, b, e);
}

/// Of every interface exactly those sections are reported that differ, each
/// with its complete state: flags, DNS servers with search domains, and
/// prefixes. A section that is the same is not reported.
pub proof fn law_sections_reported(
    before: Seq<(InterfaceIndex, AggregateView)>,
    after: Seq<(InterfaceIndex, AggregateView)>,
    ifindex: InterfaceIndex,
    x: AggregateView,
    y: AggregateView,
)
    requires
        unique_keys(before),
        unique_keys(after),
        before.contains((ifindex, x)) || {
            &&& forall|i: int| 0 <= i < before.len() ==> (#[trigger] before[i]).0 != ifindex
            &&& x.router is None
            &&& x.dns_servers.len() == 0
            &&& x.domains.len() == 0
            &&& x.prefixes.len() == 0
        },
        after.contains((ifindex, y)) || {
            &&& forall|i: int| 0 <= i < after.len() ==> (#[trigger] after[i]).0 != ifindex
            &&& y.router is None
            &&& y.dns_servers.len() == 0
            &&& y.domains.len() == 0
            &&& y.prefixes.len() == 0
        },
    ensures
        ({
            let out = changes(before, after);
            &&& forall|managed: bool, other_config: bool|
                #[trigger] out.contains(
                    EventView::RouterUpdate { ifindex, managed, other_config },
                ) <==> x.router != y.router && y.router == Some(Router { managed, other_config })
            &&& out.contains(EventView::RouterDown { ifindex }) <==> x.router is Some
                && y.router is None
            &&& forall|servers: Seq<Ipv6Addr>, domains: Seq<Seq<char>>|
                #[trigger] out.contains(EventView::RaDns { ifindex, servers, domains }) <==> {
                    &&& x.dns_servers != y.dns_servers || x.domains != y.domains
                    &&& servers == y.dns_servers
                    &&& domains == y.domains
                }
            &&& forall|prefixes: Seq<PrefixInfo>|
                #[trigger] out.contains(EventView::RaPrefix { ifindex, prefixes }) <==> x.prefixes
                    != y.prefixes && prefixes == y.prefixes
            &&& forall|prefix: PrefixInfo|
                !#[trigger] out.contains(EventView::RaPrefixSoftExpiry { ifindex, prefix })
        }),
{
    let out = changes(before, after);
    assert forall|managed: bool, other_config: bool|
        #[trigger] out.contains(EventView::RouterUpdate { ifindex, managed, other_config })
            <==> x.router != y.router && y.router == Some(Router { managed, other_config }) by {
        let e = EventView::RouterUpdate { ifindex, managed, other_config };
        lemma_change_here(before, after, ifindex, x, y, e);
        if x.router != y.router && y.router == Some(Router { managed, other_config }) {
            assert(router_changes(ifindex, x, y)[0] == e);
        }
    }
    assert(out.contains(EventView::RouterDown { ifindex }) <==> x.router is Some
        && y.router is None) by {
        let e = EventView::RouterDown { ifindex };
        lemma_change_here(before, after, ifindex, x, y, e);
        if x.router is Some && y.router is None {
            assert(router_changes(ifindex, x, y)[0] == e);
        }
    }
    assert forall|servers: Seq<Ipv6Addr>, domains: Seq<Seq<char>>|
        #[trigger] out.contains(EventView::RaDns { ifindex, servers, domains }) <==> {
            &&& x.dns_servers != y.dns_servers || x.domains != y.domains
            &&& servers == y.dns_servers
            &&& domains == y.domains
        } by {
        let e = EventView::RaDns { ifindex, servers, domains };
        lemma_change_here(before, after, ifindex, x, y, e);
        if (x.dns_servers != y.dns_servers || x.domains != y.domains) && servers == y.dns_servers
            && domains == y.domains {
            assert(dns_changes(ifindex, x, y)[0] == e);
        }
    }
    assert forall|prefixes: Seq<PrefixInfo>|
        #[trigger] out.contains(EventView::RaPrefix { ifindex, prefixes }) <==> x.prefixes
            != y.prefixes && prefixes == y.prefixes by {
        let e = EventView::RaPrefix { ifindex, prefixes };
        lemma_change_here(before, after, ifindex, x, y, e);
        if x.prefixes != y.prefixes && prefixes == y.prefixes {
            assert(prefix_changes(ifindex, x, y)[0] == e);
        }
    }
    assert forall|prefix: PrefixInfo|
        !#[trigger] out.contains(EventView::RaPrefixSoftExpiry { ifindex, prefix }) by {
        let e = EventView::RaPrefixSoftExpiry { ifindex, prefix };
        lemma_change_here(before, after, ifindex, x, y, e);
    }
}

/// For every interface exactly those sections of its aggregated state are
/// reported that are different afterwards, each with its complete state.
pub proof fn law_changes_reported(
    before: AggregatorView,
    after: AggregatorView,
    ifindex: InterfaceIndex,
)
    ensures
        ({
            let out = changes(aggregated(before), aggregated(after));
            let x = aggregate_of(before, ifindex);
            let y = aggregate_of(after, ifindex);
            &&& forall|managed: bool, other_config: bool|
                #[trigger] out.contains(
                    EventView::RouterUpdate { ifindex, managed, other_config },
                ) <==> x.router != y.router && y.router == Some(Router { managed, other_config })
            &&& out.contains(EventView::RouterDown { ifindex }) <==> x.router is Some
                && y.router is None
            &&& forall|servers: Seq<Ipv6Addr>, domains: Seq<Seq<char>>|
                #[trigger] out.contains(EventView::RaDns { ifindex, servers, domains }) <==> {
                    &&& x.dns_servers != y.dns_servers || x.domains != y.domains
                    &&& servers == y.dns_servers
                    &&& domains == y.domains
                }
            &&& forall|prefixes: Seq<PrefixInfo>|
                #[trigger] out.contains(EventView::RaPrefix { ifindex, prefixes }) <==> x.prefixes
                    != y.prefixes && prefixes == y.prefixes
            &&& forall|prefix: PrefixInfo|
                !#[trigger] out.contains(EventView::RaPrefixSoftExpiry { ifindex, prefix })
        }),
{
    law_aggregated(before, ifindex);
    law_aggregated(after, ifindex);
    lemma_aggregated_state(before, ifindex);
    lemma_aggregated_state(after, ifindex);
    law_sections_reported(
        aggregated(before),
        aggregated(after),
        ifindex,
        aggregate_of(before, ifindex),
        aggregate_of(after, ifindex),
    );
}

proof fn lemma_aggregated_state(state: AggregatorView, ifindex: InterfaceIndex)
    ensures
        has_state(aggregated(state), ifindex, aggregate_of(state, ifindex)),
{
    let t = aggregated(state);
    law_aggregated(state, ifindex);
    law_lookup(t, ifindex);
    if lookup(t, ifindex) is None {
        if keys_of(t).contains(ifindex) {
            let i = choose|i: int| 0 <= i < t.len() && keys_of(t)[i] == ifindex;
            assert(t[i].0 == ifindex);
        }
    } else {
        assert(t.contains((ifindex, aggregate_of(state, ifindex))));
    }
}

proof fn lemma_once<A>(s: Seq<A>, t: Seq<A>)
    requires
        s.no_duplicates(),
        t.no_duplicates(),
        forall|i: int, j: int|
            0 <= i < s.len() && 0 <= j < t.len() ==> #[trigger] s[i] != #[trigger] t[j],
    ensures
        (s + t).no_duplicates(),
{
}

proof fn lemma_changes_once(
    list: Seq<InterfaceIndex>,
    before: Seq<(InterfaceIndex, AggregateView)>,
    after: Seq<(InterfaceIndex, AggregateView)>,
)
    requires
        list.no_duplicates(),
    ensures
        changes_on(list, before, after).no_duplicates(),
        forall|i: int|
            0 <= i < changes_on(list, before, after).len() ==> list.contains(
                interface_of(#[trigger] changes_on(list, before, after)[i]),
            ),
        forall|i: int, j: int|
            0 <= i < j < changes_on(list, before, after).len() ==> {
                let (x, y) = (
                    #[trigger] changes_on(list, before, after)[i],
                    #[trigger] changes_on(list, before, after)[j],
                );
                interface_of(x) == interface_of(y) ==> {
                    &&& !(y is RouterUpdate) && !(y is RouterDown)
                    &&& !(x is RaPrefix)
                }
            },
    decreases list.len(),
{
    if list.len() > 0 {
        let rest = list.drop_last();
        let last = list.last();
        let (x, y) = (state_of(before, last), state_of(after, last));
        let head = changes_on(rest, before, after);
        let tail = interface_changes(last, x, y);
        let out = changes_on(list, before, after);
        lemma_changes_once(rest, before, after);
        let (a, b, c) = (
            router_changes(last, x, y),
            dns_changes(last, x, y),
            prefix_changes(last, x, y),
        );
        assert forall|k: int| 0 <= k < tail.len() implies interface_of(#[trigger] tail[k])
            == last && (k < a.len() <==> tail[k] is RouterUpdate || tail[k] is RouterDown) && (k
            >= a.len() + b.len() <==> tail[k] is RaPrefix) && (tail[k] is RaDns <==> a.len() <= k
            < a.len() + b.len()) by {
            if k < a.len() {
                assert(tail[k] == a[k]);
            } else if k < a.len() + b.len() {
                assert(tail[k] == b[k - a.len()]);
            } else {
                assert(tail[k] == c[k - a.len() - b.len()]);
            }
        }
        assert(a.len() <= 1 && b.len() <= 1 && c.len() <= 1);
        assert(tail.no_duplicates()) by {
            assert forall|i: int, j: int| 0 <= i < j < tail.len() implies tail[i] != tail[j] by {
                let (p, q) = (tail[i], tail[j]);
            }
        }
        assert(list[list.len() - 1] == last);
        assert forall|i: int| 0 <= i < head.len() implies interface_of(#[trigger] head[i])
            != last by {
            assert(rest.contains(interface_of(head[i])));
            let k = choose|k: int| 0 <= k < rest.len() && rest[k] == interface_of(head[i]);
            assert(list[k] != list[list.len() - 1]);
        }
        assert forall|i: int, j: int|
            0 <= i < head.len() && 0 <= j < tail.len() implies #[trigger] head[i]
            != #[trigger] tail[j] by {
            assert(interface_of(head[i]) != last);
        }
        lemma_once(head, tail);
        assert forall|i: int| 0 <= i < out.len() implies list.contains(
            interface_of(#[trigger] out[i]),
        ) by {
            if i < head.len() {
                assert(out[i] == head[i]);
                let k = choose|k: int| 0 <= k < rest.len() && rest[k] == interface_of(head[i]);
                assert(list[k] == interface_of(out[i]));
            } else {
                assert(out[i] == tail[i - head.len()]);
            }
        }
        assert forall|i: int, j: int| 0 <= i < j < out.len() implies {
            let (x, y) = (#[trigger] out[i], #[trigger] out[j]);
            interface_of(x) == interface_of(y) ==> {
                &&& !(y is RouterUpdate) && !(y is RouterDown)
                &&& !(x is RaPrefix)
            }
        } by {
            if j < head.len() {
                assert(out[i] == head[i] && out[j] == head[j]);
            } else if i < head.len() {
                assert(out[i] == head[i] && out[j] == tail[j - head.len()]);
                assert(interface_of(head[i]) != last);
            } else {
                assert(out[i] == tail[i - head.len()] && out[j] == tail[j - head.len()]);
            }
        }
    } else {
        assert(changes_on(list, before, after).len() == 0);
    }
}

/// Nothing is reported twice. Of one interface, flags are reported first and
/// prefixes last.
pub proof fn law_reported_once(
    before: Seq<(InterfaceIndex, AggregateView)>,
    after: Seq<(InterfaceIndex, AggregateView)>,
)
    ensures
        ({
            let out = changes(before, after);
            forall|i: int, j: int|
                0 <= i < j < out.len() ==> {
                    let (x, y) = (#[trigger] out[i], #[trigger] out[j]);
                    &&& x != y
                    &&& match (x, y) {
                        (
                            EventView::RaPrefix { ifindex: a, .. },
                            EventView::RaDns { ifindex: b, .. },
                        ) => a != b,
                        (
                            EventView::RaPrefix { ifindex: a, .. },
                            EventView::RouterUpdate { ifindex: b, .. },
                        ) => a != b,
                        (
                            EventView::RaPrefix { ifindex: a, .. },
                            EventView::RouterDown { ifindex: b },
                        ) => a != b,
                        (
                            EventView::RaDns { ifindex: a, .. },
                            EventView::RouterUpdate { ifindex: b, .. },
                        ) => a != b,
                        (
                            EventView::RaDns { ifindex: a, .. },
                            EventView::RouterDown { ifindex: b },
                        ) => a != b,
                        _ => true,
                    }
                }
        }),
{
    let both = keys_of(before) + keys_of(after);
    law_extend_unique(Seq::<InterfaceIndex>::empty(), both);
    lemma_changes_once(first_seen(both), before, after);
    let out = changes(before, after);
    assert forall|i: int, j: int| 0 <= i < j < out.len() implies (#[trigger] out[i]
        != #[trigger] out[j] && (interface_of(out[i]) == interface_of(out[j]) ==> !(
    out[j] is RouterUpdate) && !(out[j] is RouterDown) && !(out[i] is RaPrefix))) by {
        let list = first_seen(both);
        assert(out == changes_on(list, before, after));
        let (x, y) = (changes_on(list, before, after)[i], changes_on(list, before, after)[j]);
    }
}

// What a change does

/// Changes have their effects one after the other.
pub proof fn law_one_change_after_the_other(
    state: AggregatorView,
    events: Seq<lifecycle::EventView>,
    event: lifecycle::EventView,
)
    ensures
        applied_all(state, Seq::empty()) == state,
        applied_all(state, events.push(event)) == applied(applied_all(state, events), event),
{
    assert(events.push(event).drop_last() =~= events);
}

/// An announced router contributes its flags from then on: in the place of
/// those it had, or else behind the other routers. Everything else stays.
pub proof fn law_router_applied(
    state: AggregatorView,
    key: Key,
    managed: bool,
    other_config: bool,
)
    requires
        state.wf(),
    ensures
        ({
            let event = lifecycle::EventView::Router { key, managed, other_config };
            let out = applied(state, event);
            let flags = Router { managed, other_config };
            &&& forall|i: int|
                0 <= i < state.routers.len() && (#[trigger] state.routers[i]).0 == key
                    ==> out.routers == state.routers.update(i, (key, flags))
            &&& (forall|i: int|
                0 <= i < state.routers.len() ==> (#[trigger] state.routers[i]).0 != key)
                ==> out.routers == state.routers.push((key, flags))
            &&& out.servers == state.servers
            &&& out.domains == state.domains
            &&& out.prefixes == state.prefixes
        }),
{
    law_put_entries(state.routers, key, Router { managed, other_config });
}

/// Announced DNS data takes the place of what the router contributed before,
/// or else comes behind that of the other routers. The order of its items is
/// that of their ranking by lifetime. Everything else stays.
pub proof fn law_dns_applied(
    state: AggregatorView,
    key: Key,
    servers: Seq<Group<Ipv6Addr>>,
    domains: Seq<Group<Seq<char>>>,
)
    requires
        state.wf(),
    ensures
        ({
            let out = applied(state, lifecycle::EventView::DnsServers { key, servers });
            &&& forall|i: int|
                0 <= i < state.servers.len() && (#[trigger] state.servers[i]).0 == key
                    ==> out.servers == state.servers.update(i, (key, by_lifetime(servers)))
            &&& (forall|i: int|
                0 <= i < state.servers.len() ==> (#[trigger] state.servers[i]).0 != key)
                ==> out.servers == state.servers.push((key, by_lifetime(servers)))
            &&& out.routers == state.routers
            &&& out.domains == state.domains
            &&& out.prefixes == state.prefixes
        }),
        ({
            let out = applied(state, lifecycle::EventView::DnsDomains { key, domains });
            &&& forall|i: int|
                0 <= i < state.domains.len() && (#[trigger] state.domains[i]).0 == key
                    ==> out.domains == state.domains.update(i, (key, by_lifetime(domains)))
            &&& (forall|i: int|
                0 <= i < state.domains.len() ==> (#[trigger] state.domains[i]).0 != key)
                ==> out.domains == state.domains.push((key, by_lifetime(domains)))
            &&& out.routers == state.routers
            &&& out.servers == state.servers
            &&& out.prefixes == state.prefixes
        }),
{
    law_put_entries(state.servers, key, by_lifetime(servers));
    law_put_entries(state.domains, key, by_lifetime(domains));
}

/// An announced prefix takes the place of the one with its address, or else
/// comes behind the other prefixes of its router. Everything else stays.
pub proof fn law_prefix_applied(state: AggregatorView, key: Key, prefix_info: PrefixInfo)
    requires
        state.wf(),
    ensures
        ({
            let t = state.prefixes;
            let out = applied(state, lifecycle::EventView::Prefix { key, prefix_info });
            &&& out.routers == state.routers
            &&& out.servers == state.servers
            &&& out.domains == state.domains
            &&& (forall|n: int| 0 <= n < t.len() ==> (#[trigger] t[n]).0 != key) ==> out.prefixes
                == t.push((key, seq![prefix_info]))
            &&& forall|n: int|
                0 <= n < t.len() && (#[trigger] t[n]).0 == key ==> {
                    let list = t[n].1;
                    &&& (forall|i: int|
                        0 <= i < list.len() ==> (#[trigger] list[i]).prefix != prefix_info.prefix)
                        ==> out.prefixes == t.update(n, (key, list.push(prefix_info)))
                    &&& forall|i: int|
                        0 <= i < list.len() && (#[trigger] list[i]).prefix == prefix_info.prefix
                            ==> out.prefixes == t.update(n, (key, list.update(i, prefix_info)))
                }
        }),
{
    let t = state.prefixes;
    let known = items_at(t, key);
    let new = replace_prefix(known, prefix_info);
    law_put_entries(t, key, new);
    law_lookup(t, key);
    if forall|n: int| 0 <= n < t.len() ==> (#[trigger] t[n]).0 != key {
        assert(known =~= Seq::empty());
        assert(new =~= seq![prefix_info]);
    }
    assert forall|n: int| 0 <= n < t.len() && (#[trigger] t[n]).0 == key implies {
        let list = t[n].1;
        &&& put(t, key, new) == t.update(n, (key, new))
        &&& (forall|i: int|
            0 <= i < list.len() ==> (#[trigger] list[i]).prefix != prefix_info.prefix) ==> new
            == list.push(prefix_info)
        &&& forall|i: int|
            0 <= i < list.len() && (#[trigger] list[i]).prefix == prefix_info.prefix ==> new
                == list.update(i, prefix_info)
    } by {
        let list = t[n].1;
        assert(t.contains((key, list)));
        assert(lookup(t, key) == Some(list));
        assert(list == known);
        assert forall|i: int| 0 <= i < list.len() && (#[trigger] list[i]).prefix
            == prefix_info.prefix implies new == list.update(i, prefix_info) by {
            let p = prefix_position(known, prefix_info.prefix);
            assert(has_prefix(known, prefix_info.prefix));
            assert(0 <= p < known.len() && known[p].prefix == prefix_info.prefix);
            assert(crate::aggregator::distinct_prefixes(known));
            assert(p == i);
        }
    }
}

/// An expired prefix is no longer contributed by its router, and an expired
/// router contributes nothing. Everything else stays; the end of a preferred
/// lifetime changes nothing at all.
pub proof fn law_expiry_applied(state: AggregatorView, key: Key, prefix_info: PrefixInfo)
    requires
        state.wf(),
    ensures
        ({
            let t = state.prefixes;
            let out = applied(state, lifecycle::EventView::PrefixExpiry { key, prefix_info });
            &&& out.routers == state.routers
            &&& out.servers == state.servers
            &&& out.domains == state.domains
            &&& (forall|n: int| 0 <= n < t.len() ==> (#[trigger] t[n]).0 != key) ==> out.prefixes
                == t
            &&& forall|n: int|
                0 <= n < t.len() && (#[trigger] t[n]).0 == key ==> {
                    let left = t[n].1.filter(|p: PrefixInfo| p.prefix != prefix_info.prefix);
                    out.prefixes == if left.len() > 0 {
                        t.update(n, (key, left))
                    } else {
                        t.remove(n)
                    }
                }
        }),
        ({
            let out = applied(state, lifecycle::EventView::RouterExpiry { key });
            &&& out.routers == state.routers.filter(|e: (Key, Router)| e.0 != key)
            &&& out.servers == state.servers.filter(|e: (Key, Seq<Ipv6Addr>)| e.0 != key)
            &&& out.domains == state.domains.filter(|e: (Key, Seq<Seq<char>>)| e.0 != key)
            &&& out.prefixes == state.prefixes.filter(|e: (Key, Seq<PrefixInfo>)| e.0 != key)
        }),
        applied(state, lifecycle::EventView::PrefixSoftExpiry { key, prefix_info }) == state,
{
    lemma_without_filter(state.routers, key, |e: (Key, Router)| e.0 != key);
    lemma_without_filter(state.servers, key, |e: (Key, Seq<Ipv6Addr>)| e.0 != key);
    lemma_without_filter(state.domains, key, |e: (Key, Seq<Seq<char>>)| e.0 != key);
    lemma_without_filter(state.prefixes, key, |e: (Key, Seq<PrefixInfo>)| e.0 != key);
    let t = state.prefixes;
    let p = |p: PrefixInfo| p.prefix != prefix_info.prefix;
    let known = items_at(t, key);
    let new = drop_prefix(known, prefix_info.prefix);
    let out = applied(state, lifecycle::EventView::PrefixExpiry { key, prefix_info });
    lemma_filter_same(known, with_other_address(prefix_info.prefix), p);
    law_put_entries(t, key, new);
    law_lookup(t, key);
    if forall|n: int| 0 <= n < t.len() ==> (#[trigger] t[n]).0 != key {
        reveal(Seq::filter);
        assert(known =~= Seq::empty());
        assert(!has_key(t, key));
    }
    assert forall|n: int| 0 <= n < t.len() && (#[trigger] t[n]).0 == key implies out.prefixes
        == if t[n].1.filter(p).len() > 0 {
        t.update(n, (key, t[n].1.filter(p)))
    } else {
        t.remove(n)
    } by {
        lemma_position(t, n);
        assert(t.contains((key, t[n].1)));
        assert(lookup(t, key) == Some(t[n].1));
        assert(known == t[n].1);
    }
}

} // verus!
