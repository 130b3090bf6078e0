//! What the pipeline as a whole is for.
use vstd::prelude::*;

use crate::address::Ipv6Addr;
use crate::aggregator::{aggregate_of, no_contributions, AggregatorView};
use crate::detector::Key;
use crate::laws::tables::law_lookup;
use crate::lifecycle;
use crate::lifecycle::{data_of, entries_at, nothing_known, LifecycleView, Store};
use crate::merge::{in_some_group, Group};
use crate::monitor::{soft_report, soft_reports, BURST_COUNT, BURST_INTERVAL_SECS};
use crate::sync::{group_valid, in_sync, law_aggregate_is_what_is_valid, lease_valid, router_active};
use crate::table::{lookup, unique_keys};
use crate::time::seconds;
use crate::{EventView, InterfaceIndex, PrefixInfo};

verus! {

/// At first nothing is valid, and nothing is aggregated.
pub proof fn law_at_first()
    ensures
        nothing_known().routers.len() == 0,
        nothing_known().servers.len() == 0,
        nothing_known().domains.len() == 0,
        nothing_known().prefixes.len() == 0,
        nothing_known().soft_prefixes.len() == 0,
        no_contributions().routers.len() == 0,
        no_contributions().servers.len() == 0,
        no_contributions().domains.len() == 0,
        no_contributions().prefixes.len() == 0,
{
}

/// A burst has three solicitations, a second apart.
pub proof fn law_burst()
    ensures
        BURST_COUNT == 3,
        seconds(BURST_INTERVAL_SECS as nat).nanos == 1_000_000_000,
{
}

/// A prefix that reached its preferred lifetime is reported exactly if its
/// router contributes it. No other change is reported as such.
pub proof fn law_soft_report(state: AggregatorView, event: lifecycle::EventView)
    requires
        state.wf(),
    ensures
        ({
            let out = soft_reports(state, seq![event]);
            match event {
                lifecycle::EventView::PrefixSoftExpiry { key, prefix_info } => {
                    if exists|i: int, j: int|
                        {
                            &&& 0 <= i < state.prefixes.len()
                            &&& state.prefixes[i].0 == key
                            &&& 0 <= j < state.prefixes[i].1.len()
                            &&& #[trigger] state.prefixes[i].1[j] == prefix_info
                        } {
                        out.len() == 1 && out[0] == (EventView::RaPrefixSoftExpiry {
                            ifindex: key.ifindex,
                            prefix: prefix_info,
                        })
                    } else {
                        out.len() == 0
                    }
                },
                _ => out.len() == 0,
            }
        }),
{
    let out = soft_reports(state, seq![event]);
    reveal_with_fuel(soft_reports, 2);
    assert(seq![event].drop_last() =~= Seq::empty());
    assert(out =~= soft_report(state, event));
    if let lifecycle::EventView::PrefixSoftExpiry { key, prefix_info } = event {
        law_lookup(state.prefixes, key);
        if exists|i: int, j: int|
            {
                &&& 0 <= i < state.prefixes.len()
                &&& state.prefixes[i].0 == key
                &&& 0 <= j < state.prefixes[i].1.len()
                &&& #[trigger] state.prefixes[i].1[j] == prefix_info
            } {
            let (i, j) = choose|i: int, j: int|
                {
                    &&& 0 <= i < state.prefixes.len()
                    &&& state.prefixes[i].0 == key
                    &&& 0 <= j < state.prefixes[i].1.len()
                    &&& #[trigger] state.prefixes[i].1[j] == prefix_info
                };
            assert(state.prefixes.contains((key, state.prefixes[i].1)));
            assert(lookup(state.prefixes, key) == Some(state.prefixes[i].1));
            assert(state.prefixes[i].1.contains(prefix_info));
        } else if let Some(list) = lookup(state.prefixes, key) {
            if list.contains(prefix_info) {
                let j = choose|j: int| 0 <= j < list.len() && list[j] == prefix_info;
                assert(state.prefixes.contains((key, list)));
                let i = choose|i: int|
                    0 <= i < state.prefixes.len() && state.prefixes[i] == (key, list);
                assert(state.prefixes[i].1[j] == prefix_info);
            }
        }
    }
}

/// What is reported of prefixes that reached their preferred lifetimes comes
/// in the order in which they did, each by itself.
pub proof fn law_soft_reports_in_order(
    state: AggregatorView,
    a: Seq<lifecycle::EventView>,
    b: Seq<lifecycle::EventView>,
)
    ensures
        soft_reports(state, Seq::empty()).len() == 0,
        soft_reports(state, a + b) == soft_reports(state, a) + soft_reports(state, b),
    decreases b.len(),
{
    if b.len() == 0 {
        assert(a + b =~= a);
        assert(soft_reports(state, a) + soft_reports(state, b) =~= soft_reports(state, a));
    } else {
        law_soft_reports_in_order(state, a, b.drop_last());
        assert((a + b).drop_last() =~= a + b.drop_last());
        assert(soft_reports(state, a + b) =~= soft_reports(state, a) + soft_reports(state, b));
    }
}

proof fn lemma_lease_valid(store: Store<PrefixInfo>, ifindex: InterfaceIndex, x: PrefixInfo)
    requires
        unique_keys(store),
    ensures
        lease_valid(store, ifindex, x) <==> exists|i: int, j: int|
            {
                &&& 0 <= i < store.len()
                &&& store[i].0.ifindex == ifindex
                &&& 0 <= j < store[i].1.len()
                &&& (#[trigger] store[i].1[j]).data == x
            },
{
    if lease_valid(store, ifindex, x) {
        let key = choose|key: Key|
            key.ifindex == ifindex && (#[trigger] data_of(entries_at(store, key))).contains(x);
        let list = entries_at(store, key);
        law_lookup(store, key);
        let j = choose|j: int| 0 <= j < data_of(list).len() && data_of(list)[j] == x;
        assert(list.len() > 0);
        assert(store.contains((key, list)));
        let i = choose|i: int| 0 <= i < store.len() && store[i] == (key, list);
        assert(store[i].1[j].data == x);
    }
    if exists|i: int, j: int|
        {
            &&& 0 <= i < store.len()
            &&& store[i].0.ifindex == ifindex
            &&& 0 <= j < store[i].1.len()
            &&& (#[trigger] store[i].1[j]).data == x
        } {
        let (i, j) = choose|i: int, j: int|
            {
                &&& 0 <= i < store.len()
                &&& store[i].0.ifindex == ifindex
                &&& 0 <= j < store[i].1.len()
                &&& (#[trigger] store[i].1[j]).data == x
            };
        let key = store[i].0;
        law_lookup(store, key);
        assert(store.contains((key, store[i].1)));
        assert(entries_at(store, key) == store[i].1);
        assert(data_of(entries_at(store, key))[j] == x);
    }
}

proof fn lemma_group_valid<T>(store: Store<Group<T>>, ifindex: InterfaceIndex, x: T)
    requires
        unique_keys(store),
    ensures
        group_valid(store, ifindex, x) <==> exists|i: int, j: int, k: int|
            {
                &&& 0 <= i < store.len()
                &&& store[i].0.ifindex == ifindex
                &&& 0 <= j < store[i].1.len()
                &&& 0 <= k < store[i].1[j].data.items.len()
                &&& #[trigger] store[i].1[j].data.items[k] == x
            },
{
    if group_valid(store, ifindex, x) {
        let key = choose|key: Key|
            key.ifindex == ifindex && in_some_group(#[trigger] data_of(entries_at(store, key)), x);
        let list = entries_at(store, key);
        let groups = data_of(list);
        law_lookup(store, key);
        let j = choose|j: int|
            0 <= j < groups.len() && (#[trigger] groups[j]).items.contains(x);
        let k = choose|k: int| 0 <= k < groups[j].items.len() && groups[j].items[k] == x;
        assert(list.len() > 0);
        assert(store.contains((key, list)));
        let i = choose|i: int| 0 <= i < store.len() && store[i] == (key, list);
        assert(store[i].1[j].data.items[k] == x);
    }
    if exists|i: int, j: int, k: int|
        {
            &&& 0 <= i < store.len()
            &&& store[i].0.ifindex == ifindex
            &&& 0 <= j < store[i].1.len()
            &&& 0 <= k < store[i].1[j].data.items.len()
            &&& #[trigger] store[i].1[j].data.items[k] == x
        } {
        let (i, j, k) = choose|i: int, j: int, k: int|
            {
                &&& 0 <= i < store.len()
                &&& store[i].0.ifindex == ifindex
                &&& 0 <= j < store[i].1.len()
                &&& 0 <= k < store[i].1[j].data.items.len()
                &&& #[trigger] store[i].1[j].data.items[k] == x
            };
        let key = store[i].0;
        law_lookup(store, key);
        assert(store.contains((key, store[i].1)));
        assert(entries_at(store, key) == store[i].1);
        let groups = data_of(entries_at(store, key));
        assert(groups[j].items[k] == x);
        assert(groups[j].items.contains(x));
        assert(in_some_group(groups, x));
    }
}

/// In every state of the pipeline, an interface has flags exactly if one of
/// its routers is there, and has exactly the DNS servers, search domains and
/// prefixes that its routers announced and that are not over.
pub proof fn law_interface_has_what_is_valid(
    valid: LifecycleView,
    state: AggregatorView,
    ifindex: InterfaceIndex,
)
    requires
        in_sync(valid, state),
    ensures
        aggregate_of(state, ifindex).router is Some <==> exists|i: int|
            0 <= i < valid.routers.len() && (#[trigger] valid.routers[i]).0.ifindex == ifindex,
        forall|x: Ipv6Addr| #[trigger]
            aggregate_of(state, ifindex).dns_servers.contains(x) <==> exists|
                i: int,
                j: int,
                k: int,
            |
                {
                    &&& 0 <= i < valid.servers.len()
                    &&& valid.servers[i].0.ifindex == ifindex
                    &&& 0 <= j < valid.servers[i].1.len()
                    &&& 0 <= k < valid.servers[i].1[j].data.items.len()
                    &&& #[trigger] valid.servers[i].1[j].data.items[k] == x
                },
        forall|x: Seq<char>| #[trigger]
            aggregate_of(state, ifindex).domains.contains(x) <==> exists|i: int, j: int, k: int|
                {
                    &&& 0 <= i < valid.domains.len()
                    &&& valid.domains[i].0.ifindex == ifindex
                    &&& 0 <= j < valid.domains[i].1.len()
                    &&& 0 <= k < valid.domains[i].1[j].data.items.len()
                    &&& #[trigger] valid.domains[i].1[j].data.items[k] == x
                },
        forall|x: PrefixInfo| #[trigger]
            aggregate_of(state, ifindex).prefixes.contains(x) <==> exists|i: int, j: int|
                {
                    &&& 0 <= i < valid.prefixes.len()
                    &&& valid.prefixes[i].0.ifindex == ifindex
                    &&& 0 <= j < valid.prefixes[i].1.len()
                    &&& (#[trigger] valid.prefixes[i].1[j]).data == x
                },
{
    law_aggregate_is_what_is_valid(valid, state, ifindex);
    assert forall|x: Ipv6Addr| #[trigger]
        aggregate_of(state, ifindex).dns_servers.contains(x) <==> exists|i: int, j: int, k: int|
            {
                &&& 0 <= i < valid.servers.len()
                &&& valid.servers[i].0.ifindex == ifindex
                &&& 0 <= j < valid.servers[i].1.len()
                &&& 0 <= k < valid.servers[i].1[j].data.items.len()
                &&& #[trigger] valid.servers[i].1[j].data.items[k] == x
            } by {
        lemma_group_valid(valid.servers, ifindex, x);
    }
    assert forall|x: Seq<char>| #[trigger]
        aggregate_of(state, ifindex).domains.contains(x) <==> exists|i: int, j: int, k: int|
            {
                &&& 0 <= i < valid.domains.len()
                &&& valid.domains[i].0.ifindex == ifindex
                &&& 0 <= j < valid.domains[i].1.len()
                &&& 0 <= k < valid.domains[i].1[j].data.items.len()
                &&& #[trigger] valid.domains[i].1[j].data.items[k] == x
            } by {
        lemma_group_valid(valid.domains, ifindex, x);
    }
    assert forall|x: PrefixInfo| #[trigger]
        aggregate_of(state, ifindex).prefixes.contains(x) <==> exists|i: int, j: int|
            {
                &&& 0 <= i < valid.prefixes.len()
                &&& valid.prefixes[i].0.ifindex == ifindex
                &&& 0 <= j < valid.prefixes[i].1.len()
                &&& (#[trigger] valid.prefixes[i].1[j]).data == x
            } by {
        lemma_lease_valid(valid.prefixes, ifindex, x);
    }
    if router_active(valid, ifindex) {
        let key = choose|key: Key|
            key.ifindex == ifindex && (#[trigger] lookup(valid.routers, key)) is Some;
        law_lookup(valid.routers, key);
        let t = lookup(valid.routers, key)->0;
        assert(valid.routers.contains((key, t)));
        let i = choose|i: int| 0 <= i < valid.routers.len() && valid.routers[i] == (key, t);
        assert(valid.routers[i].0.ifindex == ifindex);
    }
    if exists|i: int|
        0 <= i < valid.routers.len() && (#[trigger] valid.routers[i]).0.ifindex == ifindex {
        let i = choose|i: int|
            0 <= i < valid.routers.len() && (#[trigger] valid.routers[i]).0.ifindex == ifindex;
        let key = valid.routers[i].0;
        law_lookup(valid.routers, key);
        assert(valid.routers.contains((key, valid.routers[i].1)));
        assert(lookup(valid.routers, key) is Some);
    }
}

} // verus!
