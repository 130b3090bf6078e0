//! Advertisements that come again.
//!
//! Routers repeat their advertisements. The laws of this module say what a
//! repetition changes: nothing, unless the advertisement takes a prefix back
//! before it announces it.
use vstd::prelude::*;

use crate::address::Ipv6Addr;
use crate::aggregator::{
    aggregated, applied, applied_all, changes, distinct_prefixes, drop_prefix, has_prefix,
    items_at, law_applied, law_applied_wf, law_change_again, law_no_change_no_report,
    lemma_filter_distinct_prefixes, prefix_position, replace_prefix, subject, with_other_address,
    AggregatorView, Router,
};
use crate::detector::{
    detected, domain_events, prefix_events, router_event, server_events, source, Key,
};
use crate::lifecycle::{reported, EventView};
use crate::list::{lemma_filter_all, lemma_filter_map};
use crate::merge::by_lifetime;
use crate::router_advertisement::RouterAdvertisementView;
use crate::table::{
    has_key, law_put, law_without, lemma_put_known, lemma_without_put, position, put, unique_keys,
    without,
};
use crate::PrefixInfo;

verus! {

// What changes leave of the prefixes of a router

/// The prefixes of a router after a change that is about it.
pub open spec fn prefixes_changed(list: Seq<PrefixInfo>, event: EventView) -> Seq<PrefixInfo> {
    match event {
        EventView::Prefix { key, prefix_info } => replace_prefix(list, prefix_info),
        EventView::PrefixExpiry { key, prefix_info } => drop_prefix(list, prefix_info.prefix),
        _ => list,
    }
}

/// The prefixes of a router after changes that are about it, one after the
/// other.
pub open spec fn prefixes_after(list: Seq<PrefixInfo>, events: Seq<EventView>) -> Seq<PrefixInfo>
    decreases events.len(),
{
    if events.len() == 0 {
        list
    } else {
        prefixes_changed(prefixes_after(list, events.drop_last()), events.last())
    }
}

/// Whether a change takes back the prefix with this address.
pub open spec fn takes_back(event: EventView, address: Ipv6Addr) -> bool {
    match event {
        EventView::PrefixExpiry { key, prefix_info } => prefix_info.prefix == address,
        _ => false,
    }
}

/// Whether one of the changes takes back the prefix with this address.
pub open spec fn taken_back(events: Seq<EventView>, address: Ipv6Addr) -> bool {
    exists|i: int| 0 <= i < events.len() && takes_back(#[trigger] events[i], address)
}

/// The prefixes that changes take back and nevertheless leave announced, in
/// the order in which they are announced anew.
pub open spec fn revived(events: Seq<EventView>) -> Seq<PrefixInfo> {
    prefixes_after(Seq::empty(), events).filter(|p: PrefixInfo| taken_back(events, p.prefix))
}

/// The list with the revived prefixes at its end.
pub open spec fn revived_last(list: Seq<PrefixInfo>, events: Seq<EventView>) -> Seq<PrefixInfo> {
    list.filter(|p: PrefixInfo| !taken_back(events, p.prefix)) + revived(events)
}

/// Whether all changes are about one router, and none is its expiry.
pub open spec fn announced_by(events: Seq<EventView>, key: Key) -> bool {
    forall|i: int|
        0 <= i < events.len() ==> subject(#[trigger] events[i]) == key && !(
        events[i] is RouterExpiry)
}

// Filters

/// Filters that agree on every item keep the same items.
pub proof fn lemma_filter_same<A>(s: Seq<A>, p: spec_fn(A) -> bool, q: spec_fn(A) -> bool)
    requires
        forall|i: int| 0 <= i < s.len() ==> p(#[trigger] s[i]) == q(s[i]),
    ensures
        s.filter(p) == s.filter(q),
    decreases s.len(),
{
    reveal(Seq::filter);
    if s.len() > 0 {
        lemma_filter_same(s.drop_last(), p, q);
        assert(p(s[s.len() - 1]) == q(s[s.len() - 1]));
    }
}

proof fn lemma_filter_twice<A>(
    s: Seq<A>,
    p: spec_fn(A) -> bool,
    q: spec_fn(A) -> bool,
    both: spec_fn(A) -> bool,
)
    requires
        forall|a: A| #[trigger] both(a) == (p(a) && q(a)),
    ensures
        s.filter(p).filter(q) == s.filter(both),
    decreases s.len(),
{
    reveal(Seq::filter);
    if s.len() > 0 {
        lemma_filter_twice(s.drop_last(), p, q, both);
        assert(both(s.last()) == (p(s.last()) && q(s.last())));
        if p(s.last()) {
            s.drop_last().filter(p).lemma_filter_push(s.last(), q);
        }
    }
}

/// What a filter keeps.
pub proof fn lemma_filter_members<A>(s: Seq<A>, p: spec_fn(A) -> bool, a: A)
    ensures
        s.filter(p).contains(a) <==> s.contains(a) && p(a),
{
    let out = s.filter(p);
    if out.contains(a) {
        let i = choose|i: int| 0 <= i < out.len() && out[i] == a;
        s.lemma_filter_pred(p, i);
        s.lemma_filter_contains_rev(p, a);
    }
    if s.contains(a) && p(a) {
        let i = choose|i: int| 0 <= i < s.len() && s[i] == a;
        s.lemma_filter_contains(p, i);
    }
}

/// What two lists in a row hold.
pub proof fn lemma_add_members<A>(a: Seq<A>, b: Seq<A>, x: A)
    ensures
        (a + b).contains(x) <==> a.contains(x) || b.contains(x),
{
    if a.contains(x) {
        let i = choose|i: int| 0 <= i < a.len() && a[i] == x;
        assert((a + b)[i] == x);
    }
    if b.contains(x) {
        let i = choose|i: int| 0 <= i < b.len() && b[i] == x;
        assert((a + b)[a.len() + i] == x);
    }
}

// Addresses: where a prefix stands depends on the addresses alone

/// The addresses of prefixes, in order.
spec fn addresses(list: Seq<PrefixInfo>) -> Seq<Ipv6Addr> {
    list.map_values(|p: PrefixInfo| p.prefix)
}

spec fn addresses_changed(s: Seq<Ipv6Addr>, event: EventView) -> Seq<Ipv6Addr> {
    match event {
        EventView::Prefix { key, prefix_info } => if s.contains(prefix_info.prefix) {
            s
        } else {
            s.push(prefix_info.prefix)
        },
        EventView::PrefixExpiry { key, prefix_info } => s.filter(
            |a: Ipv6Addr| a != prefix_info.prefix,
        ),
        _ => s,
    }
}

spec fn addresses_after(s: Seq<Ipv6Addr>, events: Seq<EventView>) -> Seq<Ipv6Addr>
    decreases events.len(),
{
    if events.len() == 0 {
        s
    } else {
        addresses_changed(addresses_after(s, events.drop_last()), events.last())
    }
}

proof fn lemma_has_address(list: Seq<PrefixInfo>, address: Ipv6Addr)
    ensures
        addresses(list).contains(address) <==> has_prefix(list, address),
{
    if addresses(list).contains(address) {
        let i = choose|i: int| 0 <= i < list.len() && addresses(list)[i] == address;
        assert(list[i].prefix == address);
    }
    if has_prefix(list, address) {
        let i = prefix_position(list, address);
        assert(0 <= i < list.len() && list[i].prefix == address);
        assert(addresses(list)[i] == address);
    }
}

proof fn lemma_addresses_after(list: Seq<PrefixInfo>, events: Seq<EventView>)
    ensures
        addresses(prefixes_after(list, events)) == addresses_after(addresses(list), events),
    decreases events.len(),
{
    if events.len() > 0 {
        let rest = events.drop_last();
        let before = prefixes_after(list, rest);
        lemma_addresses_after(list, rest);
        match events.last() {
            EventView::Prefix { key, prefix_info } => {
                lemma_has_address(before, prefix_info.prefix);
                if has_prefix(before, prefix_info.prefix) {
                    let p = prefix_position(before, prefix_info.prefix);
                    assert(0 <= p < before.len() && before[p].prefix == prefix_info.prefix);
                }
                assert(addresses(replace_prefix(before, prefix_info)) =~= addresses_changed(
                    addresses(before),
                    events.last(),
                ));
            },
            EventView::PrefixExpiry { key, prefix_info } => {
                lemma_filter_map(
                    before,
                    |p: PrefixInfo| p.prefix,
                    with_other_address(prefix_info.prefix),
                    |a: Ipv6Addr| a != prefix_info.prefix,
                );
            },
            _ => {},
        }
    }
}

proof fn lemma_taken_back(events: Seq<EventView>, address: Ipv6Addr)
    requires
        events.len() > 0,
    ensures
        taken_back(events, address) <==> taken_back(events.drop_last(), address) || takes_back(
            events.last(),
            address,
        ),
{
    let rest = events.drop_last();
    if taken_back(rest, address) {
        let i = choose|i: int| 0 <= i < rest.len() && takes_back(#[trigger] rest[i], address);
        assert(takes_back(events[i], address));
    }
    if takes_back(events.last(), address) {
        assert(takes_back(events[events.len() - 1], address));
    }
    if taken_back(events, address) && !takes_back(events.last(), address) {
        let i = choose|i: int| 0 <= i < events.len() && takes_back(#[trigger] events[i], address);
        assert(takes_back(rest[i], address));
    }
}

/// What stays where it was.
spec fn staying(events: Seq<EventView>) -> spec_fn(Ipv6Addr) -> bool {
    |a: Ipv6Addr| !taken_back(events, a)
}

/// What is added at the end.
spec fn arriving(events: Seq<EventView>, s: Seq<Ipv6Addr>) -> spec_fn(Ipv6Addr) -> bool {
    |a: Ipv6Addr| taken_back(events, a) || !s.contains(a)
}

/// Changes keep what they do not take back in its place, and add the rest of
/// what they announce in the order in which they announce it.
proof fn lemma_order(s: Seq<Ipv6Addr>, events: Seq<EventView>)
    ensures
        addresses_after(s, events) == s.filter(staying(events)) + addresses_after(
            Seq::empty(),
            events,
        ).filter(arriving(events, s)),
    decreases events.len(),
{
    reveal(Seq::filter);
    if events.len() == 0 {
        lemma_filter_all(s, staying(events));
        assert(addresses_after(s, events) =~= s.filter(staying(events)) + addresses_after(
            Seq::empty(),
            events,
        ).filter(arriving(events, s)));
    } else {
        let rest = events.drop_last();
        let fresh = addresses_after(Seq::empty(), rest);
        let kept = s.filter(staying(rest));
        let added = fresh.filter(arriving(rest, s));
        lemma_order(s, rest);
        assert(addresses_after(s, rest) == kept + added);
        assert forall|a: Ipv6Addr| #[trigger] taken_back(events, a) <==> taken_back(rest, a)
            || takes_back(events.last(), a) by {
            lemma_taken_back(events, a);
        }
        match events.last() {
            EventView::PrefixExpiry { key, prefix_info } => {
                let gone = prefix_info.prefix;
                let other = |a: Ipv6Addr| a != gone;
                let more = fresh.filter(other);
                Seq::filter_distributes_over_add(kept, added, other);
                assert forall|a: Ipv6Addr| #[trigger] staying(events)(a) == (staying(rest)(a)
                    && other(a)) by {}
                lemma_filter_twice(s, staying(rest), other, staying(events));
                let both = |a: Ipv6Addr| arriving(rest, s)(a) && other(a);
                lemma_filter_twice(fresh, arriving(rest, s), other, both);
                lemma_filter_twice(fresh, other, arriving(rest, s), both);
                assert forall|i: int| 0 <= i < more.len() implies arriving(rest, s)(
                    #[trigger] more[i],
                ) == arriving(events, s)(more[i]) by {
                    fresh.lemma_filter_pred(other, i);
                }
                lemma_filter_same(more, arriving(rest, s), arriving(events, s));
            },
            EventView::Prefix { key, prefix_info } => {
                let new = prefix_info.prefix;
                lemma_filter_same(s, staying(rest), staying(events));
                lemma_filter_same(fresh, arriving(rest, s), arriving(events, s));
                lemma_filter_members(s, staying(rest), new);
                lemma_filter_members(fresh, arriving(rest, s), new);
                lemma_add_members(kept, added, new);
                if !fresh.contains(new) {
                    fresh.lemma_filter_push(new, arriving(events, s));
                    assert((kept + added).push(new) =~= kept + added.push(new));
                }
            },
            _ => {
                lemma_filter_same(s, staying(rest), staying(events));
                lemma_filter_same(fresh, arriving(rest, s), arriving(events, s));
            },
        }
    }
}

/// What changes announce and do not take back later is there afterwards,
/// whatever was there before.
proof fn lemma_announced_stays(s: Seq<Ipv6Addr>, events: Seq<EventView>, address: Ipv6Addr)
    requires
        addresses_after(Seq::empty(), events).contains(address),
    ensures
        addresses_after(s, events).contains(address),
{
    let fresh = addresses_after(Seq::empty(), events);
    lemma_order(s, events);
    lemma_filter_members(s, staying(events), address);
    lemma_filter_members(fresh, arriving(events, s), address);
    lemma_add_members(s.filter(staying(events)), fresh.filter(arriving(events, s)), address);
}

/// The order in which the addresses stand after the same changes came again.
spec fn order_again(s: Seq<Ipv6Addr>, events: Seq<EventView>) -> Seq<Ipv6Addr> {
    s.filter(staying(events)) + addresses_after(Seq::empty(), events).filter(
        |a: Ipv6Addr| taken_back(events, a),
    )
}

/// Coming again, changes move what they revive to the end.
proof fn lemma_order_again(s: Seq<Ipv6Addr>, events: Seq<EventView>)
    requires
        forall|a: Ipv6Addr| #[trigger]
            addresses_after(Seq::empty(), events).contains(a) ==> s.contains(a),
    ensures
        addresses_after(s, events) == order_again(s, events),
{
    let fresh = addresses_after(Seq::empty(), events);
    lemma_order(s, events);
    assert forall|i: int| 0 <= i < fresh.len() implies arriving(events, s)(#[trigger] fresh[i])
        == taken_back(events, fresh[i]) by {
        assert(fresh.contains(fresh[i]));
    }
    lemma_filter_same(fresh, arriving(events, s), |a: Ipv6Addr| taken_back(events, a));
}

/// Coming a third time, changes move nothing.
proof fn lemma_order_settles(s: Seq<Ipv6Addr>, events: Seq<EventView>)
    requires
        forall|a: Ipv6Addr| #[trigger]
            addresses_after(Seq::empty(), events).contains(a) ==> s.contains(a),
    ensures
        order_again(order_again(s, events), events) == order_again(s, events),
{
    let fresh = addresses_after(Seq::empty(), events);
    let back = |a: Ipv6Addr| taken_back(events, a);
    let kept = s.filter(staying(events));
    let tail = fresh.filter(back);
    Seq::filter_distributes_over_add(kept, tail, staying(events));
    assert forall|i: int| 0 <= i < kept.len() implies staying(events)(#[trigger] kept[i]) by {
        s.lemma_filter_pred(staying(events), i);
    }
    lemma_filter_all(kept, staying(events));
    assert forall|i: int| 0 <= i < tail.len() implies !staying(events)(#[trigger] tail[i]) by {
        fresh.lemma_filter_pred(back, i);
    }
    tail.lemma_all_neg_filter_empty(staying(events));
    assert(kept + tail.filter(staying(events)) + tail =~= kept + tail);
}

// Data: what is announced of a prefix does not depend on what was there

/// The prefix that the changes leave announced with this address, if there is
/// one.
spec fn said(events: Seq<EventView>, address: Ipv6Addr) -> Option<PrefixInfo>
    decreases events.len(),
{
    if events.len() == 0 {
        None
    } else {
        match events.last() {
            EventView::Prefix { key, prefix_info } if prefix_info.prefix == address => Some(
                prefix_info,
            ),
            EventView::PrefixExpiry { key, prefix_info } if prefix_info.prefix == address => None,
            _ => said(events.drop_last(), address),
        }
    }
}

/// Whether a prefix has the data that the changes leave announced, or else is
/// a known one.
spec fn backed(events: Seq<EventView>, known: Seq<PrefixInfo>, p: PrefixInfo) -> bool {
    match said(events, p.prefix) {
        Some(info) => p == info,
        None => known.contains(p),
    }
}

proof fn lemma_said(list: Seq<PrefixInfo>, events: Seq<EventView>)
    requires
        distinct_prefixes(list),
    ensures
        distinct_prefixes(prefixes_after(list, events)),
        forall|i: int|
            0 <= i < prefixes_after(list, events).len() ==> backed(
                events,
                list,
                #[trigger] prefixes_after(list, events)[i],
            ),
    decreases events.len(),
{
    let out = prefixes_after(list, events);
    if events.len() > 0 {
        let rest = events.drop_last();
        let before = prefixes_after(list, rest);
        lemma_said(list, rest);
        match events.last() {
            EventView::Prefix { key, prefix_info } => {
                let at = if has_prefix(before, prefix_info.prefix) {
                    prefix_position(before, prefix_info.prefix)
                } else {
                    before.len() as int
                };
                if has_prefix(before, prefix_info.prefix) {
                    assert(0 <= at < before.len() && before[at].prefix == prefix_info.prefix);
                }
                assert(out[at] == prefix_info);
                assert forall|i: int| 0 <= i < out.len() && i != at implies (
                #[trigger] out[i]).prefix != prefix_info.prefix && out[i] == before[i] by {}
            },
            EventView::PrefixExpiry { key, prefix_info } => {
                let other = with_other_address(prefix_info.prefix);
                lemma_filter_distinct_prefixes(before, other);
                assert forall|i: int| 0 <= i < out.len() implies backed(
                    events,
                    list,
                    #[trigger] out[i],
                ) by {
                    before.lemma_filter_pred(other, i);
                    before.lemma_filter_contains_rev(other, out[i]);
                    let k = choose|k: int| 0 <= k < before.len() && before[k] == out[i];
                    assert(backed(rest, list, before[k]));
                }
            },
            _ => {
                assert forall|i: int| 0 <= i < out.len() implies backed(
                    events,
                    list,
                    #[trigger] out[i],
                ) by {
                    assert(backed(rest, list, before[i]));
                }
            },
        }
    }
}

/// Lists are equal whose addresses are, if they have the same data for each.
proof fn lemma_same_prefixes(
    a: Seq<PrefixInfo>,
    b: Seq<PrefixInfo>,
    known: Seq<PrefixInfo>,
    events: Seq<EventView>,
)
    requires
        addresses(a) == addresses(b),
        distinct_prefixes(known),
        forall|i: int| 0 <= i < a.len() ==> backed(events, known, #[trigger] a[i]),
        forall|i: int| 0 <= i < b.len() ==> backed(events, known, #[trigger] b[i]),
    ensures
        a == b,
{
    assert(a.len() == addresses(a).len() && b.len() == addresses(b).len());
    assert forall|i: int| 0 <= i < a.len() implies a[i] == b[i] by {
        assert(addresses(a)[i] == a[i].prefix);
        assert(addresses(b)[i] == b[i].prefix);
        assert(backed(events, known, a[i]));
        assert(backed(events, known, b[i]));
        if said(events, a[i].prefix) is None {
            let j = choose|j: int| 0 <= j < known.len() && known[j] == a[i];
            let k = choose|k: int| 0 <= k < known.len() && known[k] == b[i];
            assert(known[j].prefix == known[k].prefix);
        }
    }
    assert(a =~= b);
}

/// What the addresses are when the same changes come again, and once more.
proof fn lemma_addresses_again(list: Seq<PrefixInfo>, events: Seq<EventView>)
    ensures
        ({
            let once = prefixes_after(list, events);
            let twice = prefixes_after(once, events);
            &&& addresses(twice) == addresses(revived_last(once, events))
            &&& addresses(prefixes_after(twice, events)) == addresses(twice)
        }),
{
    let once = prefixes_after(list, events);
    let twice = prefixes_after(once, events);
    let none = Seq::<PrefixInfo>::empty();
    let fresh = prefixes_after(none, events);
    let f = |p: PrefixInfo| p.prefix;
    let back = |p: PrefixInfo| taken_back(events, p.prefix);
    let stay = |p: PrefixInfo| !taken_back(events, p.prefix);
    lemma_addresses_after(list, events);
    lemma_addresses_after(once, events);
    lemma_addresses_after(twice, events);
    lemma_addresses_after(none, events);
    assert(addresses(none) =~= Seq::empty());
    assert forall|a: Ipv6Addr| #[trigger]
        addresses_after(Seq::empty(), events).contains(a) implies addresses(once).contains(a)
        && addresses(twice).contains(a) by {
        lemma_announced_stays(addresses(list), events, a);
        lemma_announced_stays(addresses(once), events, a);
    }
    lemma_order_again(addresses(once), events);
    lemma_order_again(addresses(twice), events);
    lemma_order_settles(addresses(once), events);
    assert(addresses(revived_last(once, events)) == order_again(addresses(once), events)) by {
        lemma_filter_map(once, f, stay, staying(events));
        lemma_filter_map(fresh, f, back, |a: Ipv6Addr| taken_back(events, a));
        assert(addresses(revived_last(once, events)) =~= addresses(once.filter(stay)) + addresses(
            revived(events),
        ));
    }
}

/// What is both taken back and there afterwards is revived.
proof fn lemma_revived(list: Seq<PrefixInfo>, events: Seq<EventView>, p: PrefixInfo)
    requires
        distinct_prefixes(list),
        prefixes_after(list, events).contains(p),
        taken_back(events, p.prefix),
    ensures
        revived(events).contains(p),
{
    let once = prefixes_after(list, events);
    let none = Seq::<PrefixInfo>::empty();
    let fresh = prefixes_after(none, events);
    let a = p.prefix;
    let i = choose|i: int| 0 <= i < once.len() && once[i] == p;
    lemma_addresses_after(list, events);
    lemma_addresses_after(none, events);
    assert(addresses(none) =~= Seq::empty());
    assert(addresses(once)[i] == a);
    lemma_order(addresses(list), events);
    lemma_add_members(
        addresses(list).filter(staying(events)),
        addresses(fresh).filter(arriving(events, addresses(list))),
        a,
    );
    lemma_filter_members(addresses(list), staying(events), a);
    lemma_filter_members(addresses(fresh), arriving(events, addresses(list)), a);
    lemma_has_address(fresh, a);
    let k = prefix_position(fresh, a);
    assert(0 <= k < fresh.len() && fresh[k].prefix == a);
    lemma_said(list, events);
    lemma_said(none, events);
    assert(backed(events, none, fresh[k]));
    assert(backed(events, list, once[i]));
    assert(fresh[k] == p);
    lemma_filter_members(fresh, |q: PrefixInfo| taken_back(events, q.prefix), p);
}

/// What changes leave of a list when they come again, and once more.
proof fn lemma_prefixes_again(list: Seq<PrefixInfo>, events: Seq<EventView>)
    requires
        distinct_prefixes(list),
    ensures
        ({
            let once = prefixes_after(list, events);
            let twice = prefixes_after(once, events);
            &&& distinct_prefixes(once)
            &&& twice == revived_last(once, events)
            &&& prefixes_after(twice, events) == twice
            &&& forall|p: PrefixInfo| #[trigger] once.contains(p) <==> twice.contains(p)
        }),
{
    let once = prefixes_after(list, events);
    let twice = prefixes_after(once, events);
    let thrice = prefixes_after(twice, events);
    let none = Seq::<PrefixInfo>::empty();
    let fresh = prefixes_after(none, events);
    let back = |p: PrefixInfo| taken_back(events, p.prefix);
    let stay = |p: PrefixInfo| !taken_back(events, p.prefix);
    let moved = revived_last(once, events);
    lemma_addresses_again(list, events);
    lemma_said(list, events);
    lemma_said(once, events);
    lemma_said(twice, events);
    lemma_said(none, events);
    assert forall|i: int| 0 <= i < moved.len() implies backed(
        events,
        once,
        #[trigger] moved[i],
    ) by {
        let n = once.filter(stay).len();
        if i < n {
            assert(once.filter(stay)[i] == moved[i]);
            lemma_filter_members(once, stay, moved[i]);
            let j = choose|j: int| 0 <= j < once.len() && once[j] == moved[i];
            assert(backed(events, list, once[j]));
        } else {
            assert(revived(events)[i - n] == moved[i]);
            lemma_filter_members(fresh, back, moved[i]);
            let j = choose|j: int| 0 <= j < fresh.len() && fresh[j] == moved[i];
            assert(backed(events, none, fresh[j]));
        }
    }
    lemma_same_prefixes(twice, moved, once, events);
    assert forall|i: int| 0 <= i < twice.len() implies backed(
        events,
        twice,
        #[trigger] twice[i],
    ) by {
        assert(backed(events, once, twice[i]));
    }
    lemma_same_prefixes(thrice, twice, twice, events);
    assert forall|p: PrefixInfo| #[trigger] once.contains(p) <==> twice.contains(p) by {
        lemma_add_members(once.filter(stay), revived(events), p);
        lemma_filter_members(once, stay, p);
        lemma_filter_members(fresh, back, p);
        if once.contains(p) && taken_back(events, p.prefix) {
            lemma_revived(list, events, p);
        }
        if revived(events).contains(p) {
            lemma_addresses_after(list, events);
            lemma_addresses_after(none, events);
            assert(addresses(none) =~= Seq::empty());
            let j = choose|j: int| 0 <= j < fresh.len() && fresh[j] == p;
            assert(addresses(fresh)[j] == p.prefix);
            lemma_announced_stays(addresses(list), events, p.prefix);
            lemma_has_address(once, p.prefix);
            let k = prefix_position(once, p.prefix);
            assert(0 <= k < once.len() && once[k].prefix == p.prefix);
            assert(backed(events, none, fresh[j]));
            assert(backed(events, list, once[k]));
            assert(once[k] == p);
        }
    }
}

// Tables

proof fn lemma_put_over<K, V>(t: Seq<(K, V)>, key: K, first: V, second: V)
    requires
        unique_keys(t),
    ensures
        put(put(t, key, first), key, second) == put(t, key, second),
{
    let once = put(t, key, first);
    law_put(t, key, first);
    assert(has_key(once, key));
    let p = position(once, key);
    assert(0 <= p < once.len() && once[p].0 == key);
    if has_key(t, key) {
        let q = position(t, key);
        assert(0 <= q < t.len() && t[q].0 == key);
        assert(once[q].0 == key);
        assert(p == q);
        assert(once.update(p, (key, second)) =~= t.update(q, (key, second)));
    } else {
        assert(once[t.len() as int].0 == key);
        assert(p == t.len());
        assert(once.update(p, (key, second)) =~= t.push((key, second)));
    }
}

/// The table with the last of the values that were put at a key, if any was.
spec fn put_last<V>(t: Seq<(Key, V)>, key: Key, value: Option<V>) -> Seq<(Key, V)> {
    match value {
        Some(v) => put(t, key, v),
        None => t,
    }
}

proof fn lemma_put_last_over<V>(
    t: Seq<(Key, V)>,
    key: Key,
    first: Option<V>,
    second: V,
)
    requires
        unique_keys(t),
    ensures
        put(put_last(t, key, first), key, second) == put(t, key, second),
{
    if let Some(v) = first {
        lemma_put_over(t, key, v, second);
    }
}

proof fn lemma_put_last_again<V>(t: Seq<(Key, V)>, key: Key, value: Option<V>)
    requires
        unique_keys(t),
    ensures
        put_last(put_last(t, key, value), key, value) == put_last(t, key, value),
{
    if let Some(v) = value {
        lemma_put_over(t, key, v, v);
    }
}

spec fn last_router(events: Seq<EventView>) -> Option<Router>
    decreases events.len(),
{
    if events.len() == 0 {
        None
    } else {
        match events.last() {
            EventView::Router { key, managed, other_config } => Some(
                Router { managed, other_config },
            ),
            _ => last_router(events.drop_last()),
        }
    }
}

spec fn last_servers(events: Seq<EventView>) -> Option<Seq<Ipv6Addr>>
    decreases events.len(),
{
    if events.len() == 0 {
        None
    } else {
        match events.last() {
            EventView::DnsServers { key, servers } => Some(by_lifetime(servers)),
            _ => last_servers(events.drop_last()),
        }
    }
}

spec fn last_domains(events: Seq<EventView>) -> Option<Seq<Seq<char>>>
    decreases events.len(),
{
    if events.len() == 0 {
        None
    } else {
        match events.last() {
            EventView::DnsDomains { key, domains } => Some(by_lifetime(domains)),
            _ => last_domains(events.drop_last()),
        }
    }
}

/// Whether a list is empty before or after one of the changes.
spec fn runs_empty(list: Seq<PrefixInfo>, events: Seq<EventView>) -> bool
    decreases events.len(),
{
    prefixes_after(list, events).len() == 0 || (events.len() > 0 && runs_empty(
        list,
        events.drop_last(),
    ))
}

/// The table of prefixes after changes that are about one router. The router
/// loses its place when it runs out of prefixes.
#[verifier::opaque]
spec fn table_after(
    t: Seq<(Key, Seq<PrefixInfo>)>,
    key: Key,
    events: Seq<EventView>,
) -> Seq<(Key, Seq<PrefixInfo>)> {
    let list = items_at(t, key);
    let left = prefixes_after(list, events);
    if left.len() == 0 {
        without(t, key)
    } else if runs_empty(list, events) {
        put(without(t, key), key, left)
    } else {
        put(t, key, left)
    }
}

/// The last of the changes, by what it leaves of the list.
proof fn lemma_table_step(
    t: Seq<(Key, Seq<PrefixInfo>)>,
    key: Key,
    events: Seq<EventView>,
)
    requires
        unique_keys(t),
        events.len() > 0,
    ensures
        ({
            let before = table_after(t, key, events.drop_last());
            let was = prefixes_after(items_at(t, key), events.drop_last());
            let left = prefixes_after(items_at(t, key), events);
            &&& table_after(t, key, events) == if left.len() == 0 {
                without(before, key)
            } else {
                put(before, key, left)
            }
            &&& left == was ==> table_after(t, key, events) == before
        }),
{
    reveal(table_after);
    let list = items_at(t, key);
    let rest = events.drop_last();
    let was = prefixes_after(list, rest);
    let left = prefixes_after(list, events);
    let bare = without(t, key);
    law_without(t, key);
    assert(runs_empty(list, events) == (left.len() == 0 || runs_empty(list, rest)));
    assert(was.len() == 0 ==> runs_empty(list, rest));
    if was.len() == 0 {
        assert(without(bare, key) == bare);
    } else if runs_empty(list, rest) {
        lemma_put_over(bare, key, was, left);
        lemma_without_put(bare, key, was);
    } else {
        lemma_put_over(t, key, was, left);
        lemma_without_put(t, key, was);
    }
}

proof fn lemma_table_after(state: AggregatorView, events: Seq<EventView>, key: Key)
    requires
        state.wf(),
        announced_by(events, key),
    ensures
        applied_all(state, events).wf(),
        applied_all(state, events).contribution(key).prefixes == prefixes_after(
            state.contribution(key).prefixes,
            events,
        ),
        forall|k: Key|
            k != key ==> #[trigger] applied_all(state, events).contribution(k)
                == state.contribution(k),
        applied_all(state, events) == (AggregatorView {
            routers: put_last(state.routers, key, last_router(events)),
            servers: put_last(state.servers, key, last_servers(events)),
            domains: put_last(state.domains, key, last_domains(events)),
            prefixes: table_after(state.prefixes, key, events),
        }),
    decreases events.len(),
{
    let t = state.prefixes;
    let list = items_at(t, key);
    if events.len() == 0 {
        reveal(table_after);
        if has_key(t, key) {
            assert(list.len() > 0);
            lemma_put_known(t, key);
        }
    } else {
        let rest = events.drop_last();
        let last = events.last();
        let before = applied_all(state, rest);
        assert forall|i: int| 0 <= i < rest.len() implies subject(#[trigger] rest[i]) == key && !(
        rest[i] is RouterExpiry) by {
            assert(rest[i] == events[i]);
        }
        assert(subject(events[events.len() - 1]) == key);
        lemma_table_after(state, rest, key);
        law_applied_wf(before, last);
        assert forall|k: Key| k != key implies #[trigger] applied_all(state, events).contribution(k)
            == state.contribution(k) by {
            law_applied(before, last, k);
            assert(before.contribution(k) == state.contribution(k));
        }
        law_applied(before, last, key);
        let was = prefixes_after(list, rest);
        let left = prefixes_after(list, events);
        assert(items_at(before.prefixes, key) == was);
        lemma_table_step(t, key, events);
        match last {
            EventView::Router { key: k, managed, other_config } => {
                lemma_put_last_over(
                    state.routers,
                    key,
                    last_router(rest),
                    Router { managed, other_config },
                );
            },
            EventView::DnsServers { key: k, servers } => {
                lemma_put_last_over(state.servers, key, last_servers(rest), by_lifetime(servers));
            },
            EventView::DnsDomains { key: k, domains } => {
                lemma_put_last_over(state.domains, key, last_domains(rest), by_lifetime(domains));
            },
            _ => {},
        }
        let out = applied(before, last);
        assert(out.routers == put_last(state.routers, key, last_router(events)));
        assert(out.servers == put_last(state.servers, key, last_servers(events)));
        assert(out.domains == put_last(state.domains, key, last_domains(events)));
        assert(out.prefixes == table_after(state.prefixes, key, events));
    }
}

/// Whether lists run empty depends on their addresses alone.
proof fn lemma_same_addresses(s: Seq<Ipv6Addr>, t: Seq<Ipv6Addr>, events: Seq<EventView>)
    requires
        forall|a: Ipv6Addr| #[trigger] s.contains(a) <==> t.contains(a),
    ensures
        forall|a: Ipv6Addr| #[trigger]
            addresses_after(s, events).contains(a) <==> addresses_after(t, events).contains(a),
    decreases events.len(),
{
    if events.len() > 0 {
        let x = addresses_after(s, events.drop_last());
        let y = addresses_after(t, events.drop_last());
        lemma_same_addresses(s, t, events.drop_last());
        assert forall|a: Ipv6Addr| #[trigger]
            addresses_after(s, events).contains(a) <==> addresses_after(t, events).contains(a) by {
            assert(x.contains(a) <==> y.contains(a));
            match events.last() {
                EventView::Prefix { key, prefix_info } => {
                    let new = prefix_info.prefix;
                    assert(x.contains(new) <==> y.contains(new));
                    lemma_add_members(x, seq![new], a);
                    lemma_add_members(y, seq![new], a);
                    assert(x.push(new) =~= x + seq![new]);
                    assert(y.push(new) =~= y + seq![new]);
                    assert(seq![new].contains(a) <==> a == new) by {
                        assert(seq![new][0] == new);
                    }
                },
                EventView::PrefixExpiry { key, prefix_info } => {
                    let other = |b: Ipv6Addr| b != prefix_info.prefix;
                    lemma_filter_members(x, other, a);
                    lemma_filter_members(y, other, a);
                },
                _ => {},
            }
        }
    }
}

proof fn lemma_runs_empty_alike(
    x: Seq<PrefixInfo>,
    y: Seq<PrefixInfo>,
    events: Seq<EventView>,
)
    requires
        forall|a: Ipv6Addr| #[trigger] addresses(x).contains(a) <==> addresses(y).contains(a),
    ensures
        runs_empty(x, events) <==> runs_empty(y, events),
    decreases events.len(),
{
    let a = prefixes_after(x, events);
    let b = prefixes_after(y, events);
    lemma_addresses_after(x, events);
    lemma_addresses_after(y, events);
    lemma_same_addresses(addresses(x), addresses(y), events);
    if a.len() > 0 {
        assert(addresses(a).contains(addresses(a)[0]));
        assert(addresses(b).contains(addresses(a)[0]));
    }
    if b.len() > 0 {
        assert(addresses(b).contains(addresses(b)[0]));
        assert(addresses(a).contains(addresses(b)[0]));
    }
    if events.len() > 0 {
        lemma_runs_empty_alike(x, y, events.drop_last());
    }
}

/// A list does not run empty as long as it has a prefix that is not taken
/// back.
proof fn lemma_never_empty(list: Seq<PrefixInfo>, events: Seq<EventView>, address: Ipv6Addr)
    requires
        addresses(list).contains(address),
        !taken_back(events, address),
    ensures
        !runs_empty(list, events),
    decreases events.len(),
{
    let out = prefixes_after(list, events);
    lemma_addresses_after(list, events);
    lemma_order(addresses(list), events);
    lemma_filter_members(addresses(list), staying(events), address);
    lemma_add_members(
        addresses(list).filter(staying(events)),
        addresses_after(Seq::empty(), events).filter(arriving(events, addresses(list))),
        address,
    );
    assert(addresses(out).contains(address));
    if events.len() > 0 {
        lemma_taken_back(events, address);
        lemma_never_empty(list, events.drop_last(), address);
    }
}

proof fn lemma_same_members_same_addresses(x: Seq<PrefixInfo>, y: Seq<PrefixInfo>)
    requires
        forall|p: PrefixInfo| #[trigger] x.contains(p) <==> y.contains(p),
    ensures
        forall|a: Ipv6Addr| #[trigger] addresses(x).contains(a) <==> addresses(y).contains(a),
{
    assert forall|a: Ipv6Addr| #[trigger]
        addresses(x).contains(a) <==> addresses(y).contains(a) by {
        if addresses(x).contains(a) {
            let i = choose|i: int| 0 <= i < x.len() && addresses(x)[i] == a;
            assert(x.contains(x[i]));
            let k = choose|k: int| 0 <= k < y.len() && y[k] == x[i];
            assert(addresses(y)[k] == a);
        }
        if addresses(y).contains(a) {
            let i = choose|i: int| 0 <= i < y.len() && addresses(y)[i] == a;
            assert(x.contains(y[i]) <==> y.contains(y[i]));
            let k = choose|k: int| 0 <= k < x.len() && x[k] == y[i];
            assert(addresses(x)[k] == a);
        }
    }
}

/// The table of prefixes stays the same when changes come again that leave
/// the list as it is, unless the router loses its place on the way.
proof fn lemma_table_again(
    t: Seq<(Key, Seq<PrefixInfo>)>,
    key: Key,
    events: Seq<EventView>,
)
    requires
        unique_keys(t),
        has_key(t, key) <==> items_at(t, key).len() > 0,
        prefixes_after(items_at(t, key), events) == items_at(t, key),
        items_at(t, key).len() > 0 ==> !runs_empty(items_at(t, key), events),
    ensures
        table_after(t, key, events) == t,
{
    reveal(table_after);
    if has_key(t, key) {
        lemma_put_known(t, key);
    }
}

/// Changes that revive nothing leave the table of prefixes as it is when they
/// come again.
proof fn lemma_table_unmoved(
    start: Seq<PrefixInfo>,
    t: Seq<(Key, Seq<PrefixInfo>)>,
    key: Key,
    events: Seq<EventView>,
)
    requires
        distinct_prefixes(start),
        unique_keys(t),
        has_key(t, key) <==> items_at(t, key).len() > 0,
        items_at(t, key) == prefixes_after(start, events),
        prefixes_after(items_at(t, key), events) == revived_last(items_at(t, key), events),
        revived(events).len() == 0,
    ensures
        table_after(t, key, events) == t,
{
    let list = items_at(t, key);
    assert forall|i: int| 0 <= i < list.len() implies !taken_back(
        events,
        (#[trigger] list[i]).prefix,
    ) by {
        if taken_back(events, list[i].prefix) {
            assert(list.contains(list[i]));
            lemma_revived(start, events, list[i]);
        }
    }
    lemma_filter_all(list, |p: PrefixInfo| !taken_back(events, p.prefix));
    assert(revived_last(list, events) =~= list);
    if list.len() > 0 {
        assert(addresses(list)[0] == list[0].prefix);
        lemma_never_empty(list, events, list[0].prefix);
    }
    lemma_table_again(t, key, events);
}

/// The table of prefixes settles when changes come again.
proof fn lemma_table_settles(
    t: Seq<(Key, Seq<PrefixInfo>)>,
    again: Seq<(Key, Seq<PrefixInfo>)>,
    key: Key,
    events: Seq<EventView>,
)
    requires
        unique_keys(t),
        unique_keys(again),
        again == table_after(t, key, events),
        has_key(again, key) <==> items_at(again, key).len() > 0,
        items_at(again, key) == prefixes_after(items_at(t, key), events),
        prefixes_after(items_at(again, key), events) == items_at(again, key),
        forall|p: PrefixInfo| #[trigger]
            items_at(t, key).contains(p) <==> items_at(again, key).contains(p),
    ensures
        table_after(again, key, events) == again,
{
    let x = items_at(t, key);
    let y = items_at(again, key);
    if y.len() > 0 && runs_empty(y, events) {
        reveal(table_after);
        lemma_same_members_same_addresses(x, y);
        lemma_runs_empty_alike(x, y, events);
        law_without(t, key);
        lemma_without_put(without(t, key), key, y);
    } else {
        lemma_table_again(again, key, events);
    }
}

proof fn lemma_listed(state: AggregatorView, key: Key)
    requires
        state.wf(),
    ensures
        unique_keys(state.prefixes),
        has_key(state.prefixes, key) <==> items_at(state.prefixes, key).len() > 0,
        distinct_prefixes(items_at(state.prefixes, key)),
        items_at(state.prefixes, key) == state.contribution(key).prefixes,
{
}

/// The tables of prefixes when the same changes come again, and once more.
proof fn lemma_prefix_tables_again(
    t: Seq<(Key, Seq<PrefixInfo>)>,
    once: Seq<(Key, Seq<PrefixInfo>)>,
    twice: Seq<(Key, Seq<PrefixInfo>)>,
    key: Key,
    events: Seq<EventView>,
)
    requires
        distinct_prefixes(items_at(t, key)),
        unique_keys(once),
        unique_keys(twice),
        has_key(once, key) <==> items_at(once, key).len() > 0,
        has_key(twice, key) <==> items_at(twice, key).len() > 0,
        twice == table_after(once, key, events),
        items_at(once, key) == prefixes_after(items_at(t, key), events),
        items_at(twice, key) == prefixes_after(items_at(once, key), events),
    ensures
        items_at(twice, key) == revived_last(items_at(once, key), events),
        forall|p: PrefixInfo| #[trigger]
            items_at(twice, key).contains(p) <==> items_at(once, key).contains(p),
        revived(events).len() == 0 ==> twice == once,
        table_after(twice, key, events) == twice,
{
    let start = items_at(t, key);
    let x = items_at(once, key);
    let y = items_at(twice, key);
    assert(y == revived_last(x, events) && prefixes_after(y, events) == y) by {
        lemma_prefixes_again(start, events);
    }
    assert(forall|p: PrefixInfo| #[trigger] x.contains(p) <==> y.contains(p)) by {
        lemma_prefixes_again(start, events);
    }
    assert(revived(events).len() == 0 ==> twice == once) by {
        if revived(events).len() == 0 {
            lemma_table_unmoved(start, once, key, events);
        }
    }
    assert(table_after(twice, key, events) == twice) by {
        lemma_table_settles(once, twice, key, events);
    }
}

// Laws

/// What a router announces in one go, coming again, changes nothing, unless
/// prefixes are revived: taken back and announced after that. These go to the
/// end of the prefixes of the router, which are otherwise the same ones. From
/// the second time on, nothing changes at all.
pub proof fn law_changes_again(state: AggregatorView, events: Seq<EventView>, key: Key)
    requires
        state.wf(),
        announced_by(events, key),
    ensures
        ({
            let once = applied_all(state, events);
            let twice = applied_all(once, events);
            let list = once.contribution(key).prefixes;
            &&& twice.routers == once.routers
            &&& twice.servers == once.servers
            &&& twice.domains == once.domains
            &&& forall|k: Key|
                k != key ==> #[trigger] twice.contribution(k) == once.contribution(k)
            &&& twice.contribution(key).prefixes == revived_last(list, events)
            &&& forall|p: PrefixInfo| #[trigger]
                twice.contribution(key).prefixes.contains(p) <==> list.contains(p)
            &&& revived(events).len() == 0 ==> twice == once
            &&& applied_all(twice, events) == twice
        }),
{
    let once = applied_all(state, events);
    let twice = applied_all(once, events);
    lemma_table_after(state, events, key);
    lemma_table_after(once, events, key);
    lemma_table_after(twice, events, key);
    lemma_listed(state, key);
    lemma_listed(once, key);
    lemma_listed(twice, key);
    lemma_put_last_again(state.routers, key, last_router(events));
    lemma_put_last_again(state.servers, key, last_servers(events));
    lemma_put_last_again(state.domains, key, last_domains(events));
    lemma_prefix_tables_again(state.prefixes, once.prefixes, twice.prefixes, key, events);
}

/// The same advertisement again changes nothing that is aggregated, so nothing
/// is emitted, unless it withdraws prefixes and announces them after that.
/// These go to the end of the prefixes of the router, which are otherwise the
/// same ones; flags, DNS servers and search domains stay as they are. From
/// the second time on, nothing is changed or emitted at all.
pub proof fn law_same_advertisement_again(state: AggregatorView, ra: RouterAdvertisementView)
    requires
        state.wf(),
    ensures
        ({
            let events = reported(detected(ra));
            let key = source(ra);
            let once = applied_all(state, events);
            let twice = applied_all(once, events);
            let thrice = applied_all(twice, events);
            let list = once.contribution(key).prefixes;
            &&& twice.routers == once.routers
            &&& twice.servers == once.servers
            &&& twice.domains == once.domains
            &&& forall|k: Key|
                k != key ==> #[trigger] twice.contribution(k) == once.contribution(k)
            &&& twice.contribution(key).prefixes == revived_last(list, events)
            &&& forall|p: PrefixInfo| #[trigger]
                twice.contribution(key).prefixes.contains(p) <==> list.contains(p)
            &&& !revives(ra) ==> twice == once && changes(
                aggregated(once),
                aggregated(twice),
            ).len() == 0
            &&& thrice == twice && changes(aggregated(twice), aggregated(thrice)).len() == 0
        }),
{
    let events = reported(detected(ra));
    let key = source(ra);
    let once = applied_all(state, events);
    let twice = applied_all(once, events);
    if ra.router_lifetime == 0 {
        reveal_with_fuel(applied_all, 2);
        reveal_with_fuel(prefixes_after, 2);
        reveal(Seq::filter);
        let event = EventView::RouterExpiry { key };
        assert(events =~= seq![event]);
        assert(events.drop_last() =~= Seq::empty());
        law_applied_wf(state, event);
        law_applied(state, event, key);
        law_change_again(state, event);
        assert(once.contribution(key).prefixes =~= Seq::empty());
        assert(revived(events) =~= Seq::empty());
        assert(revived_last(Seq::empty(), events) =~= Seq::empty());
    } else {
        lemma_detected(ra);
        law_changes_again(state, events, key);
        lemma_table_after(state, events, key);
        lemma_table_after(once, events, key);
    }
    law_revived(ra);
    law_no_change_no_report(once, once);
    law_no_change_no_report(twice, twice);
}

/// What an advertisement announces is about its router; its prefixes come
/// last.
proof fn lemma_detected(ra: RouterAdvertisementView)
    requires
        ra.router_lifetime != 0,
    ensures
        announced_by(reported(detected(ra)), source(ra)),
        ({
            let events = reported(detected(ra));
            let n = 1 + server_events(ra).len() + domain_events(ra).len();
            &&& events.len() == n + ra.options.prefixes.len()
            &&& forall|i: int|
                0 <= i < n ==> !(#[trigger] events[i] is Prefix) && !(events[i] is PrefixExpiry)
            &&& forall|i: int|
                n <= i < events.len() ==> {
                    let said = ra.options.prefixes[i - n];
                    let info = PrefixInfo { prefix: said.prefix, prefix_len: said.prefix_len };
                    #[trigger] events[i] == if said.valid_lifetime == 0 {
                        EventView::PrefixExpiry { key: source(ra), prefix_info: info }
                    } else {
                        EventView::Prefix { key: source(ra), prefix_info: info }
                    }
                }
        }),
{
    let all = detected(ra);
    let events = reported(all);
    let (b, c, d) = (server_events(ra), domain_events(ra), prefix_events(ra));
    let n = 1 + b.len() + c.len();
    assert(all.len() == n + d.len());
    assert forall|i: int| 0 <= i < events.len() implies if i < n {
        &&& subject(#[trigger] events[i]) == source(ra)
        &&& !(events[i] is RouterExpiry)
        &&& !(events[i] is Prefix)
        &&& !(events[i] is PrefixExpiry)
    } else {
        all[i] == d[i - n]
    } by {
        if i == 0 {
            assert(all[i] == router_event(ra));
        } else if i < 1 + b.len() {
            assert(all[i] == b[i - 1]);
        } else if i < n {
            assert(all[i] == c[i - 1 - b.len()]);
        } else {
            assert(all[i] == d[i - n]);
        }
    }
    assert forall|i: int| n <= i < events.len() implies all[i] == d[i - n] && subject(
        #[trigger] events[i],
    ) == source(ra) && !(events[i] is RouterExpiry) by {}
}

/// Whether an advertisement withdraws a prefix, announces it after that, and
/// leaves it so.
pub open spec fn revives(ra: RouterAdvertisementView) -> bool {
    let list = ra.options.prefixes;
    ra.router_lifetime != 0 && exists|i: int, j: int|
        {
            &&& 0 <= i < j < list.len()
            &&& (#[trigger] list[i]).prefix == (#[trigger] list[j]).prefix
            &&& list[i].valid_lifetime == 0
            &&& list[j].valid_lifetime != 0
            &&& forall|k: int|
                j < k < list.len() && (#[trigger] list[k]).prefix == list[j].prefix
                    ==> list[k].valid_lifetime != 0
        }
}

/// Whether a change announces the prefix with this address.
spec fn announces(event: EventView, address: Ipv6Addr) -> bool {
    match event {
        EventView::Prefix { key, prefix_info } => prefix_info.prefix == address,
        _ => false,
    }
}

/// What is revived is taken back first and announced after that, and not
/// taken back again.
proof fn lemma_revival(events: Seq<EventView>, address: Ipv6Addr) -> (at: (int, int))
    requires
        addresses_after(Seq::empty(), events).contains(address),
        taken_back(events, address),
    ensures
        0 <= at.0 < at.1 < events.len(),
        takes_back(events[at.0], address),
        announces(events[at.1], address),
        forall|k: int| at.1 < k < events.len() ==> !takes_back(#[trigger] events[k], address),
    decreases events.len(),
{
    let rest = events.drop_last();
    let before = addresses_after(Seq::empty(), rest);
    lemma_taken_back(events, address);
    if announces(events.last(), address) {
        let i = choose|i: int| 0 <= i < rest.len() && takes_back(#[trigger] rest[i], address);
        (i, events.len() - 1)
    } else {
        match events.last() {
            EventView::PrefixExpiry { key, prefix_info } => {
                lemma_filter_members(before, |a: Ipv6Addr| a != prefix_info.prefix, address);
            },
            EventView::Prefix { key, prefix_info } => {
                let out = addresses_after(Seq::empty(), events);
                let k = choose|k: int| 0 <= k < out.len() && out[k] == address;
                assert(before[k] == address);
            },
            _ => {},
        }
        let at = lemma_revival(rest, address);
        assert forall|k: int| at.1 < k < events.len() implies !takes_back(
            #[trigger] events[k],
            address,
        ) by {
            if k < rest.len() {
                assert(!takes_back(rest[k], address));
            }
        }
        at
    }
}

/// What is announced and not taken back after that is there in the end.
proof fn lemma_announced_last(events: Seq<EventView>, address: Ipv6Addr, j: int)
    requires
        0 <= j < events.len(),
        announces(events[j], address),
        forall|k: int| j < k < events.len() ==> !takes_back(#[trigger] events[k], address),
    ensures
        addresses_after(Seq::empty(), events).contains(address),
    decreases events.len(),
{
    let rest = events.drop_last();
    let before = addresses_after(Seq::empty(), rest);
    let out = addresses_after(Seq::empty(), events);
    if j == events.len() - 1 {
        if !before.contains(address) {
            assert(out[before.len() as int] == address);
        }
    } else {
        assert forall|k: int| j < k < rest.len() implies !takes_back(
            #[trigger] rest[k],
            address,
        ) by {
            assert(!takes_back(events[k], address));
        }
        assert(!takes_back(events[events.len() - 1], address));
        lemma_announced_last(rest, address, j);
        match events.last() {
            EventView::PrefixExpiry { key, prefix_info } => {
                lemma_filter_members(before, |a: Ipv6Addr| a != prefix_info.prefix, address);
            },
            EventView::Prefix { key, prefix_info } => {
                let k = choose|k: int| 0 <= k < before.len() && before[k] == address;
                assert(out[k] == address);
            },
            _ => {},
        }
    }
}

/// Prefixes are revived exactly by advertisements that withdraw a prefix,
/// announce it after that, and leave it so. Prefixes may repeat otherwise.
pub proof fn law_revived(ra: RouterAdvertisementView)
    ensures
        revived(reported(detected(ra))).len() > 0 <==> revives(ra),
{
    let events = reported(detected(ra));
    let list = ra.options.prefixes;
    let none = Seq::<PrefixInfo>::empty();
    let fresh = prefixes_after(none, events);
    let back = |q: PrefixInfo| taken_back(events, q.prefix);
    lemma_addresses_after(none, events);
    assert(addresses(none) =~= Seq::empty());
    if revived(events).len() > 0 {
        let p = revived(events)[0];
        lemma_filter_members(fresh, back, p);
        assert(revived(events).contains(p));
        let k = choose|k: int| 0 <= k < fresh.len() && fresh[k] == p;
        assert(addresses(fresh)[k] == p.prefix);
        let (i, j) = lemma_revival(events, p.prefix);
        if ra.router_lifetime != 0 {
            lemma_detected(ra);
            let n = 1 + server_events(ra).len() + domain_events(ra).len();
            assert(i >= n && j >= n);
            let (a, b) = (i - n, j - n);
            assert(list[a].prefix == list[b].prefix);
            assert forall|k: int|
                b < k < list.len() && (#[trigger] list[k]).prefix == list[b].prefix implies list[k]
                .valid_lifetime != 0 by {
                assert(!takes_back(events[k + n], p.prefix));
            }
            assert(revives(ra));
        }
    }
    if revives(ra) {
        let (i, j) = choose|i: int, j: int|
            {
                &&& 0 <= i < j < list.len()
                &&& (#[trigger] list[i]).prefix == (#[trigger] list[j]).prefix
                &&& list[i].valid_lifetime == 0
                &&& list[j].valid_lifetime != 0
                &&& forall|k: int|
                    j < k < list.len() && (#[trigger] list[k]).prefix == list[j].prefix
                        ==> list[k].valid_lifetime != 0
            };
        let address = list[j].prefix;
        let n = 1 + server_events(ra).len() + domain_events(ra).len();
        lemma_detected(ra);
        assert(takes_back(events[i + n], address));
        assert(announces(events[j + n], address));
        assert forall|k: int| j + n < k < events.len() implies !takes_back(
            #[trigger] events[k],
            address,
        ) by {
            assert(list[k - n].prefix == address ==> list[k - n].valid_lifetime != 0);
        }
        lemma_announced_last(events, address, j + n);
        lemma_has_address(fresh, address);
        let k = prefix_position(fresh, address);
        assert(0 <= k < fresh.len() && fresh[k].prefix == address);
        assert(fresh.contains(fresh[k]));
        lemma_filter_members(fresh, back, fresh[k]);
        assert(revived(events).contains(fresh[k]));
    }
}

} // verus!
