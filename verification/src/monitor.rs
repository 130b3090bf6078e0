//! The processing pipeline without its input and output.
//!
//! A [`RouterMonitor`] takes what happens (links that come up, messages that
//! arrive, deadlines that pass) and says what follows: the events to emit and
//! the solicitations to start or to stop. Waiting, receiving and sending are
//! left to its owner.
use vstd::prelude::*;

use crate::address::Ipv6Addr;
use crate::aggregator::{
    aggregate_of, aggregated, applied_all, changes, contributed, law_aggregate_members,
    law_no_change_no_report, no_contributions, Aggregator, AggregatorView,
};
use crate::detector;
use crate::detector::{detect, detected, router_event, source, Key};
use crate::lifecycle;
use crate::lifecycle::{
    data_of, expired, expiries, law_nothing_expires_early, law_observation, law_prefix_lifetimes,
    law_refresh_lease, nothing_known, observed, observed_all, prefix_deprecated, reported,
    representable, router_gone, soft_expiries, unknown_router, Lifecycle, LifecycleEntry,
    LifecycleView,
};
use crate::list::contains;
use crate::router_advertisement::{
    advertisement, decode_router_advertisement, is_router_advertisement, RouterAdvertisement,
    RouterAdvertisementView, RouterSolicitationBurst,
};
use crate::sync::{
    agrees, in_sync, law_aggregate_is_what_is_valid, law_in_sync_at_first, law_in_sync_expired,
    law_in_sync_observed_all, lease_valid, lemma_no_groups,
};
use crate::table::{law_put, law_without, lookup, position, put, unique_keys, without, Table};
use crate::time::{seconds, Duration, Instant};
use crate::{Event, EventView, InterfaceIndex, PrefixInfo};

verus! {

/// How many solicitations are sent when a link comes up.
pub const BURST_COUNT: usize = 3;

/// Seconds between two solicitations.
pub const BURST_INTERVAL_SECS: u64 = 1;

/// Whether all deadlines that an advertisement received at time `now` sets
/// can be represented.
pub open spec fn lifetimes_representable(ra: RouterAdvertisementView, now: Instant) -> bool {
    forall|i: int|
        0 <= i < detected(ra).len() ==> representable(#[trigger] detected(ra)[i], now)
}

/// Every advertisement is representable as long as the clock can tell the
/// longest lifetime that fits on the wire.
pub proof fn lemma_lifetimes_representable(ra: RouterAdvertisementView, now: Instant)
    requires
        now.reaches(seconds(u32::MAX as nat)),
    ensures
        lifetimes_representable(ra, now),
{
}

/// Processes an advertisement.
///
/// Ends the solicitation burst of the interface and updates the lifecycle by
/// what the advertisement announces at time `now`. Returns the changes, and
/// the handle of the burst to stop.
pub fn handle_router_advertisement<H>(
    ra: RouterAdvertisement,
    lifecycle: &mut Lifecycle,
    pending_rs: &mut Table<InterfaceIndex, H>,
    now: Instant,
) -> (res: (Vec<lifecycle::Event>, Option<H>))
    requires
        old(lifecycle).deep_view().wf(),
        old(pending_rs).wf(),
        lifetimes_representable(ra.deep_view(), now),
    ensures
        final(lifecycle).deep_view() == observed_all(
            old(lifecycle).deep_view(),
            detected(ra.deep_view()),
            now,
        ),
        final(lifecycle).deep_view().wf(),
        res.0.deep_view() == reported(detected(ra.deep_view())),
        res.1 == lookup(old(pending_rs)@, ra.ifindex),
        final(pending_rs)@ == without(old(pending_rs)@, ra.ifindex),
        final(pending_rs).wf(),
{
    let handle = pending_rs.remove(&ra.ifindex);
    let events = detect(ra);
    assert(forall|i: int|
        0 <= i < events@.len() ==> (#[trigger] events@[i]).deep_view() == events.deep_view()[i]);
    (lifecycle.update(events, now), handle)
}

/// Starts a solicitation burst on an interface.
///
/// Returns the burst to send, and the handle of an earlier burst on the same
/// interface, which is to be stopped. The new burst goes by `handle`.
pub fn start_rs_burst<H>(
    pending_rs: &mut Table<InterfaceIndex, H>,
    ifindex: InterfaceIndex,
    handle: H,
) -> (res: (RouterSolicitationBurst, Option<H>))
    requires
        old(pending_rs).wf(),
    ensures
        res.0 == (RouterSolicitationBurst {
            ifindex,
            remaining: BURST_COUNT,
            interval: seconds(BURST_INTERVAL_SECS as nat),
        }),
        res.1 == lookup(old(pending_rs)@, ifindex),
        final(pending_rs)@ == put(without(old(pending_rs)@, ifindex), ifindex, handle),
        final(pending_rs).wf(),
{
    let earlier = pending_rs.remove(&ifindex);
    pending_rs.insert(ifindex, handle);
    let burst = RouterSolicitationBurst::new(
        ifindex,
        BURST_COUNT,
        Duration::from_secs(BURST_INTERVAL_SECS),
    );
    (burst, earlier)
}

/// The event for a prefix that reached its preferred lifetime, if its router
/// still contributes it. Other changes give no such event.
pub open spec fn soft_report(
    state: AggregatorView,
    event: lifecycle::EventView,
) -> Seq<EventView> {
    match event {
        lifecycle::EventView::PrefixSoftExpiry { key, prefix_info } => {
            match lookup(state.prefixes, key) {
                Some(list) if list.contains(prefix_info) => seq![
                    EventView::RaPrefixSoftExpiry { ifindex: key.ifindex, prefix: prefix_info },
                ],
                _ => Seq::empty(),
            }
        },
        _ => Seq::empty(),
    }
}

/// The events for prefixes that reached their preferred lifetimes.
pub open spec fn soft_reports(
    state: AggregatorView,
    events: Seq<lifecycle::EventView>,
) -> Seq<EventView>
    decreases events.len(),
{
    if events.len() == 0 {
        Seq::empty()
    } else {
        soft_reports(state, events.drop_last()) + soft_report(state, events.last())
    }
}

/// Selects the events to emit for prefixes that reached their preferred
/// lifetime.
///
/// Such a prefix stays valid, so nothing is aggregated anew. A prefix that is
/// gone already is not reported.
pub fn soft_expiry_events(
    aggregator: &Aggregator,
    lifecycle_events: Vec<lifecycle::Event>,
) -> (res: Vec<Event>)
    requires
        aggregator.deep_view().wf(),
    ensures
        res.deep_view() == soft_reports(aggregator.deep_view(), lifecycle_events.deep_view()),
{
    let ghost state = aggregator.deep_view();
    let ghost events = lifecycle_events.deep_view();
    let mut res: Vec<Event> = Vec::new();
    assert(res.deep_view() =~= soft_reports(state, events.take(0)));
    for event in it: lifecycle_events.into_iter()
        invariant
            it.seq() == lifecycle_events@,
            events == lifecycle_events.deep_view(),
            state == aggregator.deep_view(),
            state.wf(),
            res.deep_view() == soft_reports(state, events.take(it.index() as int)),
    {
        let ghost told = res.deep_view();
        proof {
            let i = it.index() as int;
            assert(events[i] == event.deep_view());
            assert(events.take(i + 1).drop_last() =~= events.take(i));
        }
        if let lifecycle::Event::PrefixSoftExpiry { key, prefix_info } = event {
            if let Some(prefixes) = aggregator.get_prefixes(&key) {
                if contains(&prefixes, &prefix_info) {
                    res.push(
                        Event::RaPrefixSoftExpiry { ifindex: key.ifindex, prefix: prefix_info },
                    );
                }
            }
        }
        assert(res.deep_view() =~= told + soft_report(state, event.deep_view()));
    }
    assert(events.take(events.len() as int) =~= events);
    res
}

/// The state of the pipeline.
///
/// `H` is whatever the owner stops a running solicitation burst by.
#[derive(Debug)]
pub struct RouterMonitor<H> {
    /// What is valid, and until when.
    pub lifecycle: Lifecycle,
    /// What is aggregated.
    pub aggregator: Aggregator,
    /// Solicitation bursts that may still be running, by interface.
    pub pending_rs: Table<InterfaceIndex, H>,
}

/// What follows from a received advertisement.
#[derive(Debug)]
pub struct Reaction<H> {
    /// Events to emit.
    pub events: Vec<Event>,
    /// Handle of the solicitation burst to stop.
    pub stop: Option<H>,
}

impl<H> Default for RouterMonitor<H> {
    /// A monitor that has seen nothing.
    fn default() -> (res: Self)
        ensures
            res.wf(),
            res.lifecycle.deep_view() == nothing_known(),
            res.aggregator.deep_view() == no_contributions(),
            res.pending_rs@.len() == 0,
    {
        proof {
            law_in_sync_at_first();
        }
        RouterMonitor {
            lifecycle: Lifecycle::default(),
            aggregator: Aggregator::default(),
            pending_rs: Table::default(),
        }
    }
}

impl<H> RouterMonitor<H> {
    /// What holds in every state: what is aggregated is what is valid, and an
    /// interface has at most one solicitation burst.
    pub open spec fn wf(&self) -> bool {
        &&& in_sync(self.lifecycle.deep_view(), self.aggregator.deep_view())
        &&& self.pending_rs.wf()
    }

    /// A link came up: starts a solicitation burst on its interface, in place
    /// of one that may be running.
    pub fn link_up(&mut self, ifindex: InterfaceIndex, handle: H) -> (res: (
        RouterSolicitationBurst,
        Option<H>,
    ))
        requires
            old(self).wf(),
        ensures
            final(self).wf(),
            res.0 == (RouterSolicitationBurst {
                ifindex,
                remaining: BURST_COUNT,
                interval: seconds(BURST_INTERVAL_SECS as nat),
            }),
            res.1 == lookup(old(self).pending_rs@, ifindex),
            final(self).pending_rs@ == put(
                without(old(self).pending_rs@, ifindex),
                ifindex,
                handle,
            ),
            final(self).lifecycle == old(self).lifecycle,
            final(self).aggregator == old(self).aggregator,
    {
        start_rs_burst(&mut self.pending_rs, ifindex, handle)
    }

    /// A message arrived at time `now` on an interface. Returns `None`, and
    /// changes nothing, if it is no Router Advertisement.
    pub fn receive(
        &mut self,
        ifindex: InterfaceIndex,
        router_ip: Ipv6Addr,
        payload: &[u8],
        now: Instant,
    ) -> (res: Option<Reaction<H>>)
        requires
            old(self).wf(),
            now.reaches(seconds(u32::MAX as nat)),
        ensures
            final(self).wf(),
            match res {
                Some(reaction) => {
                    let ra = advertisement(ifindex, router_ip, payload@);
                    &&& is_router_advertisement(payload@)
                    &&& final(self).lifecycle.deep_view() == observed_all(
                        old(self).lifecycle.deep_view(),
                        detected(ra),
                        now,
                    )
                    &&& final(self).aggregator.deep_view() == applied_all(
                        old(self).aggregator.deep_view(),
                        reported(detected(ra)),
                    )
                    &&& final(self).pending_rs@ == without(old(self).pending_rs@, ifindex)
                    &&& reaction.events.deep_view() == changes(
                        aggregated(old(self).aggregator.deep_view()),
                        aggregated(final(self).aggregator.deep_view()),
                    )
                    &&& reaction.stop == lookup(old(self).pending_rs@, ifindex)
                },
                None => !is_router_advertisement(payload@) && *final(self) == *old(self),
            },
    {
        let ra = match decode_router_advertisement(ifindex, router_ip, payload) {
            Ok(ra) => ra,
            Err(_) => {
                return None;
            },
        };
        proof {
            lemma_lifetimes_representable(ra.deep_view(), now);
            law_in_sync_observed_all(
                self.lifecycle.deep_view(),
                self.aggregator.deep_view(),
                detected(ra.deep_view()),
                now,
            );
        }
        let (changed, stop) = handle_router_advertisement(
            ra,
            &mut self.lifecycle,
            &mut self.pending_rs,
            now,
        );
        let events = self.aggregator.process(changed);
        Some(Reaction { events, stop })
    }

    /// When to expire next, if there is anything to expire.
    pub fn next_expiry(&self) -> (next: Option<Instant>)
        ensures
            self.lifecycle.deep_view().next_deadline(next),
    {
        self.lifecycle.next_expiry()
    }

    /// Drops everything whose lifetime is over at time `now`. Returns the
    /// events to emit: first those of prefixes that reached their preferred
    /// lifetime, then the changes.
    pub fn expire(&mut self, now: Instant) -> (events: Vec<Event>)
        requires
            old(self).wf(),
        ensures
            final(self).wf(),
            final(self).lifecycle.deep_view() == expired(old(self).lifecycle.deep_view(), now),
            final(self).aggregator.deep_view() == applied_all(
                old(self).aggregator.deep_view(),
                expiries(old(self).lifecycle.deep_view(), now),
            ),
            final(self).pending_rs == old(self).pending_rs,
            events.deep_view() == soft_reports(
                old(self).aggregator.deep_view(),
                soft_expiries(old(self).lifecycle.deep_view(), now),
            ) + changes(
                aggregated(old(self).aggregator.deep_view()),
                aggregated(final(self).aggregator.deep_view()),
            ),
    {
        proof {
            law_in_sync_expired(self.lifecycle.deep_view(), self.aggregator.deep_view(), now);
        }
        let (lapsed, soft) = self.lifecycle.expire(now);
        let mut events = soft_expiry_events(&self.aggregator, soft);
        let ghost first = events.deep_view();
        let mut changed = self.aggregator.process(lapsed);
        let ghost second = changed.deep_view();
        events.append(&mut changed);
        assert(events.deep_view() =~= first + second);
        events
    }
}

// Laws

/// A burst that was started on an interface is the one that an advertisement
/// on that interface stops, and bursts on other interfaces go on.
pub proof fn law_advertisement_stops_burst<H>(
    pending: Seq<(InterfaceIndex, H)>,
    ifindex: InterfaceIndex,
    handle: H,
    other: InterfaceIndex,
)
    requires
        unique_keys(pending),
        other != ifindex,
    ensures
        lookup(put(without(pending, ifindex), ifindex, handle), ifindex) == Some(handle),
        lookup(put(without(pending, ifindex), ifindex, handle), other) == lookup(pending, other),
        lookup(without(pending, ifindex), ifindex) is None,
        lookup(without(pending, ifindex), other) == lookup(pending, other),
{
    law_without(pending, ifindex);
    law_put(without(pending, ifindex), ifindex, handle);
}

/// Only prefixes that are valid are reported to have reached their preferred
/// lifetime.
pub proof fn law_soft_reports_are_of_valid_prefixes(
    valid: LifecycleView,
    state: AggregatorView,
    events: Seq<lifecycle::EventView>,
    ifindex: InterfaceIndex,
    prefix: PrefixInfo,
)
    requires
        in_sync(valid, state),
        soft_reports(state, events).contains(EventView::RaPrefixSoftExpiry { ifindex, prefix }),
    ensures
        aggregate_of(state, ifindex).prefixes.contains(prefix),
        lease_valid(valid.prefixes, ifindex, prefix),
    decreases events.len(),
{
    let out = soft_reports(state, events);
    let event = EventView::RaPrefixSoftExpiry { ifindex, prefix };
    let rest = soft_reports(state, events.drop_last());
    let n = choose|n: int| 0 <= n < out.len() && out[n] == event;
    if n < rest.len() {
        assert(rest[n] == event);
        law_soft_reports_are_of_valid_prefixes(valid, state, events.drop_last(), ifindex, prefix);
    } else {
        assert(soft_report(state, events.last())[n - rest.len()] == event);
        if let lifecycle::EventView::PrefixSoftExpiry { key, prefix_info } = events.last() {
            let i = position(state.prefixes, key);
            assert(0 <= i < state.prefixes.len() && state.prefixes[i].0 == key);
            assert(state.prefixes[i].1.contains(prefix));
            assert(contributed(state.prefixes, ifindex, prefix));
            law_aggregate_members(state, ifindex);
            law_aggregate_is_what_is_valid(valid, state, ifindex);
        }
    }
}

proof fn lemma_soft_reported(
    state: AggregatorView,
    events: Seq<lifecycle::EventView>,
    key: Key,
    prefix: PrefixInfo,
)
    requires
        events.contains(prefix_deprecated(key, prefix)),
        state.contribution(key).prefixes.contains(prefix),
    ensures
        soft_reports(state, events).contains(
            EventView::RaPrefixSoftExpiry { ifindex: key.ifindex, prefix },
        ),
    decreases events.len(),
{
    let report = EventView::RaPrefixSoftExpiry { ifindex: key.ifindex, prefix };
    let out = soft_reports(state, events);
    let rest = soft_reports(state, events.drop_last());
    let n = choose|n: int| 0 <= n < events.len() && events[n] == prefix_deprecated(key, prefix);
    if n < events.len() - 1 {
        assert(events.drop_last()[n] == events[n]);
        lemma_soft_reported(state, events.drop_last(), key, prefix);
        let i = choose|i: int| 0 <= i < rest.len() && rest[i] == report;
        assert(out[i] == report);
    } else {
        assert(soft_report(state, events.last()) =~= seq![report]);
        assert(out[rest.len() as int] == report);
    }
}

/// A prefix that was announced at time `then` is reported as deprecated once
/// its preferred lifetime, where it has one of its own, is over, as long as
/// its router is still there.
pub proof fn law_deprecated_prefix_is_reported(
    valid: LifecycleView,
    state: AggregatorView,
    event: detector::EventView,
    then: Instant,
    now: Instant,
)
    requires
        valid.wf(),
        event is Prefix,
        event->Prefix_lifetime.nanos != 0,
        representable(event, then),
        in_sync(observed(valid, event, then), state),
        !router_gone(valid, event->Prefix_key, now),
        event->preferred_lifetime.nanos != 0,
        event->preferred_lifetime.nanos != event->Prefix_lifetime.nanos,
        then.nanos + event->preferred_lifetime.nanos <= now.nanos,
    ensures
        soft_reports(state, soft_expiries(observed(valid, event, then), now)).contains(
            EventView::RaPrefixSoftExpiry {
                ifindex: event->Prefix_key.ifindex,
                prefix: event->prefix_info,
            },
        ),
{
    let key = event->Prefix_key;
    let info = event->prefix_info;
    let told = observed(valid, event, then);
    let lease = LifecycleEntry { data: info, expires_at: then.plus(event->Prefix_lifetime) };
    let leases = told.router(key).prefixes;
    law_prefix_lifetimes(valid, event, then, now);
    law_observation(valid, event, then);
    law_refresh_lease(valid.router(key).prefixes, lease);
    assert(leases.contains(lease));
    let n = choose|n: int| 0 <= n < leases.len() && leases[n] == lease;
    assert(data_of(leases)[n] == info);
    assert(agrees(told.router(key), state.contribution(key)));
    lemma_soft_reported(state, soft_expiries(told, now), key, info);
}

/// Before the next deadline, expiry emits nothing and changes nothing.
pub proof fn law_quiet_before_deadline(
    valid: LifecycleView,
    state: AggregatorView,
    next: Option<Instant>,
    now: Instant,
)
    requires
        in_sync(valid, state),
        valid.next_deadline(next),
        match next {
            Some(t) => now.nanos < t.nanos,
            None => true,
        },
    ensures
        expired(valid, now) == valid,
        applied_all(state, expiries(valid, now)) == state,
        soft_reports(state, soft_expiries(valid, now)).len() == 0,
        changes(aggregated(state), aggregated(applied_all(state, expiries(valid, now)))).len()
            == 0,
{
    law_nothing_expires_early(valid, now);
    law_no_change_no_report(state, state);
}

/// A router that withdraws itself contributes nothing any more, and neither
/// does anything that it announced before.
pub proof fn law_withdrawal(
    valid: LifecycleView,
    state: AggregatorView,
    ra: RouterAdvertisementView,
    now: Instant,
)
    requires
        in_sync(valid, state),
        ra.router_lifetime == 0,
    ensures
        observed_all(valid, detected(ra), now).router(source(ra)) == unknown_router(),
        applied_all(state, reported(detected(ra))).contribution(source(ra)).router is None,
        applied_all(state, reported(detected(ra))).contribution(source(ra)).servers.len() == 0,
        applied_all(state, reported(detected(ra))).contribution(source(ra)).domains.len() == 0,
        applied_all(state, reported(detected(ra))).contribution(source(ra)).prefixes.len()
            == 0,
{
    let events = detected(ra);
    reveal_with_fuel(observed_all, 2);
    assert(events.drop_last() =~= Seq::empty());
    assert(observed_all(valid, events, now) == observed(valid, router_event(ra), now));
    law_observation(valid, router_event(ra), now);
    law_in_sync_observed_all(valid, state, events, now);
    let out = observed_all(valid, events, now);
    let after = applied_all(state, reported(events));
    assert(agrees(out.router(source(ra)), after.contribution(source(ra))));
    lemma_no_groups::<Ipv6Addr>();
    lemma_no_groups::<Seq<char>>();
}

} // verus!
