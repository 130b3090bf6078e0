//! Detection of events in a Router Advertisement.
//!
//! The detector turns one advertisement into the events that it announces. It
//! is stateless: no aggregation, no expiry, no policy. Information of
//! different routers stays apart, and lifetimes stay as advertised.
use vstd::prelude::*;

use crate::address::Ipv6Addr;
use crate::list::{duplicate_all, Duplicate, Item};
use crate::merge::Group;
use crate::router_advertisement::{
    Dnssl, ListOption, Rdnss, RouterAdvertisement, RouterAdvertisementView,
};
use crate::table::TableKey;
use crate::time::{seconds, Duration};
use crate::{InterfaceIndex, Lifetime, PrefixInfo, RouterIp};

verus! {

/// Identity of a router on an interface: the source of advertised
/// information.
///
/// A key is stable across updates and expiries. It does not say what kind of
/// information it stands for; that is up to the event.
#[derive(Debug, Clone, Copy, PartialEq, Eq, Hash, Structural)]
pub struct Key {
    /// Network interface on which the advertisement was received.
    pub ifindex: InterfaceIndex,
    /// Address of the advertising router. It tells routers of one link apart
    /// and is no identifier by itself.
    pub router_ip: RouterIp,
}

impl Key {
    /// The key of a router on an interface.
    pub fn new(ifindex: InterfaceIndex, router_ip: RouterIp) -> (key: Key)
        ensures
            key == (Key { ifindex, router_ip }),
    {
        Key { ifindex, router_ip }
    }
}

impl DeepView for Key {
    type V = Key;

    open spec fn deep_view(&self) -> Key {
        *self
    }
}

impl Duplicate for Key {
    fn duplicate(&self) -> (copy: Self) {
        *self
    }
}

impl Item for Key {
    fn same(&self, other: &Self) -> (b: bool) {
        *self == *other
    }
}

impl TableKey for Key {
    fn same_key(&self, other: &Self) -> (b: bool) {
        *self == *other
    }
}

/// DNS servers that a router advertised in one RDNSS option (RFC 8106).
///
/// All of them share the lifetime. Servers with different lifetimes come in
/// several groups.
#[derive(Debug, Clone)]
pub struct DnsServers {
    /// The DNS servers.
    pub servers: Vec<Ipv6Addr>,
    /// Lifetime of the information.
    pub lifetime: Duration,
}

/// DNS search domains that a router advertised in one DNSSL option
/// (RFC 8106).
///
/// All of them share the lifetime. Domains with different lifetimes come in
/// several groups.
#[derive(Debug, Clone)]
pub struct DnsDomains {
    /// The search domains.
    pub domains: Vec<String>,
    /// Lifetime of the information.
    pub lifetime: Duration,
}

impl Lifetime for DnsServers {
    open spec fn spec_lifetime(&self) -> Duration {
        self.lifetime
    }

    fn lifetime(&self) -> (d: Duration) {
        self.lifetime
    }
}

impl Lifetime for DnsDomains {
    open spec fn spec_lifetime(&self) -> Duration {
        self.lifetime
    }

    fn lifetime(&self) -> (d: Duration) {
        self.lifetime
    }
}

impl DeepView for DnsServers {
    type V = Group<Ipv6Addr>;

    open spec fn deep_view(&self) -> Group<Ipv6Addr> {
        Group { items: self.servers.deep_view(), lifetime: self.lifetime }
    }
}

impl DeepView for DnsDomains {
    type V = Group<Seq<char>>;

    open spec fn deep_view(&self) -> Group<Seq<char>> {
        Group { items: self.domains.deep_view(), lifetime: self.lifetime }
    }
}

impl Duplicate for DnsServers {
    fn duplicate(&self) -> (copy: Self) {
        DnsServers { servers: duplicate_all(self.servers.as_slice()), lifetime: self.lifetime }
    }
}

impl Duplicate for DnsDomains {
    fn duplicate(&self) -> (copy: Self) {
        DnsDomains { domains: duplicate_all(self.domains.as_slice()), lifetime: self.lifetime }
    }
}

/// What was observed in a single advertisement, not whether it still holds.
///
/// Every event belongs to one router on one interface.
#[derive(Debug, Clone)]
pub enum Event {
    /// Flags and lifetime of the router itself.
    Router {
        /// Identity of the advertising router.
        key: Key,
        /// Whether the Managed (M) flag is set.
        managed: bool,
        /// Whether the Other Configuration (O) flag is set.
        other_config: bool,
        /// Lifetime of the router.
        lifetime: Duration,
    },
    /// All RDNSS options of the advertisement. An empty list withdraws the
    /// DNS servers that this router advertised before.
    DnsServers(Key, Vec<DnsServers>),
    /// All DNSSL options of the advertisement. An empty list withdraws the
    /// search domains that this router advertised before.
    DnsDomains(Key, Vec<DnsDomains>),
    /// One prefix. Prefixes are leases, each with its own lifetime.
    Prefix {
        /// Identity of the advertising router.
        key: Key,
        /// The prefix.
        prefix_info: PrefixInfo,
        /// Valid lifetime of the prefix.
        lifetime: Duration,
        /// Preferred lifetime of the prefix.
        preferred_lifetime: Duration,
    },
}

/// What an event says.
pub enum EventView {
    Router { key: Key, managed: bool, other_config: bool, lifetime: Duration },
    DnsServers(Key, Seq<Group<Ipv6Addr>>),
    DnsDomains(Key, Seq<Group<Seq<char>>>),
    Prefix {
        key: Key,
        prefix_info: PrefixInfo,
        lifetime: Duration,
        preferred_lifetime: Duration,
    },
}

impl DeepView for Event {
    type V = EventView;

    open spec fn deep_view(&self) -> EventView {
        match *self {
            Event::Router { key, managed, other_config, lifetime } => EventView::Router {
                key,
                managed,
                other_config,
                lifetime,
            },
            Event::DnsServers(key, servers) => EventView::DnsServers(key, servers.deep_view()),
            Event::DnsDomains(key, domains) => EventView::DnsDomains(key, domains.deep_view()),
            Event::Prefix { key, prefix_info, lifetime, preferred_lifetime } => EventView::Prefix {
                key,
                prefix_info,
                lifetime,
                preferred_lifetime,
            },
        }
    }
}

/// Whether one of the options withdraws by a zero lifetime.
pub open spec fn any_withdrawn<O: Lifetime>(options: Seq<O>) -> bool {
    exists|i: int| 0 <= i < options.len() && (#[trigger] options[i]).spec_lifetime().nanos == 0
}

/// Whether `after` is what `before` becomes when options of one kind are
/// emitted: unchanged without options; otherwise with one more event, made by
/// `emit_update` of what `map` makes of each option, or of an empty list if an
/// option withdraws.
pub open spec fn emitted<T, O, G, E>(
    before: Seq<Event>,
    after: Seq<Event>,
    key: Key,
    options: Seq<O>,
    map: G,
    emit_update: E,
) -> bool where G: Fn(O) -> T, E: FnOnce(Key, Vec<T>) -> Event, O: Lifetime {
    &&& options.len() == 0 ==> after == before
    &&& options.len() > 0 ==> exists|items: Vec<T>, event: Event|
        {
            &&& #[trigger] call_ensures(emit_update, (key, items), event)
            &&& after == before.push(event)
            &&& any_withdrawn(options) ==> items@.len() == 0
            &&& !any_withdrawn(options) ==> items@.len() == options.len() && forall|i: int|
                0 <= i < items@.len() ==> call_ensures(map, (options[i],), #[trigger] items@[i])
        }
}

/// Detects options that may occur several times and replace what the router
/// advertised before, as RDNSS and DNSSL options do.
///
/// If any option has a zero lifetime, everything of this kind is withdrawn:
/// an update with an empty list is emitted. Otherwise all options are emitted
/// together. Without options nothing is emitted.
pub fn detect_multi_option<T, O, G, E>(
    out: &mut Vec<Event>,
    key: Key,
    options: Vec<O>,
    map: G,
    emit_update: E,
) where G: Fn(O) -> T, E: FnOnce(Key, Vec<T>) -> Event, O: Lifetime
    requires
        forall|i: int| 0 <= i < options@.len() ==> #[trigger] call_requires(map, (options@[i],)),
        forall|items: Vec<T>| #[trigger] call_requires(emit_update, (key, items)),
    ensures
        emitted(old(out)@, final(out)@, key, options@, map, emit_update),
{
    let mut items: Vec<T> = Vec::new();
    for opt in it: options.into_iter()
        invariant
            it.seq() == options@,
            out@ == old(out)@,
            items@.len() == it.index(),
            forall|i: int|
                0 <= i < options@.len() ==> #[trigger] call_requires(map, (options@[i],)),
            forall|items: Vec<T>| #[trigger] call_requires(emit_update, (key, items)),
            forall|i: int|
                0 <= i < it.index() ==> (#[trigger] options@[i]).spec_lifetime().nanos != 0,
            forall|i: int|
                0 <= i < items@.len() ==> call_ensures(map, (options@[i],), #[trigger] items@[i]),
    {
        if opt.lifetime().is_zero() {
            assert(options@[it.index() as int].spec_lifetime().nanos == 0);
            let none: Vec<T> = Vec::new();
            out.push(emit_update(key, none));
            return;
        }
        assert(call_requires(map, (options@[it.index() as int],)));
        items.push(map(opt));
    }
    if items.len() != 0 {
        out.push(emit_update(key, items));
    }
}

/// Whether one of the options withdraws by a zero lifetime.
pub open spec fn withdraws<T>(options: Seq<ListOption<T>>) -> bool {
    exists|i: int| 0 <= i < options.len() && (#[trigger] options[i]).lifetime == 0
}

/// The groups of a list of options, one group per option; none at all if one
/// of the options withdraws by a zero lifetime.
pub open spec fn option_groups<T>(options: Seq<ListOption<T>>) -> Seq<Group<T>> {
    if withdraws(options) {
        Seq::empty()
    } else {
        options.map_values(
            |o: ListOption<T>| Group { items: o.items, lifetime: seconds(o.lifetime as nat) },
        )
    }
}

/// The key of the router that sent an advertisement.
pub open spec fn source(ra: RouterAdvertisementView) -> Key {
    Key { ifindex: ra.ifindex, router_ip: ra.router_ip }
}

/// What an advertisement announces of the router itself.
pub open spec fn router_event(ra: RouterAdvertisementView) -> EventView {
    EventView::Router {
        key: source(ra),
        managed: ra.managed,
        other_config: ra.other_config,
        lifetime: seconds(ra.router_lifetime as nat),
    }
}

/// What an advertisement announces of DNS servers.
pub open spec fn server_events(ra: RouterAdvertisementView) -> Seq<EventView> {
    if ra.options.rdnss.len() == 0 {
        Seq::empty()
    } else {
        seq![EventView::DnsServers(source(ra), option_groups(ra.options.rdnss))]
    }
}

/// What an advertisement announces of search domains.
pub open spec fn domain_events(ra: RouterAdvertisementView) -> Seq<EventView> {
    if ra.options.dnssl.len() == 0 {
        Seq::empty()
    } else {
        seq![EventView::DnsDomains(source(ra), option_groups(ra.options.dnssl))]
    }
}

/// What an advertisement announces of prefixes.
pub open spec fn prefix_events(ra: RouterAdvertisementView) -> Seq<EventView> {
    Seq::new(
        ra.options.prefixes.len(),
        |i: int|
            EventView::Prefix {
                key: source(ra),
                prefix_info: PrefixInfo {
                    prefix: ra.options.prefixes[i].prefix,
                    prefix_len: ra.options.prefixes[i].prefix_len,
                },
                lifetime: seconds(ra.options.prefixes[i].valid_lifetime as nat),
                preferred_lifetime: seconds(ra.options.prefixes[i].preferred_lifetime as nat),
            },
    )
}

/// What an advertisement announces.
///
/// The router itself always comes first. A router that withdraws itself by a
/// zero lifetime announces nothing else. DNS servers and search domains follow
/// if there are options for them, and then every prefix.
pub open spec fn detected(ra: RouterAdvertisementView) -> Seq<EventView> {
    if ra.router_lifetime == 0 {
        seq![router_event(ra)]
    } else {
        seq![router_event(ra)] + server_events(ra) + domain_events(ra) + prefix_events(ra)
    }
}

/// The group of DNS servers of an RDNSS option.
fn server_group(option: Rdnss) -> (group: DnsServers)
    ensures
        group.servers == option.servers,
        group.lifetime == seconds(option.lifetime as nat),
{
    DnsServers { servers: option.servers, lifetime: Duration::from_secs(option.lifetime as u64) }
}

/// The group of search domains of a DNSSL option.
fn domain_group(option: Dnssl) -> (group: DnsDomains)
    ensures
        group.domains == option.domains,
        group.lifetime == seconds(option.lifetime as nat),
{
    DnsDomains { domains: option.domains, lifetime: Duration::from_secs(option.lifetime as u64) }
}

/// The event with the DNS servers of a router.
fn servers_event(key: Key, groups: Vec<DnsServers>) -> (event: Event)
    ensures
        event == Event::DnsServers(key, groups),
{
    Event::DnsServers(key, groups)
}

/// The event with the search domains of a router.
fn domains_event(key: Key, groups: Vec<DnsDomains>) -> (event: Event)
    ensures
        event == Event::DnsDomains(key, groups),
{
    Event::DnsDomains(key, groups)
}

/// What emitting options of one kind adds, in terms of what the options say.
proof fn lemma_emitted<T, O, G, E, X>(
    before: Seq<Event>,
    after: Seq<Event>,
    key: Key,
    options: Seq<O>,
    map: G,
    emit_update: E,
    said: Seq<ListOption<X>>,
    event_of: spec_fn(Seq<Group<X>>) -> EventView,
) where
    T: DeepView<V = Group<X>>,
    G: Fn(O) -> T,
    E: FnOnce(Key, Vec<T>) -> Event,
    O: Lifetime + DeepView<V = ListOption<X>>,

    requires
        emitted(before, after, key, options, map, emit_update),
        said.len() == options.len(),
        forall|i: int| 0 <= i < said.len() ==> #[trigger] said[i] == options[i].deep_view(),
        forall|o: O| #[trigger] o.spec_lifetime() == seconds(o.deep_view().lifetime as nat),
        forall|o: O, t: T| #[trigger]
            call_ensures(map, (o,), t) ==> t.deep_view() == (Group {
                items: o.deep_view().items,
                lifetime: seconds(o.deep_view().lifetime as nat),
            }),
        forall|items: Vec<T>, e: Event| #[trigger]
            call_ensures(emit_update, (key, items), e) ==> e.deep_view() == event_of(
                items.deep_view(),
            ),
    ensures
        said.len() == 0 ==> after == before,
        said.len() > 0 ==> after.len() == before.len() + 1 && after.drop_last() == before
            && after.last().deep_view() == event_of(option_groups(said)),
{
    if options.len() > 0 {
        if any_withdrawn(options) {
            let i = choose|i: int|
                0 <= i < options.len() && (#[trigger] options[i]).spec_lifetime().nanos == 0;
            assert(said[i].lifetime == 0);
        }
        if withdraws(said) {
            let i = choose|i: int| 0 <= i < said.len() && (#[trigger] said[i]).lifetime == 0;
            assert(options[i].spec_lifetime().nanos == 0);
        }
        let (items, event) = choose|items: Vec<T>, event: Event|
            {
                &&& #[trigger] call_ensures(emit_update, (key, items), event)
                &&& after == before.push(event)
                &&& any_withdrawn(options) ==> items@.len() == 0
                &&& !any_withdrawn(options) ==> items@.len() == options.len() && forall|i: int|
                    0 <= i < items@.len() ==> call_ensures(
                        map,
                        (options[i],),
                        #[trigger] items@[i],
                    )
            };
        assert(items.deep_view() =~= option_groups(said));
        assert(after.drop_last() =~= before);
    }
}

/// Detects the events that an advertisement announces.
pub fn detect(ra: RouterAdvertisement) -> (events: Vec<Event>)
    ensures
        events.deep_view() == detected(ra.deep_view()),
{
    let ghost expected = ra.deep_view();
    let mut events: Vec<Event> = Vec::with_capacity(3);
    let key = Key::new(ra.ifindex, ra.router_ip);
    events.push(
        Event::Router {
            key,
            managed: ra.managed,
            other_config: ra.other_config,
            lifetime: Duration::from_secs(ra.router_lifetime as u64),
        },
    );
    if ra.router_lifetime == 0 {
        assert(events.deep_view() =~= detected(expected));
        return events;
    }
    assert(events.deep_view() =~= seq![router_event(expected)]);
    let ghost rdnss = ra.rdnss@;
    let ghost before = events@;
    detect_multi_option(
        &mut events,
        key,
        ra.rdnss,
        server_group,
        servers_event,
    );
    proof {
        lemma_emitted(
            before,
            events@,
            key,
            rdnss,
            server_group,
            servers_event,
            expected.options.rdnss,
            |groups: Seq<Group<Ipv6Addr>>| EventView::DnsServers(key, groups),
        );
        assert(forall|i: int| 0 <= i < before.len() ==> events@[i] == #[trigger] before[i]);
        assert(events.deep_view() =~= seq![router_event(expected)] + server_events(expected));
    }
    let ghost dnssl = ra.dnssl@;
    let ghost middle = events@;
    detect_multi_option(
        &mut events,
        key,
        ra.dnssl,
        domain_group,
        domains_event,
    );
    proof {
        lemma_emitted(
            middle,
            events@,
            key,
            dnssl,
            domain_group,
            domains_event,
            expected.options.dnssl,
            |groups: Seq<Group<Seq<char>>>| EventView::DnsDomains(key, groups),
        );
        assert(forall|i: int| 0 <= i < middle.len() ==> events@[i] == #[trigger] middle[i]);
        assert(events.deep_view() =~= seq![router_event(expected)] + server_events(expected)
            + domain_events(expected));
    }
    let ghost listed = events.deep_view();
    let ghost announced = prefix_events(expected);
    for prefix in it: ra.prefixes.into_iter()
        invariant
            it.seq() == ra.prefixes@,
            events@.len() == listed.len() + it.index(),
            forall|i: int|
                0 <= i < listed.len() ==> (#[trigger] events@[i]).deep_view() == listed[i],
            announced.len() == ra.prefixes@.len(),
            forall|i: int|
                0 <= i < announced.len() ==> (#[trigger] announced[i]) == (EventView::Prefix {
                    key,
                    prefix_info: PrefixInfo {
                        prefix: ra.prefixes@[i].prefix,
                        prefix_len: ra.prefixes@[i].prefix_len,
                    },
                    lifetime: seconds(ra.prefixes@[i].valid_lifetime as nat),
                    preferred_lifetime: seconds(ra.prefixes@[i].preferred_lifetime as nat),
                }),
            forall|i: int|
                listed.len() <= i < events@.len() ==> (#[trigger] events@[i]).deep_view()
                    == announced[i - listed.len()],
    {
        events.push(
            Event::Prefix {
                key,
                prefix_info: PrefixInfo { prefix: prefix.prefix, prefix_len: prefix.prefix_len },
                lifetime: Duration::from_secs(prefix.valid_lifetime as u64),
                preferred_lifetime: Duration::from_secs(prefix.preferred_lifetime as u64),
            },
        );
    }
    assert(events.deep_view() =~= listed + announced);
    events
}

} // verus!
