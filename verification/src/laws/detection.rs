//! What an advertisement announces.
use vstd::prelude::*;

use crate::detector::{any_withdrawn, detected, option_groups, EventView};
use crate::router_advertisement::{Dnssl, ListOption, PrefixInfo, Rdnss, RouterAdvertisementView};
use crate::time::seconds;
use crate::Lifetime;

verus! {

/// A second has a billion nanoseconds.
pub proof fn law_seconds(secs: u64)
    ensures
        seconds(secs as nat).nanos == secs * 1_000_000_000,
{
}

/// The lifetime of an option is the number of seconds that it states; that of
/// a prefix is the time for which it is valid.
pub proof fn law_option_lifetimes(rdnss: Rdnss, dnssl: Dnssl, prefix: PrefixInfo)
    ensures
        rdnss.spec_lifetime().nanos == rdnss.lifetime * 1_000_000_000,
        dnssl.spec_lifetime().nanos == dnssl.lifetime * 1_000_000_000,
        prefix.spec_lifetime().nanos == prefix.valid_lifetime * 1_000_000_000,
{
}

/// Something is withdrawn exactly if some option has a zero lifetime.
pub proof fn law_withdrawal<O: Lifetime>(options: Seq<O>)
    ensures
        any_withdrawn(options) <==> exists|i: int|
            0 <= i < options.len() && (#[trigger] options[i]).spec_lifetime().nanos == 0,
{
}

/// An advertisement always announces its router first, with its flags and
/// lifetime, and announces no router again. A router that withdraws itself
/// announces nothing else.
pub proof fn law_router_detected(ra: RouterAdvertisementView)
    ensures
        ({
            let out = detected(ra);
            &&& out.len() > 0
            &&& out[0] matches EventView::Router { key, managed, other_config, lifetime } && {
                &&& key.ifindex == ra.ifindex
                &&& key.router_ip == ra.router_ip
                &&& managed == ra.managed
                &&& other_config == ra.other_config
                &&& lifetime.nanos == ra.router_lifetime * 1_000_000_000
            }
            &&& forall|i: int| 0 < i < out.len() ==> !(#[trigger] out[i] is Router)
            &&& ra.router_lifetime == 0 ==> out.len() == 1
        }),
{
}

/// The groups of a list of options: one of each, with its items and lifetime;
/// none at all if an option has a zero lifetime.
proof fn lemma_groups<T>(options: Seq<ListOption<T>>)
    ensures
        ({
            let groups = option_groups(options);
            if exists|i: int| 0 <= i < options.len() && (#[trigger] options[i]).lifetime == 0 {
                groups.len() == 0
            } else {
                groups.len() == options.len() && forall|i: int|
                    0 <= i < groups.len() ==> (#[trigger] groups[i]).items == options[i].items
                        && groups[i].lifetime.nanos == options[i].lifetime * 1_000_000_000
            }
        }),
{
}

/// With RDNSS options, the event behind the router holds the servers of each
/// of them with its lifetime, or none if an option has a zero lifetime. No
/// other event is about servers.
pub proof fn law_servers_detected(ra: RouterAdvertisementView)
    requires
        ra.router_lifetime != 0,
    ensures
        ({
            let out = detected(ra);
            let options = ra.options.rdnss;
            &&& forall|i: int|
                0 <= i < out.len() && #[trigger] out[i] is DnsServers ==> i == 1 && options.len()
                    > 0
            &&& options.len() > 0 ==> {
                &&& out.len() > 1
                &&& out[1] matches EventView::DnsServers(key, groups) && {
                    &&& key.ifindex == ra.ifindex
                    &&& key.router_ip == ra.router_ip
                    &&& if exists|i: int|
                        0 <= i < options.len() && (#[trigger] options[i]).lifetime == 0 {
                        groups.len() == 0
                    } else {
                        groups.len() == options.len() && forall|i: int|
                            0 <= i < groups.len() ==> (#[trigger] groups[i]).items
                                == options[i].items && groups[i].lifetime.nanos
                                == options[i].lifetime * 1_000_000_000
                    }
                }
            }
        }),
{
    lemma_groups(ra.options.rdnss);
}

/// With DNSSL options, the event behind the router and the servers holds the
/// domains of each of them with its lifetime, or none if an option has a zero
/// lifetime. No other event is about domains.
pub proof fn law_domains_detected(ra: RouterAdvertisementView)
    requires
        ra.router_lifetime != 0,
    ensures
        ({
            let out = detected(ra);
            let options = ra.options.dnssl;
            let at: int = if ra.options.rdnss.len() > 0 {
                2
            } else {
                1
            };
            &&& forall|i: int|
                0 <= i < out.len() && #[trigger] out[i] is DnsDomains ==> i == at && options.len()
                    > 0
            &&& options.len() > 0 ==> {
                &&& out.len() > at
                &&& out[at] matches EventView::DnsDomains(key, groups) && {
                    &&& key.ifindex == ra.ifindex
                    &&& key.router_ip == ra.router_ip
                    &&& if exists|i: int|
                        0 <= i < options.len() && (#[trigger] options[i]).lifetime == 0 {
                        groups.len() == 0
                    } else {
                        groups.len() == options.len() && forall|i: int|
                            0 <= i < groups.len() ==> (#[trigger] groups[i]).items
                                == options[i].items && groups[i].lifetime.nanos
                                == options[i].lifetime * 1_000_000_000
                    }
                }
            }
        }),
{
    lemma_groups(ra.options.dnssl);
}

/// The prefixes come last, each with its lifetimes, in the order of their
/// options.
pub proof fn law_prefixes_detected(ra: RouterAdvertisementView)
    requires
        ra.router_lifetime != 0,
    ensures
        ({
            let out = detected(ra);
            let options = ra.options.prefixes;
            let at: int = 1 + if ra.options.rdnss.len() > 0 {
                1int
            } else {
                0
            } + if ra.options.dnssl.len() > 0 {
                1int
            } else {
                0
            };
            &&& out.len() == at + options.len()
            &&& forall|i: int|
                0 <= i < out.len() ==> (#[trigger] out[i] is Prefix <==> at <= i)
            &&& forall|i: int|
                at <= i < out.len() ==> match #[trigger] out[i] {
                    EventView::Prefix { key, prefix_info, lifetime, preferred_lifetime } => {
                        let option = options[i - at];
                        &&& key.ifindex == ra.ifindex
                        &&& key.router_ip == ra.router_ip
                        &&& prefix_info.prefix == option.prefix
                        &&& prefix_info.prefix_len == option.prefix_len
                        &&& lifetime.nanos == option.valid_lifetime * 1_000_000_000
                        &&& preferred_lifetime.nanos == option.preferred_lifetime * 1_000_000_000
                    },
                    _ => false,
                }
        }),
{
}

} // verus!
