//! Policy-free IPv6 Router Advertisement processing.
pub mod address;
pub mod aggregator;
pub mod bytes;
pub mod control_message;
pub mod detector;
pub mod error;
pub mod laws;
pub mod lifecycle;
pub mod list;
pub mod merge;
pub mod monitor;
pub mod repetition;
pub mod router_advertisement;
pub mod sync;
pub mod table;
pub mod text;
pub mod time;
pub mod wire;

use vstd::prelude::*;

use crate::address::Ipv6Addr;
use crate::time::Duration;

verus! {

/// IPv6 address identifying a router.
pub type RouterIp = Ipv6Addr;

/// Interface index on which router information applies.
pub type InterfaceIndex = u32;

/// Types that carry a protocol-defined lifetime.
///
/// Implementors represent data whose validity is bounded by a duration as
/// advertised on the wire. The lifetime is relative to the time of reception,
/// and zero stands for an explicit withdrawal of data advertised earlier. No
/// time semantics are attached beyond the raw value: expiry is the business of
/// the lifecycle layer.
pub trait Lifetime {
    /// The advertised lifetime of this item.
    spec fn spec_lifetime(&self) -> Duration;

    /// Returns the advertised lifetime of this item.
    fn lifetime(&self) -> (d: Duration)
        ensures
            d == self.spec_lifetime(),
    ;
}

/// A prefix as advertised by a Prefix Information Option (RFC 4861).
#[derive(Debug, Clone, Copy, PartialEq, Eq, Hash, Structural)]
pub struct PrefixInfo {
    /// Base address of the prefix. Bits beyond `prefix_len` are to be ignored.
    pub prefix: Ipv6Addr,
    /// Length of the prefix in bits: typically 64 for SLAAC, and 48, 56 or 60
    /// for delegated prefixes.
    pub prefix_len: u8,
}

impl DeepView for PrefixInfo {
    type V = PrefixInfo;

    open spec fn deep_view(&self) -> PrefixInfo {
        *self
    }
}

/// Aggregated, policy-free router events.
///
/// An event tells of a change in the effective state of one interface, and
/// carries the complete current state of the section that changed.
#[derive(Debug, Clone)]
pub enum Event {
    /// At least one router is active on the interface: the first one came up,
    /// or the combined flags changed.
    RouterUpdate {
        /// Network interface index.
        ifindex: InterfaceIndex,
        /// Managed (M) flag is set by at least one active router.
        managed: bool,
        /// Other Configuration (O) flag is set by at least one active router.
        other_config: bool,
    },
    /// The last active router on the interface is gone.
    RouterDown {
        /// Network interface index.
        ifindex: InterfaceIndex,
    },
    /// The complete DNS state of the interface, over all active routers. Empty
    /// lists say that no DNS information remains valid.
    RaDns {
        /// Network interface index.
        ifindex: InterfaceIndex,
        /// DNS servers without duplicates.
        servers: Vec<Ipv6Addr>,
        /// DNS search domains without duplicates.
        domains: Vec<String>,
    },
    /// The complete set of valid prefixes of the interface, over all active
    /// routers.
    RaPrefix {
        /// Network interface index.
        ifindex: InterfaceIndex,
        /// Valid prefixes.
        prefixes: Vec<PrefixInfo>,
    },
    /// A prefix reached its preferred lifetime. It stays valid until its valid
    /// lifetime is over, but should not be preferred for new addresses.
    RaPrefixSoftExpiry {
        /// Network interface index.
        ifindex: InterfaceIndex,
        /// The prefix.
        prefix: PrefixInfo,
    },
}

/// What an event says.
pub enum EventView {
    RouterUpdate { ifindex: InterfaceIndex, managed: bool, other_config: bool },
    RouterDown { ifindex: InterfaceIndex },
    RaDns { ifindex: InterfaceIndex, servers: Seq<Ipv6Addr>, domains: Seq<Seq<char>> },
    RaPrefix { ifindex: InterfaceIndex, prefixes: Seq<PrefixInfo> },
    RaPrefixSoftExpiry { ifindex: InterfaceIndex, prefix: PrefixInfo },
}

impl DeepView for Event {
    type V = EventView;

    open spec fn deep_view(&self) -> EventView {
        match *self {
            Event::RouterUpdate { ifindex, managed, other_config } => EventView::RouterUpdate {
                ifindex,
                managed,
                other_config,
            },
            Event::RouterDown { ifindex } => EventView::RouterDown { ifindex },
            Event::RaDns { ifindex, servers, domains } => EventView::RaDns {
                ifindex,
                servers: servers.deep_view(),
                domains: domains.deep_view(),
            },
            Event::RaPrefix { ifindex, prefixes } => EventView::RaPrefix {
                ifindex,
                prefixes: prefixes.deep_view(),
            },
            Event::RaPrefixSoftExpiry { ifindex, prefix } => EventView::RaPrefixSoftExpiry {
                ifindex,
                prefix,
            },
        }
    }
}

} // verus!
