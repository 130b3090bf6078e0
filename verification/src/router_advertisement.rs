//! Parsing of ICMPv6 Router Advertisements and construction of Router
//! Solicitations.
//!
//! Messages are read from plain bytes into policy-free structures: no
//! aggregation, no lifetime handling, no configuration decisions.
use vstd::prelude::*;
use vstd::slice::slice_subrange;

use crate::address::Ipv6Addr;
use crate::bytes::{
    be_value, get_slice, lemma_zero_bytes, u128_from_be, u16_bytes, u16_from_be, u16_to_be,
    u32_bytes, u32_from_be, u32_to_be,
};
use crate::error::ParseError;
use crate::text::{decode_utf8_lossy, text_of};
use crate::time::{seconds, Duration};
use crate::{InterfaceIndex, Lifetime};

verus! {

/// ICMPv6 type of a Router Advertisement (RFC 4861).
pub const ICMPV6_RA_TYPE: u8 = 134;

/// ICMPv6 type of a Router Solicitation (RFC 4861).
pub const ICMPV6_RS_TYPE: u8 = 133;

/// Option type of a Recursive DNS Server option (RFC 8106).
pub const ND_OPT_RDNSS: u8 = 25;

/// Option type of a DNS Search List option (RFC 8106).
pub const ND_OPT_DNSSL: u8 = 31;

/// Option type of a Prefix Information Option (RFC 4861).
pub const ND_OPT_PREFIX_INFO: u8 = 3;

/// Length in bytes of the fixed header of a Router Advertisement.
pub const RA_HEADER_LEN: usize = 16;

/// The information contained in a single ICMPv6 Router Advertisement.
#[derive(Debug, Clone)]
pub struct RouterAdvertisement {
    /// Interface index on which the advertisement was received.
    pub ifindex: u32,
    /// IPv6 address of the advertising router.
    pub router_ip: Ipv6Addr,
    /// Managed address configuration flag (M flag).
    pub managed: bool,
    /// Other configuration flag (O flag).
    pub other_config: bool,
    /// Router lifetime in seconds, as advertised.
    pub router_lifetime: u16,
    /// Recursive DNS server information, one entry per RDNSS option.
    pub rdnss: Vec<Rdnss>,
    /// DNS search list information, one entry per DNSSL option.
    pub dnssl: Vec<Dnssl>,
    /// Prefix information, one entry per PIO. Prefixes expire by lifetime
    /// only, not by being left out of a later advertisement.
    pub prefixes: Vec<PrefixInfo>,
}

/// Recursive DNS Server (RDNSS) option data.
#[derive(Debug, Clone, PartialEq, Eq)]
pub struct Rdnss {
    /// Validity lifetime of the DNS server list in seconds.
    pub lifetime: u32,
    /// IPv6 addresses of recursive DNS servers.
    pub servers: Vec<Ipv6Addr>,
}

/// DNS Search List (DNSSL) option data.
#[derive(Debug, Clone, PartialEq, Eq)]
pub struct Dnssl {
    /// Validity lifetime of the DNS search list in seconds.
    pub lifetime: u32,
    /// Fully qualified domain names forming the search list, each with a
    /// trailing dot (`.`).
    pub domains: Vec<String>,
}

/// Prefix Information Option (PIO) data.
///
/// Describes one IPv6 prefix contributed by a router, with its lifetimes and
/// flags, and does not decide how the prefix is used.
#[derive(Debug, Clone, Copy, PartialEq, Eq, Structural)]
pub struct PrefixInfo {
    /// Base address of the prefix. Bits beyond `prefix_len` are to be ignored.
    pub prefix: Ipv6Addr,
    /// Length of the prefix in bits.
    pub prefix_len: u8,
    /// Valid lifetime of the prefix in seconds. Zero is immediate
    /// invalidation.
    pub valid_lifetime: u32,
    /// Preferred lifetime of the prefix in seconds, after which the prefix is
    /// deprecated.
    pub preferred_lifetime: u32,
    /// On-link flag (L flag).
    pub on_link: bool,
    /// Autonomous address-configuration flag (A flag).
    pub autonomous: bool,
}

/// Fixed header of a Router Advertisement (RFC 4861, section 4.2).
///
/// Options follow immediately after this header.
#[derive(Debug, Clone, Copy, PartialEq, Eq, Structural)]
pub struct RouterAdvertisementMessage {
    /// ICMPv6 message type (134 for a Router Advertisement).
    pub icmp_type: u8,
    /// ICMPv6 code (always 0).
    pub icmp_code: u8,
    /// ICMPv6 checksum (verified by the kernel).
    pub checksum: u16,
    /// Current hop limit to be used by hosts.
    pub cur_hop_limit: u8,
    /// Flags, among them Managed (M) and Other Configuration (O).
    pub flags: u8,
    /// Router lifetime in seconds.
    pub router_lifetime: u16,
    /// Reachable time in milliseconds.
    pub reachable_time: u32,
    /// Retransmission timer in milliseconds.
    pub retrans_timer: u32,
}

/// Router Solicitation message (RFC 4861, section 4.1).
///
/// The checksum is left as zero and calculated by the kernel.
#[derive(Debug, Copy, Clone, PartialEq, Eq, Structural)]
pub struct RouterSolicitationMessage {
    /// ICMPv6 message type (133).
    pub icmp_type: u8,
    /// ICMPv6 code (always 0).
    pub icmp_code: u8,
    /// ICMPv6 checksum (computed by the kernel).
    pub checksum: u16,
    /// Reserved field, zero.
    pub reserved: u32,
}

/// What an option with a lifetime and a list of items says.
pub struct ListOption<T> {
    pub lifetime: u32,
    pub items: Seq<T>,
}

/// What the options of an advertisement say, by kind, in wire order.
pub struct OptionsView {
    pub rdnss: Seq<ListOption<Ipv6Addr>>,
    pub dnssl: Seq<ListOption<Seq<char>>>,
    pub prefixes: Seq<PrefixInfo>,
}

/// What an advertisement says.
pub struct RouterAdvertisementView {
    pub ifindex: u32,
    pub router_ip: Ipv6Addr,
    pub managed: bool,
    pub other_config: bool,
    pub router_lifetime: u16,
    pub options: OptionsView,
}

impl DeepView for Rdnss {
    type V = ListOption<Ipv6Addr>;

    open spec fn deep_view(&self) -> ListOption<Ipv6Addr> {
        ListOption { lifetime: self.lifetime, items: self.servers.deep_view() }
    }
}

impl DeepView for Dnssl {
    type V = ListOption<Seq<char>>;

    open spec fn deep_view(&self) -> ListOption<Seq<char>> {
        ListOption { lifetime: self.lifetime, items: self.domains.deep_view() }
    }
}

impl DeepView for PrefixInfo {
    type V = PrefixInfo;

    open spec fn deep_view(&self) -> PrefixInfo {
        *self
    }
}

impl DeepView for RouterAdvertisement {
    type V = RouterAdvertisementView;

    open spec fn deep_view(&self) -> RouterAdvertisementView {
        RouterAdvertisementView {
            ifindex: self.ifindex,
            router_ip: self.router_ip,
            managed: self.managed,
            other_config: self.other_config,
            router_lifetime: self.router_lifetime,
            options: OptionsView {
                rdnss: self.rdnss.deep_view(),
                dnssl: self.dnssl.deep_view(),
                prefixes: self.prefixes.deep_view(),
            },
        }
    }
}

impl Lifetime for Rdnss {
    open spec fn spec_lifetime(&self) -> Duration {
        seconds(self.lifetime as nat)
    }

    fn lifetime(&self) -> (d: Duration) {
        Duration::from_secs(self.lifetime as u64)
    }
}

impl Lifetime for Dnssl {
    open spec fn spec_lifetime(&self) -> Duration {
        seconds(self.lifetime as nat)
    }

    fn lifetime(&self) -> (d: Duration) {
        Duration::from_secs(self.lifetime as u64)
    }
}

impl Lifetime for PrefixInfo {
    open spec fn spec_lifetime(&self) -> Duration {
        seconds(self.valid_lifetime as nat)
    }

    fn lifetime(&self) -> (d: Duration) {
        Duration::from_secs(self.valid_lifetime as u64)
    }
}

impl Default for RouterSolicitationMessage {
    /// The solicitation that asks for advertisements.
    fn default() -> (res: Self)
        ensures
            res == (RouterSolicitationMessage {
                icmp_type: ICMPV6_RS_TYPE,
                icmp_code: 0,
                checksum: 0,
                reserved: 0,
            }),
    {
        RouterSolicitationMessage {
            icmp_type: ICMPV6_RS_TYPE,
            icmp_code: 0,
            checksum: 0,
            reserved: 0,
        }
    }
}

impl RouterSolicitationMessage {
    /// The bytes of the message on the wire.
    pub open spec fn wire(&self) -> Seq<u8> {
        seq![self.icmp_type, self.icmp_code] + u16_bytes(self.checksum) + u32_bytes(self.reserved)
    }

    /// Encodes the message.
    pub fn as_bytes(&self) -> (buf: [u8; 8])
        ensures
            buf@ == self.wire(),
    {
        let checksum = u16_to_be(self.checksum);
        let reserved = u32_to_be(self.reserved);
        let buf = [
            self.icmp_type,
            self.icmp_code,
            checksum[0],
            checksum[1],
            reserved[0],
            reserved[1],
            reserved[2],
            reserved[3],
        ];
        assert(buf@ =~= self.wire());
        buf
    }
}

// Field values, by their place in the bytes

/// The address that the sixteen bytes from `start` on denote.
pub open spec fn address_at(bytes: Seq<u8>, start: int) -> Ipv6Addr {
    Ipv6Addr { bits: be_value(bytes.subrange(start, start + 16)) as u128 }
}

/// The 16-bit number that the two bytes from `start` on denote.
pub open spec fn u16_at(bytes: Seq<u8>, start: int) -> u16 {
    be_value(bytes.subrange(start, start + 2)) as u16
}

/// The 32-bit number that the four bytes from `start` on denote.
pub open spec fn u32_at(bytes: Seq<u8>, start: int) -> u32 {
    be_value(bytes.subrange(start, start + 4)) as u32
}

/// The topmost bit of a flag field: M in a header, L in a PIO.
pub open spec fn first_flag(flags: u8) -> bool {
    flags >= 0x80
}

/// The second topmost bit of a flag field: O in a header, A in a PIO.
pub open spec fn second_flag(flags: u8) -> bool {
    flags % 0x80 >= 0x40
}

/// Parses the Managed (M) and Other Configuration (O) flags from the flag
/// field of a header.
///
/// Returns the pair `(managed, other_config)`.
pub fn parse_flags(flags: u8) -> (res: (bool, bool))
    ensures
        res.0 == first_flag(flags),
        res.1 == second_flag(flags),
{
    assert((flags & 0b1000_0000 != 0) == (flags >= 0x80)) by (bit_vector);
    assert((flags & 0b0100_0000 != 0) == (flags % 0x80 >= 0x40)) by (bit_vector);
    let managed = flags & 0b1000_0000 != 0;
    let other = flags & 0b0100_0000 != 0;
    (managed, other)
}

/// The header in the first sixteen bytes of a message.
pub open spec fn header(message: Seq<u8>) -> RouterAdvertisementMessage {
    RouterAdvertisementMessage {
        icmp_type: message[0],
        icmp_code: message[1],
        checksum: u16_at(message, 2),
        cur_hop_limit: message[4],
        flags: message[5],
        router_lifetime: u16_at(message, 6),
        reachable_time: u32_at(message, 8),
        retrans_timer: u32_at(message, 12),
    }
}

/// Reads a 16-bit number that lies within the buffer.
fn read_u16(buf: &[u8], start: usize) -> (value: u16)
    requires
        start + 2 <= buf@.len(),
    ensures
        value == u16_at(buf@, start as int),
        value as nat == be_value(buf@.subrange(start as int, start + 2)),
{
    let bytes = [buf[start], buf[start + 1]];
    assert(bytes@ =~= buf@.subrange(start as int, start + 2));
    u16_from_be(bytes)
}

/// Reads a 32-bit number that lies within the buffer.
fn read_u32(buf: &[u8], start: usize) -> (value: u32)
    requires
        start + 4 <= buf@.len(),
    ensures
        value == u32_at(buf@, start as int),
        value as nat == be_value(buf@.subrange(start as int, start + 4)),
{
    let bytes = [buf[start], buf[start + 1], buf[start + 2], buf[start + 3]];
    assert(bytes@ =~= buf@.subrange(start as int, start + 4));
    u32_from_be(bytes)
}

impl RouterAdvertisementMessage {
    /// Reads the fixed header at the start of a message.
    pub fn read(message: &[u8]) -> (res: Result<RouterAdvertisementMessage, ParseError>)
        ensures
            match res {
                Ok(h) => message@.len() >= RA_HEADER_LEN && h == header(message@),
                Err(e) => message@.len() < RA_HEADER_LEN && e == ParseError::TruncatedHeader,
            },
    {
        if message.len() < RA_HEADER_LEN {
            return Err(ParseError::TruncatedHeader);
        }
        Ok(
            RouterAdvertisementMessage {
                icmp_type: message[0],
                icmp_code: message[1],
                checksum: read_u16(message, 2),
                cur_hop_limit: message[4],
                flags: message[5],
                router_lifetime: read_u16(message, 6),
                reachable_time: read_u32(message, 8),
                retrans_timer: read_u32(message, 12),
            },
        )
    }
}

// Prefix Information Options

/// What the body of a Prefix Information Option says. Type and length are cut
/// off, so the body starts with the prefix length.
pub open spec fn prefix_option(body: Seq<u8>) -> PrefixInfo {
    PrefixInfo {
        prefix: address_at(body, 14),
        prefix_len: body[0],
        valid_lifetime: u32_at(body, 2),
        preferred_lifetime: u32_at(body, 6),
        on_link: first_flag(body[1]),
        autonomous: second_flag(body[1]),
    }
}

/// Length in bytes of a Prefix Information Option without type and length.
pub const PREFIX_BODY_LEN: usize = 30;

/// Parses the body of a Prefix Information Option (RFC 4861). Type and length
/// are already cut off.
///
/// ```text
/// +---------+---------+-----------+-------+
/// | Type=3  | Length  | PrefixLen | Flags |
/// +---------+---------+-----------+-------+
/// |        Valid Lifetime (32 bits)       |
/// +---------------------------------------+
/// |     Preferred Lifetime (32 bits)      |
/// +---------------------------------------+
/// |            Reserved (32 bits)         |
/// +---------------------------------------+
/// |        IPv6 Prefix (128 bits)         |
/// +---------------------------------------+
/// ```
pub fn parse_prefix_information(buf: &[u8]) -> (res: Result<PrefixInfo, ParseError>)
    ensures
        match res {
            Ok(info) => buf@.len() >= PREFIX_BODY_LEN && info == prefix_option(buf@),
            Err(e) => buf@.len() < PREFIX_BODY_LEN && e == ParseError::InvalidPrefixLength,
        },
{
    if buf.len() < PREFIX_BODY_LEN {
        return Err(ParseError::InvalidPrefixLength);
    }
    let (on_link, autonomous) = parse_flags(buf[1]);
    let bytes = match get_slice::<16>(buf, 14) {
        Ok(bytes) => bytes,
        Err(e) => return Err(e),
    };
    Ok(
        PrefixInfo {
            prefix: Ipv6Addr { bits: u128_from_be(bytes) },
            prefix_len: buf[0],
            valid_lifetime: read_u32(buf, 2),
            preferred_lifetime: read_u32(buf, 6),
            on_link,
            autonomous,
        },
    )
}

// RDNSS options

/// What the body of an RDNSS option says. Type, length and the reserved bytes
/// are cut off, so the body starts with the lifetime; the addresses follow
/// back to back, and bytes that do not fill an address are ignored.
pub open spec fn rdnss_option(body: Seq<u8>) -> ListOption<Ipv6Addr> {
    ListOption {
        lifetime: u32_at(body, 0),
        items: Seq::new(
            ((body.len() - 4) / 16) as nat,
            |i: int| address_at(body, 4 + 16 * i),
        ),
    }
}

/// Parses the body of an RDNSS option (RFC 8106). Type, length and the
/// reserved bytes are already cut off.
///
/// ```text
/// +--------+--------+--------+--------+
/// | Type=25| Length | Reserved        |
/// +--------+--------+--------+--------+
/// |        Lifetime (32 bits)         |
/// +-----------------------------------+
/// |  IPv6 address #1 (16 bytes)       |
/// +-----------------------------------+
/// |  IPv6 address #2 (16 bytes)       |
/// +-----------------------------------+
/// ```
pub fn parse_rdnss_servers(buf: &[u8]) -> (res: Result<Rdnss, ParseError>)
    ensures
        match res {
            Ok(rdnss) => buf@.len() >= 4 && rdnss.deep_view() == rdnss_option(buf@),
            Err(e) => buf@.len() < 4 && e == ParseError::Truncated,
        },
{
    let lifetime = match get_slice::<4>(buf, 0) {
        Ok(bytes) => u32_from_be(bytes),
        Err(e) => return Err(e),
    };
    let mut servers: Vec<Ipv6Addr> = Vec::new();
    let mut pos: usize = 4;
    while buf.len() - pos >= 16
        invariant
            4 <= pos <= buf@.len(),
            pos == 4 + 16 * servers@.len(),
            forall|i: int|
                0 <= i < servers@.len() ==> #[trigger] servers@[i] == address_at(buf@, 4 + 16 * i),
        decreases buf@.len() - pos,
    {
        match get_slice::<16>(buf, pos) {
            Ok(bytes) => {
                servers.push(Ipv6Addr { bits: u128_from_be(bytes) });
            },
            Err(e) => {
                return Err(e);
            },
        }
        pos = pos + 16;
    }
    let rdnss = Rdnss { lifetime, servers };
    assert(rdnss.deep_view().items =~= rdnss_option(buf@).items);
    Ok(rdnss)
}

// DNSSL options

/// The byte of a dot (`.`), which ends every label of a domain name.
pub const DOT: u8 = 0x2e;

/// The domain names, as bytes, that the rest of a DNSSL body from `pos` on
/// holds, where the labels in `name` were read before.
///
/// A label is a length byte and as many bytes; a zero length ends a name.
/// Every label contributes its bytes and a dot. Empty names (padding) are
/// skipped, a label that reaches past the end stops the list, and a name that
/// is not ended is dropped.
pub open spec fn domain_names(body: Seq<u8>, pos: int, name: Seq<u8>) -> Seq<Seq<u8>>
    decreases body.len() - pos,
{
    if pos >= body.len() {
        Seq::empty()
    } else {
        let len = body[pos] as int;
        if len == 0 {
            let rest = domain_names(body, pos + 1, Seq::empty());
            if name.len() == 0 {
                rest
            } else {
                seq![name] + rest
            }
        } else if pos + 1 + len > body.len() {
            Seq::empty()
        } else {
            domain_names(
                body,
                pos + 1 + len,
                name + body.subrange(pos + 1, pos + 1 + len).push(DOT),
            )
        }
    }
}

/// What the body of a DNSSL option says. Type, length and the reserved bytes
/// are cut off, so the body starts with the lifetime.
pub open spec fn dnssl_option(body: Seq<u8>) -> ListOption<Seq<char>> {
    ListOption {
        lifetime: u32_at(body, 0),
        items: domain_names(body, 4, Seq::empty()).map_values(|name: Seq<u8>| text_of(name)),
    }
}

/// Reads the domain names of the body of a DNSSL option, each as the bytes of
/// its labels with a dot after each label.
pub fn parse_domain_names(buf: &[u8]) -> (names: Vec<Vec<u8>>)
    requires
        buf@.len() >= 4,
    ensures
        names.deep_view() == domain_names(buf@, 4, Seq::empty()),
{
    let mut names: Vec<Vec<u8>> = Vec::new();
    let mut cur: Vec<u8> = Vec::new();
    let mut i: usize = 4;
    assert(cur@ =~= Seq::<u8>::empty());
    assert(names.deep_view() + domain_names(buf@, 4, cur@) =~= domain_names(buf@, 4, cur@));
    while i < buf.len()
        invariant
            4 <= i <= buf@.len(),
            names.deep_view() + domain_names(buf@, i as int, cur@) == domain_names(
                buf@,
                4,
                Seq::empty(),
            ),
        decreases buf@.len() - i,
    {
        let ghost names0 = names.deep_view();
        let ghost cur0 = cur@;
        let ghost i0 = i as int;
        let len: usize = buf[i] as usize;
        i = i + 1;
        if len == 0 {
            if cur.len() != 0 {
                assert(cur.deep_view() =~= cur0);
                names.push(cur);
                cur = Vec::new();
                proof {
                    assert(names.deep_view() =~= names0.push(cur0));
                    assert(cur@ =~= Seq::<u8>::empty());
                    assert(names.deep_view() + domain_names(buf@, i as int, cur@) =~= names0
                        + domain_names(buf@, i0, cur0));
                }
            } else {
                assert(cur@ =~= Seq::<u8>::empty());
            }
        } else if len > buf.len() - i {
            assert(names.deep_view() + domain_names(buf@, i0, cur0) =~= names.deep_view());
            return names;
        } else {
            let mut j: usize = 0;
            while j < len
                invariant
                    j <= len,
                    i + len <= buf.len(),
                    cur@ == cur0 + buf@.subrange(i as int, i + j),
                decreases len - j,
            {
                cur.push(buf[i + j]);
                j = j + 1;
                assert(cur@ =~= cur0 + buf@.subrange(i as int, i + j));
            }
            cur.push(DOT);
            assert(cur@ =~= cur0 + buf@.subrange(i as int, i + len).push(DOT));
            i = i + len;
        }
    }
    assert(names.deep_view() + domain_names(buf@, i as int, cur@) =~= names.deep_view());
    names
}

/// Parses the body of a DNSSL option (RFC 8106). Type, length and the
/// reserved bytes are already cut off.
///
/// ```text
/// +--------+--------+--------+--------+
/// | Type=31| Length | Reserved        |
/// +--------+--------+--------+--------+
/// |        Lifetime (32 bits)         |
/// +-----------------------------------+
/// |  DNS label sequence (variable)    |
/// +-----------------------------------+
/// ```
///
/// The domains are fully qualified and always end with a dot (`.`). Invalid
/// or truncated labels are ignored.
pub fn parse_dnssl_domains(buf: &[u8]) -> (res: Result<Dnssl, ParseError>)
    ensures
        match res {
            Ok(dnssl) => buf@.len() >= 4 && dnssl.deep_view() == dnssl_option(buf@)
                && fully_qualified(dnssl.domains@),
            Err(e) => buf@.len() < 4 && e == ParseError::Truncated,
        },
{
    let lifetime = match get_slice::<4>(buf, 0) {
        Ok(bytes) => u32_from_be(bytes),
        Err(e) => return Err(e),
    };
    let names = parse_domain_names(buf);
    let domains = decode_names(&names);
    proof {
        lemma_names_end_with_dot(buf@, 4, Seq::empty());
        assert(dnssl_option(buf@).items =~= domains.deep_view());
    }
    Ok(Dnssl { lifetime, domains })
}

/// Whether every domain ends with a dot.
pub open spec fn fully_qualified(domains: Seq<String>) -> bool {
    forall|i: int|
        0 <= i < domains.len() ==> (#[trigger] domains[i])@.len() > 0 && domains[i]@.last() == '.'
}

/// Decodes names into text.
pub fn decode_names(names: &Vec<Vec<u8>>) -> (domains: Vec<String>)
    ensures
        domains.deep_view() == names.deep_view().map_values(|name: Seq<u8>| text_of(name)),
        (forall|i: int| 0 <= i < names@.len() ==> ends_with_dot(#[trigger] names.deep_view()[i]))
            ==> fully_qualified(domains@),
{
    let mut domains: Vec<String> = Vec::new();
    let mut i: usize = 0;
    while i < names.len()
        invariant
            i <= names@.len(),
            domains@.len() == i,
            forall|j: int| 0 <= j < i ==> (#[trigger] domains@[j])@ == text_of(names@[j]@),
            forall|j: int|
                0 <= j < i && ends_with_dot(names@[j]@) ==> (#[trigger] domains@[j])@.len() > 0
                    && domains@[j]@.last() == '.',
        decreases names@.len() - i,
    {
        domains.push(decode_utf8_lossy(&names[i]));
        i = i + 1;
    }
    assert forall|j: int| 0 <= j < names@.len() implies names.deep_view()[j] == (
    #[trigger] names@[j])@ by {
        assert(names@[j].deep_view() =~= names@[j]@);
    }
    assert(domains.deep_view() =~= names.deep_view().map_values(|name: Seq<u8>| text_of(name)));
    domains
}

/// Whether a name, as bytes, ends with a dot.
pub open spec fn ends_with_dot(name: Seq<u8>) -> bool {
    name.len() > 0 && name.last() == DOT
}

/// Every name that a DNSSL body holds ends with a dot.
pub proof fn lemma_names_end_with_dot(body: Seq<u8>, pos: int, name: Seq<u8>)
    requires
        name.len() == 0 || ends_with_dot(name),
    ensures
        forall|i: int|
            0 <= i < domain_names(body, pos, name).len() ==> ends_with_dot(
                #[trigger] domain_names(body, pos, name)[i],
            ),
    decreases body.len() - pos,
{
    if pos < body.len() {
        let len = body[pos] as int;
        if len == 0 {
            let rest = domain_names(body, pos + 1, Seq::empty());
            lemma_names_end_with_dot(body, pos + 1, Seq::empty());
            if name.len() == 0 {
                assert(domain_names(body, pos, name) == rest);
            } else {
                let names = domain_names(body, pos, name);
                assert forall|i: int| 0 <= i < names.len() implies ends_with_dot(
                    #[trigger] names[i],
                ) by {
                    if i > 0 {
                        assert(domain_names(body, pos, name)[i] == rest[i - 1]);
                    }
                }
            }
        } else if pos + 1 + len <= body.len() {
            let label = body.subrange(pos + 1, pos + 1 + len).push(DOT);
            assert((name + label).last() == label.last());
            lemma_names_end_with_dot(body, pos + 1 + len, name + label);
            assert(domain_names(body, pos, name) == domain_names(
                body,
                pos + 1 + len,
                name + label,
            ));
        }
    }
}

// Options

/// No option at all.
pub open spec fn no_options() -> OptionsView {
    OptionsView { rdnss: Seq::empty(), dnssl: Seq::empty(), prefixes: Seq::empty() }
}

/// The options of `a` followed by those of `b`.
pub open spec fn join_options(a: OptionsView, b: OptionsView) -> OptionsView {
    OptionsView {
        rdnss: a.rdnss + b.rdnss,
        dnssl: a.dnssl + b.dnssl,
        prefixes: a.prefixes + b.prefixes,
    }
}

/// Whether an option, given all of its bytes from the type on, is a Prefix
/// Information Option too short for its fields.
pub open spec fn is_short_prefix(option: Seq<u8>) -> bool {
    option[0] == ND_OPT_PREFIX_INFO && option.len() < 2 + PREFIX_BODY_LEN
}

/// What a single option says, given all of its bytes from the type on.
/// Options of unknown type say nothing.
pub open spec fn option_content(option: Seq<u8>) -> OptionsView {
    if option[0] == ND_OPT_RDNSS {
        OptionsView { rdnss: seq![rdnss_option(option.skip(4))], ..no_options() }
    } else if option[0] == ND_OPT_DNSSL {
        OptionsView { dnssl: seq![dnssl_option(option.skip(4))], ..no_options() }
    } else if option[0] == ND_OPT_PREFIX_INFO {
        OptionsView { prefixes: seq![prefix_option(option.skip(2))], ..no_options() }
    } else {
        no_options()
    }
}

/// What the options from `offset` on say.
///
/// An option is a type byte, a length byte in units of eight bytes that
/// counts the whole option, and the rest of it. A zero length, an option that
/// reaches past the end and a prefix too short for its fields are errors; a
/// single trailing byte is ignored.
pub open spec fn options_from(buf: Seq<u8>, offset: int) -> Result<OptionsView, ParseError>
    decreases buf.len() - offset,
{
    if offset + 2 > buf.len() {
        Ok(no_options())
    } else {
        let opt_len = buf[offset + 1] * 8;
        if opt_len == 0 {
            Err(ParseError::InvalidLength { offset: offset as usize, opt_type: buf[offset] })
        } else if offset + opt_len > buf.len() {
            Err(
                ParseError::TruncatedOption {
                    offset: offset as usize,
                    opt_len: opt_len as usize,
                    available: buf.len() as usize,
                },
            )
        } else if is_short_prefix(buf.subrange(offset, offset + opt_len)) {
            Err(ParseError::InvalidPrefixLength)
        } else {
            match options_from(buf, offset + opt_len) {
                Ok(rest) => Ok(
                    join_options(option_content(buf.subrange(offset, offset + opt_len)), rest),
                ),
                Err(e) => Err(e),
            }
        }
    }
}

/// Whether all domains of all search lists end with a dot.
pub open spec fn all_fully_qualified(dnssl: Seq<Dnssl>) -> bool {
    forall|i: int| 0 <= i < dnssl.len() ==> fully_qualified((#[trigger] dnssl[i]).domains@)
}

/// Parses the options of a Router Advertisement: RDNSS, DNSSL (RFC 8106) and
/// PIO (RFC 4861).
///
/// Unknown options are skipped. Malformed options result in an error.
pub fn parse_router_advertisement_options(buf: &[u8]) -> (res: Result<
    (Vec<Rdnss>, Vec<Dnssl>, Vec<PrefixInfo>),
    ParseError,
>)
    ensures
        match res {
            Ok((rdnss, dnssl, prefixes)) => options_from(buf@, 0) == Ok::<_, ParseError>(
                OptionsView {
                    rdnss: rdnss.deep_view(),
                    dnssl: dnssl.deep_view(),
                    prefixes: prefixes.deep_view(),
                },
            ) && all_fully_qualified(dnssl@),
            Err(e) => options_from(buf@, 0) == Err::<OptionsView, _>(e),
        },
{
    let mut offset: usize = 0;
    let mut rdnss: Vec<Rdnss> = Vec::new();
    let mut dnssl: Vec<Dnssl> = Vec::new();
    let mut prefixes: Vec<PrefixInfo> = Vec::new();
    proof {
        lemma_options_resume(
            OptionsView {
                rdnss: rdnss.deep_view(),
                dnssl: dnssl.deep_view(),
                prefixes: prefixes.deep_view(),
            },
            options_from(buf@, 0),
        );
    }
    while offset < buf.len() && buf.len() - offset >= 2
        invariant
            offset <= buf@.len(),
            all_fully_qualified(dnssl@),
            options_from(buf@, 0) == resume(
                OptionsView {
                    rdnss: rdnss.deep_view(),
                    dnssl: dnssl.deep_view(),
                    prefixes: prefixes.deep_view(),
                },
                options_from(buf@, offset as int),
            ),
        decreases buf@.len() - offset,
    {
        let ghost before = OptionsView {
            rdnss: rdnss.deep_view(),
            dnssl: dnssl.deep_view(),
            prefixes: prefixes.deep_view(),
        };
        let opt_type = buf[offset];
        let opt_len: usize = buf[offset + 1] as usize * 8;
        if opt_len == 0 {
            return Err(ParseError::InvalidLength { offset, opt_type });
        }
        if opt_len > buf.len() - offset {
            return Err(
                ParseError::TruncatedOption { offset, opt_len, available: buf.len() },
            );
        }
        let option = slice_subrange(buf, offset, offset + opt_len);
        if opt_type == ND_OPT_RDNSS {
            match parse_rdnss_servers(slice_subrange(option, 4, option.len())) {
                Ok(rdnss_option) => rdnss.push(rdnss_option),
                Err(e) => {
                    return Err(e);
                },
            }
        } else if opt_type == ND_OPT_DNSSL {
            match parse_dnssl_domains(slice_subrange(option, 4, option.len())) {
                Ok(dnssl_option) => dnssl.push(dnssl_option),
                Err(e) => {
                    return Err(e);
                },
            }
        } else if opt_type == ND_OPT_PREFIX_INFO {
            match parse_prefix_information(slice_subrange(option, 2, option.len())) {
                Ok(prefix) => prefixes.push(prefix),
                Err(e) => {
                    return Err(e);
                },
            }
        }
        proof {
            let after = OptionsView {
                rdnss: rdnss.deep_view(),
                dnssl: dnssl.deep_view(),
                prefixes: prefixes.deep_view(),
            };
            let content = option_content(option@);
            assert(after.rdnss =~= before.rdnss + content.rdnss);
            assert(after.dnssl =~= before.dnssl + content.dnssl);
            assert(after.prefixes =~= before.prefixes + content.prefixes);
            lemma_options_step(before, content, options_from(buf@, offset + opt_len));
        }
        offset = offset + opt_len;
    }
    proof {
        assert(rdnss.deep_view() + Seq::empty() =~= rdnss.deep_view());
        assert(dnssl.deep_view() + Seq::empty() =~= dnssl.deep_view());
        assert(prefixes.deep_view() + Seq::empty() =~= prefixes.deep_view());
    }
    Ok((rdnss, dnssl, prefixes))
}

/// What `read` and the outcome for the rest of the buffer give together.
spec fn resume(read: OptionsView, rest: Result<OptionsView, ParseError>) -> Result<
    OptionsView,
    ParseError,
> {
    match rest {
        Ok(options) => Ok(join_options(read, options)),
        Err(e) => Err(e),
    }
}

proof fn lemma_options_resume(read: OptionsView, rest: Result<OptionsView, ParseError>)
    requires
        read.rdnss.len() == 0,
        read.dnssl.len() == 0,
        read.prefixes.len() == 0,
    ensures
        resume(read, rest) == rest,
{
    if let Ok(options) = rest {
        assert(read.rdnss + options.rdnss =~= options.rdnss);
        assert(read.dnssl + options.dnssl =~= options.dnssl);
        assert(read.prefixes + options.prefixes =~= options.prefixes);
    }
}

proof fn lemma_options_step(
    read: OptionsView,
    content: OptionsView,
    rest: Result<OptionsView, ParseError>,
)
    ensures
        resume(join_options(read, content), rest) == resume(read, resume(content, rest)),
{
    if let Ok(options) = rest {
        assert(read.rdnss + content.rdnss + options.rdnss =~= read.rdnss + (content.rdnss
            + options.rdnss));
        assert(read.dnssl + content.dnssl + options.dnssl =~= read.dnssl + (content.dnssl
            + options.dnssl));
        assert(read.prefixes + content.prefixes + options.prefixes =~= read.prefixes + (
        content.prefixes + options.prefixes));
    }
}

// The whole message

/// Whether a message is long enough for the fixed header and has the type of
/// a Router Advertisement.
pub open spec fn is_router_advertisement(message: Seq<u8>) -> bool {
    message.len() >= RA_HEADER_LEN && message[0] == ICMPV6_RA_TYPE
}

/// What a Router Advertisement says. Options of which one is malformed say
/// nothing at all.
pub open spec fn advertisement(
    ifindex: InterfaceIndex,
    router_ip: Ipv6Addr,
    message: Seq<u8>,
) -> RouterAdvertisementView {
    RouterAdvertisementView {
        ifindex,
        router_ip,
        managed: first_flag(header(message).flags),
        other_config: second_flag(header(message).flags),
        router_lifetime: header(message).router_lifetime,
        options: match options_from(message.skip(16), 0) {
            Ok(options) => options,
            Err(_) => no_options(),
        },
    }
}

/// Decodes an ICMPv6 message as a Router Advertisement.
///
/// The message came in on interface `ifindex` from the address `router_ip`.
/// If its options are malformed, the advertisement has none.
pub fn decode_router_advertisement(
    ifindex: InterfaceIndex,
    router_ip: Ipv6Addr,
    payload: &[u8],
) -> (res: Result<RouterAdvertisement, ParseError>)
    ensures
        match res {
            Ok(ra) => is_router_advertisement(payload@) && ra.deep_view() == advertisement(
                ifindex,
                router_ip,
                payload@,
            ) && all_fully_qualified(ra.dnssl@),
            Err(ParseError::TruncatedHeader) => payload@.len() < RA_HEADER_LEN,
            Err(ParseError::NotRouterAdvertisement) => payload@.len() >= RA_HEADER_LEN
                && !is_router_advertisement(payload@),
            Err(_) => false,
        },
{
    let ra = match RouterAdvertisementMessage::read(payload) {
        Ok(ra) => ra,
        Err(e) => return Err(e),
    };
    if ra.icmp_type != ICMPV6_RA_TYPE {
        return Err(ParseError::NotRouterAdvertisement);
    }
    let (managed, other_config) = parse_flags(ra.flags);
    let options = slice_subrange(payload, RA_HEADER_LEN, payload.len());
    let (rdnss, dnssl, prefixes) = match parse_router_advertisement_options(options) {
        Ok(parsed) => parsed,
        Err(_) => (Vec::new(), Vec::new(), Vec::new()),
    };
    let decoded = RouterAdvertisement {
        ifindex,
        router_ip,
        managed,
        other_config,
        router_lifetime: ra.router_lifetime,
        rdnss,
        dnssl,
        prefixes,
    };
    proof {
        let expected = advertisement(ifindex, router_ip, payload@).options;
        assert(decoded.deep_view().options.rdnss =~= expected.rdnss);
        assert(decoded.deep_view().options.dnssl =~= expected.dnssl);
        assert(decoded.deep_view().options.prefixes =~= expected.prefixes);
    }
    Ok(decoded)
}

// Router Solicitations

/// One solicitation of a burst: what to send, and how long to wait after it.
#[derive(Debug, Clone, Copy)]
pub struct Solicitation {
    /// Interface to send on.
    pub ifindex: InterfaceIndex,
    /// Address to send to.
    pub destination: Ipv6Addr,
    /// The message.
    pub payload: [u8; 8],
    /// Time to wait before the next step.
    pub wait: Duration,
}

/// The link-local all-routers multicast address, `ff02::2`.
pub open spec fn all_routers() -> Ipv6Addr {
    Ipv6Addr { bits: 0xff02_0000_0000_0000_0000_0000_0000_0002 }
}

/// A burst of Router Solicitations (RFC 4861) that is still to be sent: up to
/// `remaining` messages, `interval` apart.
#[derive(Debug, Clone, Copy)]
pub struct RouterSolicitationBurst {
    pub ifindex: InterfaceIndex,
    pub remaining: usize,
    pub interval: Duration,
}

impl RouterSolicitationBurst {
    /// A burst of `count` solicitations on an interface.
    pub fn new(ifindex: InterfaceIndex, count: usize, interval: Duration) -> (res: Self)
        ensures
            res == (RouterSolicitationBurst { ifindex, remaining: count, interval }),
    {
        RouterSolicitationBurst { ifindex, remaining: count, interval }
    }

    /// The next solicitation to send, or `None` once the burst is over.
    ///
    /// Every solicitation goes to all routers on the link and is followed by
    /// the same wait.
    pub fn next_solicitation(&mut self) -> (res: Option<Solicitation>)
        ensures
            match res {
                Some(s) => {
                    &&& old(self).remaining > 0
                    &&& *final(self) == (RouterSolicitationBurst {
                        remaining: (old(self).remaining - 1) as usize,
                        ..*old(self)
                    })
                    &&& s.ifindex == old(self).ifindex
                    &&& s.destination == all_routers()
                    &&& s.payload@ == solicitation_bytes()
                    &&& s.wait == old(self).interval
                },
                None => old(self).remaining == 0 && *final(self) == *old(self),
            },
    {
        if self.remaining == 0 {
            return None;
        }
        self.remaining = self.remaining - 1;
        let message = RouterSolicitationMessage::default();
        let payload = message.as_bytes();
        proof {
            lemma_zero_bytes();
            assert(payload@ =~= solicitation_bytes());
        }
        Some(
            Solicitation {
                ifindex: self.ifindex,
                destination: Ipv6Addr::new(0xff02, 0, 0, 0, 0, 0, 0, 2),
                payload,
                wait: self.interval,
            },
        )
    }
}

/// The eight bytes of a Router Solicitation: type 133, all else zero.
pub open spec fn solicitation_bytes() -> Seq<u8> {
    seq![ICMPV6_RS_TYPE, 0, 0, 0, 0, 0, 0, 0]
}

} // verus!
