//! What calls return, in terms of what they are given.
use vstd::prelude::*;

use crate::address::Ipv6Addr;
use crate::bytes::{get_slice, u128_from_be, u16_from_be, u16_to_be, u32_from_be, u32_to_be};
use crate::control_message::{find_control_message, ControlHeader};
use crate::error::{decimal, ParseError};
use crate::laws::messages::{
    law_advertised_flags, law_advertised_options, law_domains_read, law_fields_written,
    law_flag_bits, law_header_read, law_numbers, law_prefix_read, law_segments, law_servers_read,
    law_solicitation, law_solicitation_written, number,
};
use crate::router_advertisement::{
    decode_router_advertisement, domain_names, options_from, parse_dnssl_domains,
    parse_domain_names, parse_flags, parse_prefix_information, parse_rdnss_servers,
    parse_router_advertisement_options, Dnssl, PrefixInfo, Rdnss, RouterAdvertisement,
    RouterAdvertisementMessage, RouterSolicitationBurst, RouterSolicitationMessage, Solicitation,
};
use crate::text::text_of;
use crate::time::{Duration, Instant};
use crate::InterfaceIndex;

verus! {

// Plain values

/// Bytes are got exactly if all of them lie within the buffer.
pub proof fn law_slice_got<const N: usize>(
    buf: &[u8],
    start: usize,
    res: Result<[u8; N], ParseError>,
)
    requires
        call_ensures(get_slice::<N>, (buf, start), res),
    ensures
        res is Ok <==> start + N <= buf@.len(),
        res matches Ok(bytes) ==> forall|i: int|
            0 <= i < N ==> #[trigger] bytes@[i] == buf@[start + i],
        res matches Err(e) ==> e == ParseError::Truncated,
{
    if let Ok(bytes) = res {
        assert forall|i: int| 0 <= i < N implies #[trigger] bytes@[i] == buf@[start + i] by {
            assert(bytes@[i] == buf@.subrange(start as int, start + N)[i]);
        }
    }
}

/// Bytes are read as the number that they denote.
pub proof fn law_numbers_parsed(
    a: [u8; 2],
    b: [u8; 4],
    c: [u8; 16],
    x: u16,
    y: u32,
    z: u128,
)
    requires
        call_ensures(u16_from_be, (a,), x),
        call_ensures(u32_from_be, (b,), y),
        call_ensures(u128_from_be, (c,), z),
    ensures
        x == number(a@),
        y == number(b@),
        z == number(c@),
{
    law_numbers(a@, 0, 0);
    law_numbers(b@, 0, 0);
    law_numbers(c@, 0, 0);
}

/// A number is written with its most significant byte first.
pub proof fn law_numbers_encoded(x: u16, y: u32, a: [u8; 2], b: [u8; 4])
    requires
        call_ensures(u16_to_be, (x,), a),
        call_ensures(u32_to_be, (y,), b),
    ensures
        a@[0] * 256 + a@[1] == x,
        b@[0] * 0x100_0000 + b@[1] * 0x1_0000 + b@[2] * 256 + b@[3] == y,
{
    law_fields_written(x, y);
}

/// An address is made of its segments.
pub proof fn law_address_made(
    a: u16,
    b: u16,
    c: u16,
    d: u16,
    e: u16,
    f: u16,
    g: u16,
    h: u16,
    address: Ipv6Addr,
)
    requires
        call_ensures(Ipv6Addr::new, (a, b, c, d, e, f, g, h), address),
    ensures
        address.bits == a * 0x1_0000_0000_0000_0000_0000_0000_0000 + b
            * 0x1_0000_0000_0000_0000_0000_0000 + c * 0x1_0000_0000_0000_0000_0000 + d
            * 0x1_0000_0000_0000_0000 + e * 0x1_0000_0000_0000 + f * 0x1_0000_0000 + g * 0x1_0000
            + h,
{
    law_segments(a, b, c, d, e, f, g, h);
}

/// Spans and points in time are counted in nanoseconds.
pub proof fn law_time_computed(
    secs: u64,
    span: Duration,
    t: &Instant,
    d: Duration,
    later: Instant,
    none: bool,
)
    requires
        call_ensures(Duration::from_secs, (secs,), span),
        call_ensures(Instant::after, (t, d), later),
        call_ensures(Duration::is_zero, (&d,), none),
    ensures
        span.nanos == secs * 1_000_000_000,
        later.nanos == t.nanos + d.nanos,
        none <==> d.nanos == 0,
{
}

/// The first header that is the wanted one is found, if there is one.
pub proof fn law_control_message_found(
    headers: &[ControlHeader],
    wanted: ControlHeader,
    res: Option<usize>,
)
    requires
        call_ensures(find_control_message, (headers, wanted), res),
    ensures
        res is Some <==> exists|i: int| 0 <= i < headers@.len() && #[trigger] headers@[i] == wanted,
        res is Some ==> res->0 < headers@.len() && headers@[res->0 as int] == wanted,
        forall|i: int| res is Some && 0 <= i < res->0 ==> #[trigger] headers@[i] != wanted,
{
}

// Messages

/// The flags of a flag field are its two topmost bits.
pub proof fn law_flags_parsed(flags: u8, res: (bool, bool))
    requires
        call_ensures(parse_flags, (flags,), res),
    ensures
        res.0 <==> flags & 0x80 != 0,
        res.1 <==> flags & 0x40 != 0,
{
    law_flag_bits(flags);
}

/// A header is read exactly if all of its bytes are there, each field from its
/// own bytes.
pub proof fn law_header_parsed(
    message: &[u8],
    res: Result<RouterAdvertisementMessage, ParseError>,
)
    requires
        call_ensures(RouterAdvertisementMessage::read, (message,), res),
    ensures
        res is Ok <==> message@.len() >= 16,
        res matches Err(e) ==> e == ParseError::TruncatedHeader,
        res matches Ok(h) ==> {
            &&& h.icmp_type == message@[0]
            &&& h.icmp_code == message@[1]
            &&& h.checksum == message@[2] * 256 + message@[3]
            &&& h.cur_hop_limit == message@[4]
            &&& h.flags == message@[5]
            &&& h.router_lifetime == message@[6] * 256 + message@[7]
            &&& h.reachable_time == message@[8] * 0x100_0000 + message@[9] * 0x1_0000 + message@[10]
                * 256 + message@[11]
            &&& h.retrans_timer == message@[12] * 0x100_0000 + message@[13] * 0x1_0000
                + message@[14] * 256 + message@[15]
        },
{
    if message@.len() >= 16 {
        law_header_read(message@);
    }
}

/// A message is decoded exactly if it has a whole header with the type of an
/// advertisement. Its flags are single bits, its options are those behind the
/// header, and there are none if one of them is malformed.
pub proof fn law_message_decoded(
    ifindex: InterfaceIndex,
    router_ip: Ipv6Addr,
    payload: &[u8],
    res: Result<RouterAdvertisement, ParseError>,
)
    requires
        call_ensures(decode_router_advertisement, (ifindex, router_ip, payload), res),
    ensures
        res is Ok <==> payload@.len() >= 16 && payload@[0] == 134,
        payload@.len() < 16 ==> (res matches Err(e) && e == ParseError::TruncatedHeader),
        payload@.len() >= 16 && payload@[0] != 134 ==> (res matches Err(e) && e
            == ParseError::NotRouterAdvertisement),
        res matches Ok(ra) ==> {
            &&& ra.ifindex == ifindex
            &&& ra.router_ip == router_ip
            &&& ra.managed <==> payload@[5] & 0x80 != 0
            &&& ra.other_config <==> payload@[5] & 0x40 != 0
            &&& ra.router_lifetime == payload@[6] * 256 + payload@[7]
            &&& match options_from(payload@.skip(16), 0) {
                Ok(options) => {
                    &&& ra.rdnss.deep_view() == options.rdnss
                    &&& ra.dnssl.deep_view() == options.dnssl
                    &&& ra.prefixes@ == options.prefixes
                },
                Err(_) => ra.rdnss@.len() == 0 && ra.dnssl@.len() == 0 && ra.prefixes@.len() == 0,
            }
        },
{
    if let Ok(ra) = res {
        law_advertised_flags(ifindex, router_ip, payload@);
        law_advertised_options(ifindex, router_ip, payload@);
        assert(ra.prefixes.deep_view() =~= ra.prefixes@);
        assert(ra.rdnss.deep_view().len() == ra.rdnss@.len());
        assert(ra.dnssl.deep_view().len() == ra.dnssl@.len());
    }
}

/// Options are read as what they say, or else not at all.
pub proof fn law_options_parsed(
    buf: &[u8],
    res: Result<(Vec<Rdnss>, Vec<Dnssl>, Vec<PrefixInfo>), ParseError>,
)
    requires
        call_ensures(parse_router_advertisement_options, (buf,), res),
    ensures
        match (res, options_from(buf@, 0)) {
            (Ok((rdnss, dnssl, prefixes)), Ok(options)) => {
                &&& rdnss.deep_view() == options.rdnss
                &&& dnssl.deep_view() == options.dnssl
                &&& prefixes@ == options.prefixes
            },
            (Err(e), Err(f)) => e == f,
            _ => false,
        },
{
    if let Ok((rdnss, dnssl, prefixes)) = res {
        assert(prefixes.deep_view() =~= prefixes@);
    }
}

/// A prefix is read exactly if all of its fields are there, each from its own
/// bytes.
pub proof fn law_prefix_parsed(buf: &[u8], res: Result<PrefixInfo, ParseError>)
    requires
        call_ensures(parse_prefix_information, (buf,), res),
    ensures
        res is Ok <==> buf@.len() >= 30,
        res matches Err(e) ==> e == ParseError::InvalidPrefixLength,
        res matches Ok(p) ==> {
            &&& p.prefix_len == buf@[0]
            &&& p.on_link <==> buf@[1] & 0x80 != 0
            &&& p.autonomous <==> buf@[1] & 0x40 != 0
            &&& p.valid_lifetime == buf@[2] * 0x100_0000 + buf@[3] * 0x1_0000 + buf@[4] * 256
                + buf@[5]
            &&& p.preferred_lifetime == buf@[6] * 0x100_0000 + buf@[7] * 0x1_0000 + buf@[8] * 256
                + buf@[9]
            &&& p.prefix.bits == number(buf@.subrange(14, 30))
        },
{
    if buf@.len() >= 30 {
        law_prefix_read(buf@);
    }
}

/// DNS servers are read exactly if there is a lifetime: all addresses that
/// stand whole behind it.
pub proof fn law_servers_parsed(buf: &[u8], res: Result<Rdnss, ParseError>)
    requires
        call_ensures(parse_rdnss_servers, (buf,), res),
    ensures
        res is Ok <==> buf@.len() >= 4,
        res matches Err(e) ==> e == ParseError::Truncated,
        res matches Ok(o) ==> {
            &&& o.lifetime == buf@[0] * 0x100_0000 + buf@[1] * 0x1_0000 + buf@[2] * 256 + buf@[3]
            &&& 4 + 16 * o.servers@.len() <= buf@.len() < 4 + 16 * (o.servers@.len() + 1)
            &&& forall|i: int|
                0 <= i < o.servers@.len() ==> (#[trigger] o.servers@[i]).bits == number(
                    buf@.subrange(4 + 16 * i, 20 + 16 * i),
                )
        },
{
    if let Ok(o) = res {
        law_servers_read(buf@);
        assert(o.servers.deep_view() =~= o.servers@);
        assert(o.deep_view().items == o.servers@);
    }
}

/// Search domains are read exactly if there is a lifetime: all names behind
/// it, as text that ends with a dot.
pub proof fn law_domains_parsed(buf: &[u8], names: Vec<Vec<u8>>, res: Result<Dnssl, ParseError>)
    requires
        call_ensures(parse_domain_names, (buf,), names),
        call_ensures(parse_dnssl_domains, (buf,), res),
    ensures
        res is Ok <==> buf@.len() >= 4,
        res matches Err(e) ==> e == ParseError::Truncated,
        res matches Ok(o) ==> {
            &&& o.lifetime == buf@[0] * 0x100_0000 + buf@[1] * 0x1_0000 + buf@[2] * 256 + buf@[3]
            &&& o.domains@.len() == names@.len()
            &&& forall|i: int|
                0 <= i < names@.len() ==> {
                    let text = (#[trigger] o.domains@[i])@;
                    &&& names@[i]@ == domain_names(buf@, 4, Seq::empty())[i]
                    &&& text == text_of(names@[i]@)
                    &&& text.len() > 0
                    &&& text.last() == '.'
                }
        },
{
    if let Ok(o) = res {
        law_domains_read(buf@);
        let all = domain_names(buf@, 4, Seq::empty());
        assert(names.deep_view().len() == names@.len());
        assert(o.domains.deep_view().len() == o.domains@.len());
        assert forall|i: int| 0 <= i < names@.len() implies {
            let text = (#[trigger] o.domains@[i])@;
            &&& names@[i]@ == all[i]
            &&& text == text_of(names@[i]@)
            &&& text.len() > 0
            &&& text.last() == '.'
        } by {
            assert(names.deep_view()[i] == names@[i].deep_view());
            assert(names@[i].deep_view() =~= names@[i]@);
            assert(o.domains.deep_view()[i] == o.domains@[i].deep_view());
            assert(o.deep_view().items[i] == text_of(all[i]));
        }
    }
}

// Solicitations

/// A solicitation is written field by field.
pub proof fn law_solicitation_encoded(message: &RouterSolicitationMessage, buf: [u8; 8])
    requires
        call_ensures(RouterSolicitationMessage::as_bytes, (message,), buf),
    ensures
        buf@[0] == message.icmp_type,
        buf@[1] == message.icmp_code,
        buf@[2] * 256 + buf@[3] == message.checksum,
        buf@[4] * 0x100_0000 + buf@[5] * 0x1_0000 + buf@[6] * 256 + buf@[7] == message.reserved,
{
    law_solicitation_written(*message);
}

/// A burst gives as many solicitations as it was made for, each to all
/// routers on the link, with the same wait after each.
pub proof fn law_burst_sent(
    ifindex: InterfaceIndex,
    count: usize,
    interval: Duration,
    made: RouterSolicitationBurst,
    burst: &mut RouterSolicitationBurst,
    res: Option<Solicitation>,
)
    requires
        call_ensures(RouterSolicitationBurst::new, (ifindex, count, interval), made),
        call_ensures(RouterSolicitationBurst::next_solicitation, (burst,), res),
    ensures
        made.ifindex == ifindex,
        made.remaining == count,
        made.interval == interval,
        res is Some <==> old(burst).remaining > 0,
        final(burst).remaining == if old(burst).remaining > 0 {
            old(burst).remaining - 1
        } else {
            0
        },
        final(burst).ifindex == old(burst).ifindex,
        final(burst).interval == old(burst).interval,
        res matches Some(s) ==> {
            &&& s.ifindex == old(burst).ifindex
            &&& s.wait == old(burst).interval
            &&& s.destination.bits == 0xff02 * 0x1_0000_0000_0000_0000_0000_0000_0000 + 2
            &&& s.payload@[0] == 133
            &&& forall|i: int| 1 <= i < 8 ==> #[trigger] s.payload@[i] == 0
        },
{
    law_solicitation();
}

/// An error is described by what it is about.
pub proof fn law_error_described(error: &ParseError, text: String)
    requires
        call_ensures(ParseError::message, (error,), text),
    ensures
        text@ == match *error {
            ParseError::TruncatedHeader => "Truncated RA"@,
            ParseError::NotRouterAdvertisement => "Not a Router Advertisement"@,
            ParseError::Truncated => "Truncated"@,
            ParseError::InvalidLength { offset, opt_type } => "InvalidLength on offset "@ + decimal(
                offset as nat,
            ) + " type: "@ + decimal(opt_type as nat),
            ParseError::TruncatedOption { offset, opt_len, available } => "Truncated: "@ + decimal(
                (offset + opt_len) as nat,
            ) + " must be > "@ + decimal(available as nat),
            ParseError::InvalidPrefixLength => "Invalid PIO length"@,
        },
{
}

} // verus!
