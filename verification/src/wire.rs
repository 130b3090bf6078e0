//! The wire format that options are read from, by its encoding.
//!
//! Nothing here is executed. The encodings write down the formats of RFC 4861
//! and RFC 8106 field by field, and the laws say that what is encoded is what
//! is read.
use vstd::prelude::*;

use crate::address::Ipv6Addr;
use crate::bytes::{be_bytes, law_read_back_written_number, pow256, u16_bytes, u32_bytes};
use crate::error::ParseError;
use crate::router_advertisement::{
    address_at, dnssl_option, domain_names, header, is_short_prefix, join_options, no_options,
    option_content, options_from, prefix_option, rdnss_option, u16_at, u32_at, ListOption,
    OptionsView, PrefixInfo, RouterAdvertisementMessage, DOT, ND_OPT_DNSSL, ND_OPT_PREFIX_INFO,
    ND_OPT_RDNSS,
};
use crate::text::text_of;

verus! {

/// The sixteen bytes of an address.
pub open spec fn address_bytes(address: Ipv6Addr) -> Seq<u8> {
    be_bytes(address.bits as nat, 16)
}

proof fn lemma_u16_at(bytes: Seq<u8>, start: int, value: u16)
    requires
        0 <= start,
        start + 2 <= bytes.len(),
        bytes.subrange(start, start + 2) == u16_bytes(value),
    ensures
        u16_at(bytes, start) == value,
{
    reveal_with_fuel(pow256, 3);
    law_read_back_written_number(value as nat, 2);
}

proof fn lemma_u32_at(bytes: Seq<u8>, start: int, value: u32)
    requires
        0 <= start,
        start + 4 <= bytes.len(),
        bytes.subrange(start, start + 4) == u32_bytes(value),
    ensures
        u32_at(bytes, start) == value,
{
    reveal_with_fuel(pow256, 5);
    law_read_back_written_number(value as nat, 4);
}

proof fn lemma_address_at(bytes: Seq<u8>, start: int, address: Ipv6Addr)
    requires
        0 <= start,
        start + 16 <= bytes.len(),
        bytes.subrange(start, start + 16) == address_bytes(address),
    ensures
        address_at(bytes, start) == address,
{
    reveal_with_fuel(pow256, 17);
    law_read_back_written_number(address.bits as nat, 16);
}

/// A number takes as many bytes as it is written in.
proof fn lemma_be_bytes_len(value: nat, n: nat)
    ensures
        be_bytes(value, n).len() == n,
    decreases n,
{
    if n > 0 {
        lemma_be_bytes_len(value / 256, (n - 1) as nat);
    }
}

/// Two bytes are written for a 16-bit number and four for a 32-bit one.
proof fn lemma_field_lens()
    ensures
        forall|value: u16| #[trigger] u16_bytes(value).len() == 2,
        forall|value: u32| #[trigger] u32_bytes(value).len() == 4,
{
    assert forall|value: u16| #[trigger] u16_bytes(value).len() == 2 by {
        lemma_be_bytes_len(value as nat, 2);
    }
    assert forall|value: u32| #[trigger] u32_bytes(value).len() == 4 by {
        lemma_be_bytes_len(value as nat, 4);
    }
}

/// The fixed header of a Router Advertisement.
pub open spec fn header_wire(h: RouterAdvertisementMessage) -> Seq<u8> {
    seq![h.icmp_type, h.icmp_code] + u16_bytes(h.checksum) + seq![h.cur_hop_limit, h.flags]
        + u16_bytes(h.router_lifetime) + u32_bytes(h.reachable_time) + u32_bytes(h.retrans_timer)
}

/// An encoded header is read as it was meant, and the options follow it.
pub proof fn law_header_round_trip(h: RouterAdvertisementMessage, options: Seq<u8>)
    ensures
        header(header_wire(h) + options) == h,
        (header_wire(h) + options).skip(16) == options,
{
    let message = header_wire(h) + options;
    lemma_field_lens();
    assert(message.subrange(2, 4) =~= u16_bytes(h.checksum));
    assert(message.subrange(6, 8) =~= u16_bytes(h.router_lifetime));
    assert(message.subrange(8, 12) =~= u32_bytes(h.reachable_time));
    assert(message.subrange(12, 16) =~= u32_bytes(h.retrans_timer));
    lemma_u16_at(message, 2, h.checksum);
    lemma_u16_at(message, 6, h.router_lifetime);
    lemma_u32_at(message, 8, h.reachable_time);
    lemma_u32_at(message, 12, h.retrans_timer);
    assert(message.skip(16) =~= options);
}

// Framing

/// What is read of options does not depend on what precedes them.
proof fn lemma_options_behind(before: Seq<u8>, rest: Seq<u8>, offset: int)
    requires
        0 <= offset,
    ensures
        match options_from(rest, offset) {
            Ok(options) => options_from(before + rest, before.len() + offset) == Ok::<
                _,
                ParseError,
            >(options),
            Err(_) => options_from(before + rest, before.len() + offset) is Err,
        },
    decreases rest.len() - offset,
{
    let all = before + rest;
    let at = before.len() + offset;
    if offset + 2 <= rest.len() {
        assert(all[at] == rest[offset]);
        assert(all[at + 1] == rest[offset + 1]);
        let opt_len = rest[offset + 1] * 8;
        if opt_len != 0 && offset + opt_len <= rest.len() {
            lemma_options_behind(before, rest, offset + opt_len);
            assert(all.subrange(at, at + opt_len) =~= rest.subrange(offset, offset + opt_len));
        }
    }
}

/// An option contributes what it says, and the options after it are read as
/// if they stood alone. So options come in wire order, and an option of
/// unknown type is skipped.
pub proof fn law_option_then_rest(option: Seq<u8>, rest: Seq<u8>)
    requires
        option.len() >= 2,
        option[1] != 0,
        option.len() == option[1] * 8,
        !is_short_prefix(option),
    ensures
        match options_from(rest, 0) {
            Ok(options) => options_from(option + rest, 0) == Ok::<_, ParseError>(
                join_options(option_content(option), options),
            ),
            Err(_) => options_from(option + rest, 0) is Err,
        },
{
    let all = option + rest;
    lemma_options_behind(option, rest, 0);
    assert(all[0] == option[0]);
    assert(all[1] == option[1]);
    assert(all.subrange(0, option.len() as int) =~= option);
}

/// Options of unknown type say nothing.
pub proof fn law_unknown_option_says_nothing(option: Seq<u8>)
    requires
        option[0] != ND_OPT_RDNSS,
        option[0] != ND_OPT_DNSSL,
        option[0] != ND_OPT_PREFIX_INFO,
    ensures
        option_content(option) == no_options(),
{
}

// RDNSS

/// Addresses back to back.
pub open spec fn addresses_wire(addresses: Seq<Ipv6Addr>) -> Seq<u8>
    decreases addresses.len(),
{
    if addresses.len() == 0 {
        Seq::empty()
    } else {
        addresses_wire(addresses.drop_last()) + address_bytes(addresses.last())
    }
}

/// An RDNSS option.
pub open spec fn rdnss_wire(lifetime: u32, servers: Seq<Ipv6Addr>) -> Seq<u8> {
    seq![ND_OPT_RDNSS, (1 + 2 * servers.len()) as u8, 0, 0] + u32_bytes(lifetime) + addresses_wire(
        servers,
    )
}

proof fn lemma_addresses_wire(addresses: Seq<Ipv6Addr>)
    ensures
        addresses_wire(addresses).len() == 16 * addresses.len(),
        forall|i: int|
            0 <= i < addresses.len() ==> addresses_wire(addresses).subrange(16 * i, 16 * i + 16)
                == #[trigger] address_bytes(addresses[i]),
    decreases addresses.len(),
{
    if addresses.len() > 0 {
        let rest = addresses.drop_last();
        let head = addresses_wire(rest);
        let out = addresses_wire(addresses);
        lemma_addresses_wire(rest);
        lemma_be_bytes_len(addresses.last().bits as nat, 16);
        assert forall|i: int| 0 <= i < addresses.len() implies out.subrange(16 * i, 16 * i + 16)
            == #[trigger] address_bytes(addresses[i]) by {
            if i < rest.len() {
                assert(address_bytes(rest[i]) == address_bytes(addresses[i]));
                assert(out.subrange(16 * i, 16 * i + 16) =~= head.subrange(16 * i, 16 * i + 16));
            } else {
                assert(out.subrange(16 * i, 16 * i + 16) =~= address_bytes(addresses.last()));
            }
        }
    }
}

/// An encoded RDNSS option is read as it was meant, for as many servers as
/// its length can tell.
pub proof fn law_rdnss_round_trip(lifetime: u32, servers: Seq<Ipv6Addr>)
    requires
        servers.len() <= 127,
    ensures
        rdnss_wire(lifetime, servers).len() == rdnss_wire(lifetime, servers)[1] * 8,
        option_content(rdnss_wire(lifetime, servers)) == (OptionsView {
            rdnss: seq![ListOption { lifetime, items: servers }],
            ..no_options()
        }),
{
    let wire = rdnss_wire(lifetime, servers);
    let body = wire.skip(4);
    let list = addresses_wire(servers);
    lemma_field_lens();
    lemma_addresses_wire(servers);
    assert(body =~= u32_bytes(lifetime) + list);
    assert(body.subrange(0, 4) =~= u32_bytes(lifetime));
    lemma_u32_at(body, 0, lifetime);
    assert forall|i: int| 0 <= i < servers.len() implies address_at(body, 4 + 16 * i)
        == servers[i] by {
        assert(list.subrange(16 * i, 16 * i + 16) == address_bytes(servers[i]));
        assert(body.subrange(4 + 16 * i, 4 + 16 * i + 16) =~= list.subrange(16 * i, 16 * i + 16));
        lemma_address_at(body, 4 + 16 * i, servers[i]);
    }
    assert(rdnss_option(body).items =~= servers);
}

// Prefix information

/// The flag field of a prefix.
pub open spec fn prefix_flags(on_link: bool, autonomous: bool) -> u8 {
    match (on_link, autonomous) {
        (true, true) => 0xc0,
        (true, false) => 0x80,
        (false, true) => 0x40,
        (false, false) => 0,
    }
}

/// A Prefix Information Option.
pub open spec fn prefix_wire(info: PrefixInfo) -> Seq<u8> {
    seq![
        ND_OPT_PREFIX_INFO,
        4,
        info.prefix_len,
        prefix_flags(info.on_link, info.autonomous),
    ] + u32_bytes(info.valid_lifetime) + u32_bytes(info.preferred_lifetime) + seq![0u8, 0, 0, 0]
        + address_bytes(info.prefix)
}

/// An encoded prefix is read as it was meant.
pub proof fn law_prefix_round_trip(info: PrefixInfo)
    ensures
        prefix_wire(info).len() == prefix_wire(info)[1] * 8,
        option_content(prefix_wire(info)) == (OptionsView {
            prefixes: seq![info],
            ..no_options()
        }),
{
    let wire = prefix_wire(info);
    let body = wire.skip(2);
    lemma_field_lens();
    lemma_be_bytes_len(info.prefix.bits as nat, 16);
    assert(body.subrange(2, 6) =~= u32_bytes(info.valid_lifetime));
    assert(body.subrange(6, 10) =~= u32_bytes(info.preferred_lifetime));
    assert(body.subrange(14, 30) =~= address_bytes(info.prefix));
    lemma_u32_at(body, 2, info.valid_lifetime);
    lemma_u32_at(body, 6, info.preferred_lifetime);
    lemma_address_at(body, 14, info.prefix);
    assert(prefix_option(body) == info);
}

// DNSSL

/// Labels, each behind its length.
pub open spec fn labels_wire(labels: Seq<Seq<u8>>) -> Seq<u8>
    decreases labels.len(),
{
    if labels.len() == 0 {
        Seq::empty()
    } else {
        seq![labels.first().len() as u8] + labels.first() + labels_wire(labels.drop_first())
    }
}

/// The bytes of a domain name: its labels, each with a dot behind it.
pub open spec fn dotted(labels: Seq<Seq<u8>>) -> Seq<u8>
    decreases labels.len(),
{
    if labels.len() == 0 {
        Seq::empty()
    } else {
        labels.first().push(DOT) + dotted(labels.drop_first())
    }
}

/// Domain names, each ended by an empty label.
pub open spec fn names_wire(names: Seq<Seq<Seq<u8>>>) -> Seq<u8>
    decreases names.len(),
{
    if names.len() == 0 {
        Seq::empty()
    } else {
        labels_wire(names.first()).push(0) + names_wire(names.drop_first())
    }
}

/// Whether labels are neither empty nor too long for their length byte.
pub open spec fn valid_labels(labels: Seq<Seq<u8>>) -> bool {
    forall|i: int| 0 <= i < labels.len() ==> 0 < (#[trigger] labels[i]).len() <= 255
}

/// Whether names have labels, all of them valid.
pub open spec fn valid_names(names: Seq<Seq<Seq<u8>>>) -> bool {
    forall|i: int|
        0 <= i < names.len() ==> (#[trigger] names[i]).len() > 0 && valid_labels(names[i])
}

/// A DNSSL option with `padding` zero bytes at its end.
pub open spec fn dnssl_wire(lifetime: u32, names: Seq<Seq<Seq<u8>>>, padding: nat) -> Seq<u8> {
    seq![ND_OPT_DNSSL, ((8 + names_wire(names).len() + padding) / 8) as u8, 0, 0] + u32_bytes(
        lifetime,
    ) + names_wire(names) + Seq::new(padding, |i: int| 0u8)
}

proof fn lemma_read_labels(body: Seq<u8>, pos: int, labels: Seq<Seq<u8>>, name: Seq<u8>)
    requires
        0 <= pos,
        pos + labels_wire(labels).len() <= body.len(),
        body.subrange(pos, pos + labels_wire(labels).len()) == labels_wire(labels),
        valid_labels(labels),
    ensures
        domain_names(body, pos, name) == domain_names(
            body,
            pos + labels_wire(labels).len(),
            name + dotted(labels),
        ),
    decreases labels.len(),
{
    if labels.len() == 0 {
        assert(name + dotted(labels) =~= name);
    } else {
        let first = labels.first();
        let rest = labels.drop_first();
        let wire = labels_wire(labels);
        let next = pos + 1 + first.len();
        assert(labels[0] == first);
        assert forall|i: int| 0 <= i < rest.len() implies 0 < (#[trigger] rest[i]).len() <= 255 by {
            assert(rest[i] == labels[i + 1]);
        }
        assert(body[pos] == wire[0]) by {
            assert(body.subrange(pos, pos + wire.len())[0] == wire[0]);
        }
        assert(body.subrange(pos + 1, next) =~= first) by {
            assert forall|i: int| 0 <= i < first.len() implies body.subrange(pos + 1, next)[i]
                == first[i] by {
                assert(body.subrange(pos, pos + wire.len())[1 + i] == wire[1 + i]);
            }
        }
        assert(body.subrange(next, next + labels_wire(rest).len()) =~= labels_wire(rest)) by {
            assert forall|i: int| 0 <= i < labels_wire(rest).len() implies body.subrange(
                next,
                next + labels_wire(rest).len(),
            )[i] == labels_wire(rest)[i] by {
                let k = 1 + first.len() + i;
                assert(body.subrange(pos, pos + wire.len())[k] == wire[k]);
            }
        }
        lemma_read_labels(body, next, rest, name + first.push(DOT));
        assert(name + first.push(DOT) + dotted(rest) =~= name + dotted(labels));
    }
}

proof fn lemma_dotted_nonempty(labels: Seq<Seq<u8>>)
    requires
        labels.len() > 0,
    ensures
        dotted(labels).len() > 0,
{
}

proof fn lemma_read_names(body: Seq<u8>, pos: int, names: Seq<Seq<Seq<u8>>>)
    requires
        0 <= pos,
        pos + names_wire(names).len() <= body.len(),
        body.subrange(pos, pos + names_wire(names).len()) == names_wire(names),
        valid_names(names),
    ensures
        domain_names(body, pos, Seq::empty()) == names.map_values(
            |labels: Seq<Seq<u8>>| dotted(labels),
        ) + domain_names(body, pos + names_wire(names).len(), Seq::empty()),
    decreases names.len(),
{
    let f = |labels: Seq<Seq<u8>>| dotted(labels);
    if names.len() == 0 {
        assert(names.map_values(f) + domain_names(body, pos, Seq::empty()) =~= domain_names(
            body,
            pos,
            Seq::empty(),
        ));
    } else {
        let first = names.first();
        let rest = names.drop_first();
        let wire = names_wire(names);
        let labels = labels_wire(first);
        let end = pos + labels.len();
        assert(names[0] == first);
        assert forall|i: int| 0 <= i < rest.len() implies (#[trigger] rest[i]).len() > 0
            && valid_labels(rest[i]) by {
            assert(rest[i] == names[i + 1]);
        }
        assert(body.subrange(pos, end) =~= labels) by {
            assert forall|i: int| 0 <= i < labels.len() implies body.subrange(pos, end)[i]
                == labels[i] by {
                assert(body.subrange(pos, pos + wire.len())[i] == wire[i]);
            }
        }
        assert(body[end] == 0) by {
            assert(body.subrange(pos, pos + wire.len())[labels.len() as int]
                == wire[labels.len() as int]);
        }
        assert(body.subrange(end + 1, end + 1 + names_wire(rest).len()) =~= names_wire(rest)) by {
            assert forall|i: int| 0 <= i < names_wire(rest).len() implies body.subrange(
                end + 1,
                end + 1 + names_wire(rest).len(),
            )[i] == names_wire(rest)[i] by {
                let k = labels.len() + 1 + i;
                assert(body.subrange(pos, pos + wire.len())[k] == wire[k]);
            }
        }
        lemma_read_labels(body, pos, first, Seq::empty());
        assert(Seq::<u8>::empty() + dotted(first) =~= dotted(first));
        lemma_dotted_nonempty(first);
        lemma_read_names(body, end + 1, rest);
        assert(seq![dotted(first)] + (rest.map_values(f) + domain_names(
            body,
            pos + wire.len(),
            Seq::empty(),
        )) =~= names.map_values(f) + domain_names(body, pos + wire.len(), Seq::empty()));
    }
}

proof fn lemma_read_padding(body: Seq<u8>, pos: int)
    requires
        0 <= pos,
        forall|i: int| pos <= i < body.len() ==> body[i] == 0,
    ensures
        domain_names(body, pos, Seq::empty()) == Seq::<Seq<u8>>::empty(),
    decreases body.len() - pos,
{
    if pos < body.len() {
        lemma_read_padding(body, pos + 1);
    }
}

/// An encoded search list is read as it was meant: every name in order, with
/// a dot behind each label; padding is ignored.
pub proof fn law_dnssl_round_trip(lifetime: u32, names: Seq<Seq<Seq<u8>>>, padding: nat)
    requires
        valid_names(names),
        (8 + names_wire(names).len() + padding) % 8 == 0,
        8 + names_wire(names).len() + padding <= 255 * 8,
    ensures
        dnssl_wire(lifetime, names, padding).len() == dnssl_wire(lifetime, names, padding)[1] * 8,
        option_content(dnssl_wire(lifetime, names, padding)) == (OptionsView {
            dnssl: seq![
                ListOption {
                    lifetime,
                    items: names.map_values(|labels: Seq<Seq<u8>>| text_of(dotted(labels))),
                },
            ],
            ..no_options()
        }),
{
    let wire = dnssl_wire(lifetime, names, padding);
    let list = names_wire(names);
    let body = wire.skip(4);
    let f = |labels: Seq<Seq<u8>>| dotted(labels);
    lemma_field_lens();
    assert(body.subrange(0, 4) =~= u32_bytes(lifetime));
    lemma_u32_at(body, 0, lifetime);
    assert(body.subrange(4, 4 + list.len() as int) =~= list);
    lemma_read_names(body, 4, names);
    lemma_read_padding(body, 4 + list.len() as int);
    assert(domain_names(body, 4, Seq::empty()) =~= names.map_values(f));
    assert(dnssl_option(body).items =~= names.map_values(
        |labels: Seq<Seq<u8>>| text_of(dotted(labels)),
    ));
}

} // verus!
