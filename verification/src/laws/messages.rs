//! What is read of a message, byte by byte.
use vstd::arithmetic::power::pow;
use vstd::prelude::*;
use vstd::utf8::{decode_utf8, valid_utf8};

use crate::address::{append_segment, Ipv6Addr};
use crate::bytes::{
    be_bytes, be_value, law_read_back_written_number, lemma_be_value_bound, pow256, u16_bytes,
    u32_bytes,
};
use crate::error::{decimal, ParseError};
use crate::router_advertisement::{
    address_at, advertisement, all_routers, dnssl_option, domain_names, first_flag, header,
    is_router_advertisement, option_content, options_from, prefix_option, rdnss_option, second_flag,
    solicitation_bytes, u16_at, u32_at, RouterSolicitationMessage,
};
use crate::text::{text_of, utf8_lossy};
use crate::InterfaceIndex;

verus! {

// Numbers

/// The number that bytes denote, most significant byte first: each byte adds
/// to 256 times what the bytes before it denote.
pub open spec fn number(bytes: Seq<u8>) -> int {
    bytes.fold_left(0int, |n: int, b: u8| n * 256 + b)
}

/// Bytes are read as the number that they denote, and a number is written as
/// bytes that denote it.
pub proof fn law_numbers(bytes: Seq<u8>, value: nat, n: nat)
    ensures
        be_value(bytes) == number(bytes),
        be_bytes(value, n).len() == n,
        value < pow(256, n) ==> number(be_bytes(value, n)) == value,
        pow256(n) == pow(256, n),
{
    lemma_number(bytes, |n: int, b: u8| n * 256 + b);
    lemma_pow(n);
    lemma_written_len(value, n);
    if value < pow(256, n) {
        law_read_back_written_number(value, n);
        lemma_number(be_bytes(value, n), |n: int, b: u8| n * 256 + b);
    }
}

proof fn lemma_number(bytes: Seq<u8>, f: spec_fn(int, u8) -> int)
    requires
        forall|n: int, b: u8| #[trigger] f(n, b) == n * 256 + b,
    ensures
        be_value(bytes) == bytes.fold_left(0int, f),
    decreases bytes.len(),
{
    if bytes.len() > 0 {
        lemma_number(bytes.drop_last(), f);
    }
}

proof fn lemma_pow(n: nat)
    ensures
        pow256(n) == pow(256, n),
    decreases n,
{
    reveal(pow);
    if n > 0 {
        lemma_pow((n - 1) as nat);
    }
}

proof fn lemma_written_len(value: nat, n: nat)
    ensures
        be_bytes(value, n).len() == n,
    decreases n,
{
    if n > 0 {
        lemma_written_len(value / 256, (n - 1) as nat);
    }
}

/// A field is written with its most significant byte first.
pub proof fn law_fields_written(a: u16, b: u32)
    ensures
        u16_bytes(a).len() == 2,
        u16_bytes(a)[0] * 256 + u16_bytes(a)[1] == a,
        u32_bytes(b).len() == 4,
        u32_bytes(b)[0] * 0x100_0000 + u32_bytes(b)[1] * 0x1_0000 + u32_bytes(b)[2] * 256
            + u32_bytes(b)[3] == b,
{
    reveal_with_fuel(be_bytes, 5);
}

/// A field is read with its most significant byte first.
pub proof fn law_fields_read(bytes: Seq<u8>, start: int)
    requires
        0 <= start,
    ensures
        start + 2 <= bytes.len() ==> u16_at(bytes, start) == bytes[start] * 256 + bytes[start + 1],
        start + 4 <= bytes.len() ==> u32_at(bytes, start) == bytes[start] * 0x100_0000 + bytes[start
            + 1] * 0x1_0000 + bytes[start + 2] * 256 + bytes[start + 3],
        start + 16 <= bytes.len() ==> address_at(bytes, start).bits == number(
            bytes.subrange(start, start + 16),
        ),
{
    reveal_with_fuel(be_value, 5);
    if start + 2 <= bytes.len() {
        let s = bytes.subrange(start, start + 2);
        assert(s.drop_last() =~= seq![bytes[start]]);
        assert(s.drop_last().drop_last() =~= Seq::empty());
    }
    if start + 4 <= bytes.len() {
        let s = bytes.subrange(start, start + 4);
        assert(s.drop_last() =~= seq![bytes[start], bytes[start + 1], bytes[start + 2]]);
        assert(s.drop_last().drop_last() =~= seq![bytes[start], bytes[start + 1]]);
        assert(s.drop_last().drop_last().drop_last() =~= seq![bytes[start]]);
        assert(s.drop_last().drop_last().drop_last().drop_last() =~= Seq::empty());
    }
    if start + 16 <= bytes.len() {
        let s = bytes.subrange(start, start + 16);
        lemma_number(s, |n: int, b: u8| n * 256 + b);
        lemma_be_value_bound(s);
        reveal_with_fuel(pow256, 17);
    }
}

/// The flags of a flag field are its two topmost bits, each by itself.
pub proof fn law_flag_bits(flags: u8)
    ensures
        first_flag(flags) <==> flags & 0x80 != 0,
        second_flag(flags) <==> flags & 0x40 != 0,
{
    assert((flags & 0x80 != 0) == (flags >= 0x80)) by (bit_vector);
    assert((flags & 0x40 != 0) == (flags % 0x80 >= 0x40)) by (bit_vector);
}

/// The segments of an address are the digits of its number in base `2^16`.
pub proof fn law_segments(a: u16, b: u16, c: u16, d: u16, e: u16, f: u16, g: u16, h: u16)
    ensures
        ({
            let upper = append_segment(append_segment(append_segment(a as int, b), c), d);
            append_segment(append_segment(append_segment(append_segment(upper, e), f), g), h)
                == a * 0x1_0000_0000_0000_0000_0000_0000_0000 + b
                * 0x1_0000_0000_0000_0000_0000_0000 + c * 0x1_0000_0000_0000_0000_0000 + d
                * 0x1_0000_0000_0000_0000 + e * 0x1_0000_0000_0000 + f * 0x1_0000_0000 + g
                * 0x1_0000 + h
        }),
{
}

// Header

/// A message is an advertisement exactly if it has a whole header and the
/// type of an advertisement.
pub proof fn law_advertisement_type(message: Seq<u8>)
    ensures
        is_router_advertisement(message) <==> message.len() >= 16 && message[0] == 134,
{
}

/// Every field of the header is read from its own bytes.
pub proof fn law_header_read(message: Seq<u8>)
    requires
        message.len() >= 16,
    ensures
        ({
            let h = header(message);
            &&& h.icmp_type == message[0]
            &&& h.icmp_code == message[1]
            &&& h.checksum == message[2] * 256 + message[3]
            &&& h.cur_hop_limit == message[4]
            &&& h.flags == message[5]
            &&& h.router_lifetime == message[6] * 256 + message[7]
            &&& h.reachable_time == message[8] * 0x100_0000 + message[9] * 0x1_0000 + message[10]
                * 256 + message[11]
            &&& h.retrans_timer == message[12] * 0x100_0000 + message[13] * 0x1_0000 + message[14]
                * 256 + message[15]
        }),
{
    law_fields_read(message, 2);
    law_fields_read(message, 6);
    law_fields_read(message, 8);
    law_fields_read(message, 12);
}

/// An advertisement has the M flag exactly if the topmost bit of its flag
/// byte is set, and the O flag exactly if the bit below it is. Neither depends
/// on the other, nor on anything else in the message.
pub proof fn law_advertised_flags(
    ifindex: InterfaceIndex,
    router_ip: Ipv6Addr,
    message: Seq<u8>,
)
    requires
        message.len() >= 16,
    ensures
        ({
            let ra = advertisement(ifindex, router_ip, message);
            &&& ra.managed <==> message[5] & 0x80 != 0
            &&& ra.other_config <==> message[5] & 0x40 != 0
            &&& ra.router_lifetime == message[6] * 256 + message[7]
            &&& ra.ifindex == ifindex
            &&& ra.router_ip == router_ip
        }),
{
    law_flag_bits(message[5]);
    law_fields_read(message, 6);
}

/// The options of an advertisement are those behind its header; if one of
/// them is malformed, there are none.
pub proof fn law_advertised_options(
    ifindex: InterfaceIndex,
    router_ip: Ipv6Addr,
    message: Seq<u8>,
)
    ensures
        ({
            let options = advertisement(ifindex, router_ip, message).options;
            match options_from(message.skip(16), 0) {
                Ok(read) => options.rdnss == read.rdnss && options.dnssl == read.dnssl
                    && options.prefixes == read.prefixes,
                Err(_) => options.rdnss.len() == 0 && options.dnssl.len() == 0
                    && options.prefixes.len() == 0,
            }
        }),
{
}

// Framing of options

/// Without room for the type and the length of an option there is none.
pub proof fn law_no_option(buf: Seq<u8>, offset: int)
    requires
        offset + 2 > buf.len(),
    ensures
        options_from(buf, offset) is Ok,
        options_from(buf, offset)->Ok_0.rdnss.len() == 0,
        options_from(buf, offset)->Ok_0.dnssl.len() == 0,
        options_from(buf, offset)->Ok_0.prefixes.len() == 0,
{
}

/// An option is malformed exactly if its length is zero, reaches past the
/// buffer, or is too short for the fields of a prefix. The first malformed
/// option is the error; otherwise what comes after it decides.
pub proof fn law_malformed_option(buf: Seq<u8>, offset: int)
    requires
        0 <= offset,
        offset + 2 <= buf.len() <= usize::MAX,
    ensures
        ({
            let out = options_from(buf, offset);
            let (kind, len) = (buf[offset], 8 * buf[offset + 1]);
            if len == 0 {
                out matches Err(e) && e == (ParseError::InvalidLength {
                    offset: offset as usize,
                    opt_type: kind,
                })
            } else if len > buf.len() - offset {
                out matches Err(e) && e == (ParseError::TruncatedOption {
                    offset: offset as usize,
                    opt_len: len as usize,
                    available: buf.len() as usize,
                })
            } else if kind == 3 && len < 32 {
                out matches Err(e) && e == ParseError::InvalidPrefixLength
            } else {
                match options_from(buf, offset + len) {
                    Ok(_) => out is Ok,
                    Err(e) => out matches Err(f) && e == f,
                }
            }
        }),
{
}

/// An option adds one item in front of those of its kind that come after it,
/// and leaves the others alone; an option of unknown type adds nothing.
pub proof fn law_first_option(buf: Seq<u8>, offset: int)
    requires
        0 <= offset,
        offset + 2 <= buf.len(),
        options_from(buf, offset) is Ok,
    ensures
        ({
            let (kind, len) = (buf[offset], 8 * buf[offset + 1]);
            let out = options_from(buf, offset)->Ok_0;
            let rest = options_from(buf, offset + len)->Ok_0;
            &&& out.rdnss == if kind == 25 {
                seq![rdnss_option(buf.subrange(offset + 4, offset + len))] + rest.rdnss
            } else {
                rest.rdnss
            }
            &&& out.dnssl == if kind == 31 {
                seq![dnssl_option(buf.subrange(offset + 4, offset + len))] + rest.dnssl
            } else {
                rest.dnssl
            }
            &&& out.prefixes == if kind == 3 {
                seq![prefix_option(buf.subrange(offset + 2, offset + len))] + rest.prefixes
            } else {
                rest.prefixes
            }
        }),
{
    let len = 8 * buf[offset + 1];
    let option = buf.subrange(offset, offset + len);
    let out = options_from(buf, offset)->Ok_0;
    let rest = options_from(buf, offset + len)->Ok_0;
    assert(option.skip(4) =~= buf.subrange(offset + 4, offset + len));
    assert(option.skip(2) =~= buf.subrange(offset + 2, offset + len));
    assert(out.rdnss == option_content(option).rdnss + rest.rdnss);
    assert(out.dnssl == option_content(option).dnssl + rest.dnssl);
    assert(out.prefixes == option_content(option).prefixes + rest.prefixes);
}

/// What is read of options is the same wherever they stand, but for the place
/// that an error names.
pub proof fn law_options_anywhere(before: Seq<u8>, rest: Seq<u8>, offset: int)
    requires
        0 <= offset,
    ensures
        match (options_from(rest, offset), options_from(before + rest, before.len() + offset)) {
            (Ok(a), Ok(b)) => a == b,
            (Err(a), Err(b)) => match (a, b) {
                (
                    ParseError::InvalidLength { opt_type: s, .. },
                    ParseError::InvalidLength { opt_type: t, .. },
                ) => s == t,
                (
                    ParseError::TruncatedOption { opt_len: s, .. },
                    ParseError::TruncatedOption { opt_len: t, .. },
                ) => s == t,
                _ => a == b,
            },
            _ => false,
        },
    decreases rest.len() - offset,
{
    let all = before + rest;
    let at = before.len() + offset;
    if offset + 2 <= rest.len() {
        assert(all[at] == rest[offset]);
        assert(all[at + 1] == rest[offset + 1]);
        let len = rest[offset + 1] * 8;
        if len != 0 && offset + len <= rest.len() {
            law_options_anywhere(before, rest, offset + len);
            assert(all.subrange(at, at + len) =~= rest.subrange(offset, offset + len));
        }
    }
}

// Options

/// Every field of a prefix is read from its own bytes.
pub proof fn law_prefix_read(body: Seq<u8>)
    requires
        body.len() >= 30,
    ensures
        ({
            let p = prefix_option(body);
            &&& p.prefix_len == body[0]
            &&& p.on_link <==> body[1] & 0x80 != 0
            &&& p.autonomous <==> body[1] & 0x40 != 0
            &&& p.valid_lifetime == body[2] * 0x100_0000 + body[3] * 0x1_0000 + body[4] * 256
                + body[5]
            &&& p.preferred_lifetime == body[6] * 0x100_0000 + body[7] * 0x1_0000 + body[8] * 256
                + body[9]
            &&& p.prefix.bits == number(body.subrange(14, 30))
        }),
{
    law_flag_bits(body[1]);
    law_fields_read(body, 2);
    law_fields_read(body, 6);
    law_fields_read(body, 14);
}

/// DNS servers are the addresses that stand whole behind the lifetime, in
/// their order.
pub proof fn law_servers_read(body: Seq<u8>)
    requires
        body.len() >= 4,
    ensures
        ({
            let o = rdnss_option(body);
            &&& o.lifetime == body[0] * 0x100_0000 + body[1] * 0x1_0000 + body[2] * 256 + body[3]
            &&& 4 + 16 * o.items.len() <= body.len() < 4 + 16 * (o.items.len() + 1)
            &&& forall|i: int|
                0 <= i < o.items.len() ==> (#[trigger] o.items[i]).bits == number(
                    body.subrange(4 + 16 * i, 20 + 16 * i),
                )
        }),
{
    law_fields_read(body, 0);
    let o = rdnss_option(body);
    assert forall|i: int| 0 <= i < o.items.len() implies (#[trigger] o.items[i]).bits == number(
        body.subrange(4 + 16 * i, 20 + 16 * i),
    ) by {
        law_fields_read(body, 4 + 16 * i);
    }
}

/// Search domains are the names behind the lifetime, in their order, each as
/// text.
pub proof fn law_domains_read(body: Seq<u8>)
    requires
        body.len() >= 4,
    ensures
        ({
            let o = dnssl_option(body);
            let names = domain_names(body, 4, Seq::empty());
            &&& o.lifetime == body[0] * 0x100_0000 + body[1] * 0x1_0000 + body[2] * 256 + body[3]
            &&& o.items.len() == names.len()
            &&& forall|i: int|
                0 <= i < names.len() ==> #[trigger] o.items[i] == if valid_utf8(names[i]) {
                    decode_utf8(names[i])
                } else {
                    utf8_lossy(names[i])
                }
        }),
{
    law_fields_read(body, 0);
}

/// Text in ASCII is read character by character.
pub proof fn law_ascii_domains_read(body: Seq<u8>, i: int)
    requires
        body.len() >= 4,
        0 <= i < domain_names(body, 4, Seq::empty()).len(),
        forall|k: int|
            0 <= k < domain_names(body, 4, Seq::empty())[i].len() ==> #[trigger] domain_names(
                body,
                4,
                Seq::empty(),
            )[i][k] < 0x80,
    ensures
        dnssl_option(body).items[i] == domain_names(body, 4, Seq::empty())[i].map_values(
            |b: u8| b as char,
        ),
{
    crate::text::law_ascii_text(domain_names(body, 4, Seq::empty())[i]);
}

/// A label in front of what is still to be read extends the name by its bytes
/// and a dot. A label is what a length from 1 to 255 counts.
pub proof fn law_label_read(
    before: Seq<u8>,
    label: Seq<u8>,
    after: Seq<u8>,
    name: Seq<u8>,
)
    requires
        1 <= label.len() <= 255,
    ensures
        ({
            let body = before + seq![label.len() as u8] + label + after;
            domain_names(body, before.len() as int, name) == domain_names(
                body,
                (before.len() + 1 + label.len()) as int,
                name + label + seq![0x2eu8],
            )
        }),
{
    let pos = before.len() as int;
    let body = before + seq![label.len() as u8] + label + after;
    assert(body[pos] == label.len());
    assert(body.subrange(pos + 1, pos + 1 + label.len()) =~= label);
    assert(name + label.push(0x2e) =~= name + label + seq![0x2eu8]);
}

/// A zero byte ends a name. Where no label came before it, it is skipped.
pub proof fn law_name_ended(before: Seq<u8>, after: Seq<u8>, name: Seq<u8>)
    ensures
        ({
            let body = before + seq![0u8] + after;
            let out = domain_names(body, before.len() as int, name);
            let rest = domain_names(body, before.len() as int + 1, Seq::empty());
            &&& name.len() == 0 ==> out == rest
            &&& name.len() > 0 ==> out.len() == rest.len() + 1 && out[0] == name && out.skip(1)
                == rest
        }),
{
    let body = before + seq![0u8] + after;
    assert(body[before.len() as int] == 0);
    let out = domain_names(body, before.len() as int, name);
    let rest = domain_names(body, before.len() as int + 1, Seq::empty());
    if name.len() > 0 {
        assert(out == seq![name] + rest);
        assert(out.skip(1) =~= rest);
    } else {
        assert(name =~= Seq::empty());
    }
}

/// A name that is not ended is dropped, and a label that reaches past the end
/// ends the list.
pub proof fn law_name_not_ended(body: Seq<u8>, pos: int, name: Seq<u8>)
    requires
        0 <= pos,
        pos >= body.len() || (body[pos] != 0 && pos + 1 + body[pos] > body.len()),
    ensures
        domain_names(body, pos, name).len() == 0,
{
}

/// What is read of names depends on the bytes from their place on alone.
pub proof fn law_names_anywhere(before: Seq<u8>, rest: Seq<u8>, pos: int, name: Seq<u8>)
    requires
        0 <= pos,
    ensures
        domain_names(before + rest, before.len() + pos, name) == domain_names(rest, pos, name),
    decreases rest.len() - pos,
{
    let all = before + rest;
    let at = before.len() + pos;
    if pos < rest.len() {
        assert(all[at] == rest[pos]);
        let len = rest[pos] as int;
        if len == 0 {
            law_names_anywhere(before, rest, pos + 1, Seq::empty());
        } else if pos + 1 + len <= rest.len() {
            assert(all.subrange(at + 1, at + 1 + len) =~= rest.subrange(pos + 1, pos + 1 + len));
            law_names_anywhere(
                before,
                rest,
                pos + 1 + len,
                name + rest.subrange(pos + 1, pos + 1 + len).push(0x2e),
            );
        }
    }
}

/// Bytes in valid UTF-8 stand for the characters that they encode. Of other
/// bytes nothing is made but by the decoder.
pub proof fn law_text(bytes: Seq<u8>)
    ensures
        text_of(bytes) == if valid_utf8(bytes) {
            decode_utf8(bytes)
        } else {
            utf8_lossy(bytes)
        },
{
}

// Solicitations

/// The fields of a solicitation are written one after the other.
pub proof fn law_solicitation_written(message: RouterSolicitationMessage)
    ensures
        ({
            let wire = message.wire();
            &&& wire.len() == 8
            &&& wire[0] == message.icmp_type
            &&& wire[1] == message.icmp_code
            &&& wire[2] * 256 + wire[3] == message.checksum
            &&& wire[4] * 0x100_0000 + wire[5] * 0x1_0000 + wire[6] * 256 + wire[7]
                == message.reserved
        }),
{
    law_fields_written(message.checksum, message.reserved);
}

/// A solicitation is the message of type 133 in which every other byte is
/// zero, and goes to the group of all routers on the link.
pub proof fn law_solicitation()
    ensures
        solicitation_bytes().len() == 8,
        solicitation_bytes()[0] == 133,
        forall|i: int| 1 <= i < 8 ==> #[trigger] solicitation_bytes()[i] == 0,
        all_routers().bits == 0xff02 * 0x1_0000_0000_0000_0000_0000_0000_0000 + 2,
{
}

// Texts of errors

/// A number is written in decimal digits that denote it, without leading
/// zeros.
pub proof fn law_decimal(n: nat)
    ensures
        decimal(n).len() > 0,
        forall|i: int| 0 <= i < decimal(n).len() ==> '0' <= #[trigger] decimal(n)[i] <= '9',
        decimal(n).fold_left(0int, |v: int, c: char| v * 10 + (c as int - '0' as int)) == n,
        decimal(n)[0] == '0' ==> n == 0 && decimal(n).len() == 1,
{
    lemma_decimal(n, |v: int, c: char| v * 10 + (c as int - '0' as int));
}

proof fn lemma_decimal(n: nat, f: spec_fn(int, char) -> int)
    requires
        forall|v: int, c: char| #[trigger] f(v, c) == v * 10 + (c as int - '0' as int),
    ensures
        decimal(n).len() > 0,
        forall|i: int| 0 <= i < decimal(n).len() ==> '0' <= #[trigger] decimal(n)[i] <= '9',
        decimal(n).fold_left(0int, f) == n,
        decimal(n)[0] == '0' ==> n == 0 && decimal(n).len() == 1,
    decreases n,
{
    if n < 10 {
        let s = decimal(n);
        assert(s.drop_last() =~= Seq::empty());
        reveal_with_fuel(Seq::fold_left, 2);
    } else {
        lemma_decimal(n / 10, f);
        assert(decimal(n).drop_last() =~= decimal(n / 10));
        reveal_with_fuel(Seq::fold_left, 2);
    }
}

} // verus!
