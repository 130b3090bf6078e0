//! Parsing of Router Advertisements and construction of solicitations.
use ipv6_router_advertisement::address::Ipv6Addr;
use ipv6_router_advertisement::bytes::get_slice;
use ipv6_router_advertisement::error::ParseError;
use ipv6_router_advertisement::router_advertisement::{
    decode_router_advertisement, parse_dnssl_domains, parse_flags, parse_prefix_information,
    parse_rdnss_servers, parse_router_advertisement_options, RouterSolicitationBurst,
    RouterSolicitationMessage, ICMPV6_RA_TYPE, ND_OPT_DNSSL, ND_OPT_PREFIX_INFO, ND_OPT_RDNSS,
    RA_HEADER_LEN,
};
use ipv6_router_advertisement::time::Duration;

const LOCALHOST: Ipv6Addr = Ipv6Addr { bits: 1 };
const UNSPECIFIED: Ipv6Addr = Ipv6Addr { bits: 0 };

fn ra_header(flags: u8, router_lifetime: u16) -> Vec<u8> {
    let mut buf = vec![ICMPV6_RA_TYPE, 0, 0, 0, 64, flags];
    buf.extend_from_slice(&router_lifetime.to_be_bytes());
    buf.extend_from_slice(&[0u8; 8]);
    assert_eq!(buf.len(), RA_HEADER_LEN);
    buf
}

fn push_prefix(buf: &mut Vec<u8>, prefix_len: u8, valid: u32, preferred: u32) {
    buf.push(ND_OPT_PREFIX_INFO);
    buf.push(4u8);
    buf.extend_from_slice(&[prefix_len, 0]);
    buf.extend_from_slice(&valid.to_be_bytes());
    buf.extend_from_slice(&preferred.to_be_bytes());
    buf.extend_from_slice(&0u32.to_be_bytes());
    buf.extend_from_slice(&LOCALHOST.bits.to_be_bytes());
}

fn push_dnssl(buf: &mut Vec<u8>, domain: &[u8], lifetime: u32) {
    let padding = (8 - (domain.len() % 8)) % 8;
    let opt_len = 8 + domain.len() + padding;
    buf.push(ND_OPT_DNSSL);
    buf.push((opt_len / 8) as u8);
    buf.extend_from_slice(&[0, 0]);
    buf.extend_from_slice(&lifetime.to_be_bytes());
    buf.extend_from_slice(domain);
    buf.extend(vec![0u8; padding]);
}

// Flags

#[test]
fn test_parse_flags_none() {
    let (managed, other) = parse_flags(0b0000_0000);
    assert!(!managed);
    assert!(!other);
}

#[test]
fn test_parse_flags_managed_only() {
    let (managed, other) = parse_flags(0b1000_0000);
    assert!(managed);
    assert!(!other);
}

#[test]
fn test_parse_flags_other_only() {
    let (managed, other) = parse_flags(0b0100_0000);
    assert!(!managed);
    assert!(other);
}

#[test]
fn test_parse_flags_both() {
    let (managed, other) = parse_flags(0b1100_0000);
    assert!(managed);
    assert!(other);
}

#[test]
fn lower_flag_bits_are_ignored() {
    assert_eq!(parse_flags(0b0011_1111), (false, false));
    assert_eq!(parse_flags(0b1011_1111), (true, false));
}

// Slices

#[test]
fn test_get_slice_ok() {
    let buf = [1, 2, 3, 4, 5, 6];
    let s: [u8; 4] = get_slice(&buf, 1).unwrap();
    assert_eq!(s, [2, 3, 4, 5]);
}

#[test]
fn test_get_slice_truncated() {
    let buf = [1, 2, 3];
    let err = get_slice::<4>(&buf, 0).unwrap_err();
    assert!(err.message().contains("Truncated"));
}

// DNS search lists

#[test]
fn test_parse_dnssl_single_domain() {
    // "example.com."
    let buf = [
        0, 0, 0, 0, 7, b'e', b'x', b'a', b'm', b'p', b'l', b'e', 3, b'c', b'o', b'm', 0,
    ];

    let dnssl = parse_dnssl_domains(&buf).unwrap();
    assert_eq!(dnssl.domains, vec!["example.com."]);
}

#[test]
fn test_parse_dnssl_multiple_domains() {
    // "example.com." + "test.local."
    let buf = [
        0, 0, 0, 0, 7, b'e', b'x', b'a', b'm', b'p', b'l', b'e', 3, b'c', b'o', b'm', 0, 4, b't',
        b'e', b's', b't', 5, b'l', b'o', b'c', b'a', b'l', 0,
    ];

    let dnssl = parse_dnssl_domains(&buf).unwrap();
    assert_eq!(dnssl.domains, vec!["example.com.", "test.local."]);
}

#[test]
fn test_parse_dnssl_truncated_label() {
    // length says 5, only 3 bytes follow
    let buf = [5, b'a', b'b', b'c'];
    let dnssl = parse_dnssl_domains(&buf).unwrap();
    assert!(dnssl.domains.is_empty());
}

#[test]
fn test_dnssl_domains_are_fully_qualified() {
    let buf = [
        0, 0, 0, 0, 3, b'w', b'w', b'w', 7, b'e', b'x', b'a', b'm', b'p', b'l', b'e', 3, b'c',
        b'o', b'm', 0,
    ];

    let dnssl = parse_dnssl_domains(&buf).unwrap();
    assert_eq!(dnssl.domains, vec!["www.example.com."]);
}

#[test]
fn dnssl_keeps_names_before_a_truncated_label() {
    let buf = [0, 0, 0, 9, 1, b'a', 0, 5, b'b'];
    let dnssl = parse_dnssl_domains(&buf).unwrap();
    assert_eq!(dnssl.lifetime, 9);
    assert_eq!(dnssl.domains, vec!["a."]);
}

#[test]
fn dnssl_replaces_invalid_utf8() {
    let buf = [0, 0, 0, 0, 3, b'a', 0xff, b'b', 0];
    let dnssl = parse_dnssl_domains(&buf).unwrap();
    assert_eq!(dnssl.domains, vec!["a\u{fffd}b."]);
}

#[test]
fn dnssl_decodes_multi_byte_characters() {
    let buf = [0, 0, 0, 0, 2, 0xc3, 0xa9, 0];
    let dnssl = parse_dnssl_domains(&buf).unwrap();
    assert_eq!(dnssl.domains, vec!["\u{e9}."]);
}

#[test]
fn dnssl_without_lifetime_is_truncated() {
    assert_eq!(parse_dnssl_domains(&[0, 0, 0]).unwrap_err(), ParseError::Truncated);
}

// DNS servers

#[test]
fn test_parse_rdnss_three_server() {
    let mut buf = Vec::new();

    // Lifetime = 60
    buf.extend_from_slice(&60u32.to_be_bytes());

    // Three IPv6 address
    let addr = LOCALHOST.bits.to_be_bytes();
    buf.extend_from_slice(&addr);
    buf.extend_from_slice(&addr);
    buf.extend_from_slice(&addr);

    let rdnss = parse_rdnss_servers(&buf).unwrap();

    assert_eq!(rdnss.lifetime, 60);
    assert_eq!(rdnss.servers, vec![LOCALHOST, LOCALHOST, LOCALHOST]);
}

#[test]
fn rdnss_ignores_a_partial_address() {
    let mut buf = vec![0, 0, 1, 0];
    buf.extend_from_slice(&LOCALHOST.bits.to_be_bytes());
    buf.extend_from_slice(&[1; 15]);
    let rdnss = parse_rdnss_servers(&buf).unwrap();
    assert_eq!(rdnss.lifetime, 256);
    assert_eq!(rdnss.servers, vec![LOCALHOST]);
}

#[test]
fn rdnss_without_lifetime_is_truncated() {
    assert_eq!(parse_rdnss_servers(&[0, 0, 0]).unwrap_err(), ParseError::Truncated);
}

// Options

#[test]
fn test_parse_ra_options_rdnss_single_server() {
    let mut buf = Vec::new();

    // Type, Length (= 3 * 8 = 24 bytes)
    buf.push(ND_OPT_RDNSS);
    buf.push(3);

    // Reserved
    buf.extend_from_slice(&[0, 0]);

    // Lifetime = 60
    buf.extend_from_slice(&60u32.to_be_bytes());

    // One IPv6 address
    let addr = LOCALHOST.bits.to_be_bytes();
    buf.extend_from_slice(&addr);

    let (rdnss, dnssl, _prefixes) = parse_router_advertisement_options(&buf).unwrap();

    assert_eq!(rdnss[0].lifetime, 60);
    assert_eq!(rdnss[0].servers, vec![LOCALHOST]);
    assert!(dnssl.is_empty());
}

#[test]
fn test_parse_ra_options_dnssl_single_domain() {
    let mut buf = Vec::new();

    // Domain: example.com.
    let domain = [
        7, b'e', b'x', b'a', b'm', b'p', b'l', b'e', 3, b'c', b'o', b'm', 0,
    ];
    push_dnssl(&mut buf, &domain, 120);

    let (rdnss, dnssl, _prefixes) = parse_router_advertisement_options(&buf).unwrap();

    assert!(rdnss.is_empty());
    assert_eq!(dnssl[0].lifetime, 120);
    assert_eq!(dnssl[0].domains, vec!["example.com."]);
}

#[test]
fn test_parse_ra_options_single_prefix() {
    let mut buf = Vec::new();
    push_prefix(&mut buf, 64, 120, 100);

    let (rdnss, dnssl, prefixes) = parse_router_advertisement_options(&buf).unwrap();

    assert!(rdnss.is_empty());
    assert!(dnssl.is_empty());
    assert_eq!(prefixes.len(), 1);
    assert_eq!(prefixes[0].valid_lifetime, 120);
    assert_eq!(prefixes[0].preferred_lifetime, 100);
    assert_eq!(prefixes[0].prefix_len, 64);
    assert_eq!(prefixes[0].prefix, LOCALHOST);
}

#[test]
fn test_parse_ra_options_multiple_prefix() {
    let mut buf = Vec::new();
    push_prefix(&mut buf, 64, 120, 100);
    push_prefix(&mut buf, 56, 80, 60);
    push_prefix(&mut buf, 60, 40, 20);

    let (rdnss, dnssl, prefixes) = parse_router_advertisement_options(&buf).unwrap();

    assert!(rdnss.is_empty());
    assert!(dnssl.is_empty());
    assert_eq!(prefixes.len(), 3);
    assert_eq!(prefixes[0].valid_lifetime, 120);
    assert_eq!(prefixes[0].preferred_lifetime, 100);
    assert_eq!(prefixes[0].prefix_len, 64);
    assert_eq!(prefixes[0].prefix, LOCALHOST);
    assert_eq!(prefixes[1].valid_lifetime, 80);
    assert_eq!(prefixes[1].preferred_lifetime, 60);
    assert_eq!(prefixes[1].prefix_len, 56);
    assert_eq!(prefixes[1].prefix, LOCALHOST);
    assert_eq!(prefixes[2].valid_lifetime, 40);
    assert_eq!(prefixes[2].preferred_lifetime, 20);
    assert_eq!(prefixes[2].prefix_len, 60);
    assert_eq!(prefixes[2].prefix, LOCALHOST);
}

#[test]
fn test_parse_ra_options_ultimate() {
    let mut buf = Vec::new();
    // first prefix
    push_prefix(&mut buf, 64, 120, 100);

    // Domain: example.com.
    let domain = [
        7, b'e', b'x', b'a', b'm', b'p', b'l', b'e', 3, b'c', b'o', b'm', 0,
    ];
    push_dnssl(&mut buf, &domain, 120);

    // servers
    buf.push(ND_OPT_RDNSS);
    buf.push(((8 + 16 + 16 + 16) / 8) as u8);
    buf.extend_from_slice(&[0, 0]);
    // Lifetime = 60
    buf.extend_from_slice(&60u32.to_be_bytes());

    // Three IPv6 address
    let addr = LOCALHOST.bits.to_be_bytes();
    buf.extend_from_slice(&addr);
    buf.extend_from_slice(&addr);
    buf.extend_from_slice(&addr);

    // Prefix
    push_prefix(&mut buf, 56, 80, 60);

    // Domain: example2.com.
    let domain = [
        8, b'e', b'x', b'a', b'm', b'p', b'l', b'e', b'2', 3, b'c', b'o', b'm', 0,
    ];
    push_dnssl(&mut buf, &domain, 120);

    let (rdnss, dnssl, prefixes) = parse_router_advertisement_options(&buf).unwrap();

    assert_eq!(rdnss.len(), 1);
    assert_eq!(dnssl.len(), 2);
    assert_eq!(prefixes.len(), 2);
    assert_eq!(prefixes[0].valid_lifetime, 120);
    assert_eq!(prefixes[0].preferred_lifetime, 100);
    assert_eq!(prefixes[0].prefix_len, 64);
    assert_eq!(prefixes[0].prefix, LOCALHOST);
    assert_eq!(prefixes[1].valid_lifetime, 80);
    assert_eq!(prefixes[1].preferred_lifetime, 60);
    assert_eq!(prefixes[1].prefix_len, 56);
    assert_eq!(prefixes[1].prefix, LOCALHOST);
}

#[test]
fn test_parse_ra_options_invalid_length() {
    let buf = [ND_OPT_RDNSS, 0];
    let err = parse_router_advertisement_options(&buf).unwrap_err();
    assert!(err.message().contains("InvalidLength"));
    assert_eq!(err, ParseError::InvalidLength { offset: 0, opt_type: ND_OPT_RDNSS });
    assert_eq!(err.message(), "InvalidLength on offset 0 type: 25");
}

#[test]
fn test_parse_ra_options_truncated() {
    let buf = [ND_OPT_RDNSS, 2, 0, 0];
    let err = parse_router_advertisement_options(&buf).unwrap_err();
    assert!(err.message().contains("Truncated"));
    assert_eq!(
        err,
        ParseError::TruncatedOption { offset: 0, opt_len: 16, available: 4 }
    );
    assert_eq!(err.message(), "Truncated: 16 must be > 4");
}

#[test]
fn unknown_options_and_a_trailing_byte_are_skipped() {
    let mut buf = vec![1, 1, 0, 0, 0, 0, 0, 0];
    push_prefix(&mut buf, 64, 120, 100);
    buf.push(7);
    let (rdnss, dnssl, prefixes) = parse_router_advertisement_options(&buf).unwrap();
    assert!(rdnss.is_empty());
    assert!(dnssl.is_empty());
    assert_eq!(prefixes.len(), 1);
}

#[test]
fn a_short_prefix_option_is_malformed() {
    let buf = [ND_OPT_PREFIX_INFO, 1, 64, 0, 0, 0, 0, 0];
    let err = parse_router_advertisement_options(&buf).unwrap_err();
    assert_eq!(err, ParseError::InvalidPrefixLength);
    let err = parse_prefix_information(&buf[2..]).unwrap_err();
    assert_eq!(err, ParseError::InvalidPrefixLength);
    assert_eq!(err.message(), "Invalid PIO length");
}

#[test]
fn prefix_flags_are_read() {
    let mut body = vec![48, 0b1100_0000];
    body.extend_from_slice(&1u32.to_be_bytes());
    body.extend_from_slice(&2u32.to_be_bytes());
    body.extend_from_slice(&[0; 4]);
    body.extend_from_slice(&LOCALHOST.bits.to_be_bytes());
    let info = parse_prefix_information(&body).unwrap();
    assert!(info.on_link);
    assert!(info.autonomous);
    assert_eq!(info.prefix_len, 48);
    assert_eq!(info.valid_lifetime, 1);
    assert_eq!(info.preferred_lifetime, 2);
}

// Whole messages

#[test]
fn decode_minimal_ra() {
    let payload = ra_header(0b1100_0000, 1800);

    let router_ip = Ipv6Addr::new(0xfe80, 0, 0, 0, 0, 0, 0, 1);
    let ra = decode_router_advertisement(2, router_ip, &payload).unwrap();

    assert_eq!(ra.ifindex, 2);
    assert_eq!(
        ra.router_ip.bits.to_be_bytes(),
        [0xfe, 0x80, 0, 0, 0, 0, 0, 0, 0, 0, 0, 0, 0, 0, 0, 1]
    );
    assert!(ra.managed);
    assert!(ra.other_config);
    assert_eq!(ra.router_lifetime, 1800);
    assert!(ra.rdnss.is_empty());
    assert!(ra.dnssl.is_empty());
    assert!(ra.prefixes.is_empty());
}

#[test]
fn reject_non_ra_packet() {
    let mut payload = ra_header(0, 0);
    payload[0] = 128; // ICMPv6 Echo Request

    let err = decode_router_advertisement(0, UNSPECIFIED, &payload).unwrap_err();

    assert!(err.message().contains("Not a Router Advertisement"));
}

#[test]
fn reject_truncated_ra() {
    let payload = vec![0u8; RA_HEADER_LEN - 1];

    let err = decode_router_advertisement(0, UNSPECIFIED, &payload).unwrap_err();

    assert!(err.message().contains("Truncated"));
    assert_eq!(err, ParseError::TruncatedHeader);
}

#[test]
fn parse_rdnss_option() {
    let mut payload = ra_header(0, 0);

    // RDNSS option:
    // type = 25
    // length = 3 (24 bytes)
    payload.extend_from_slice(&[
        ND_OPT_RDNSS,
        3,
        0,
        0,
        0,
        0,
        0,
        30, // lifetime = 30
    ]);

    payload.extend_from_slice(&[0x20, 0x01, 0x0d, 0xb8, 0, 0, 0, 0, 0, 0, 0, 0, 0, 0, 0, 1]);

    let ra = decode_router_advertisement(1, UNSPECIFIED, &payload).unwrap();
    let rdnss = ra.rdnss;
    assert_eq!(rdnss.len(), 1);
    assert_eq!(rdnss[0].lifetime, 30);
    assert_eq!(rdnss[0].servers.len(), 1);
    assert_eq!(rdnss[0].servers[0], Ipv6Addr::new(0x2001, 0xdb8, 0, 0, 0, 0, 0, 1));
}

#[test]
fn parse_dnssl_option() {
    let mut payload = ra_header(0, 0);

    let domain = [
        7, b'e', b'x', b'a', b'm', b'p', b'l', b'e', 3, b'c', b'o', b'm', 0,
    ];

    let opt_len = 8 + domain.len();
    let padded_len = (opt_len + 7) & !7;

    payload.push(ND_OPT_DNSSL);
    payload.push((padded_len / 8) as u8);
    payload.extend_from_slice(&[0, 0]); // reserved
    payload.extend_from_slice(&60u32.to_be_bytes());
    payload.extend_from_slice(&domain);
    payload.resize(payload.len() + (padded_len - opt_len), 0);

    let ra = decode_router_advertisement(1, UNSPECIFIED, &payload).unwrap();
    let dnssl = ra.dnssl;
    assert_eq!(dnssl.len(), 1);
    assert_eq!(dnssl[0].lifetime, 60);
    assert_eq!(dnssl[0].domains, vec!["example.com.".to_string()]);
}

#[test]
fn malformed_options_leave_an_advertisement_without_options() {
    let mut payload = ra_header(0, 30);
    push_prefix(&mut payload, 64, 120, 100);
    payload.extend_from_slice(&[ND_OPT_RDNSS, 0]);
    let ra = decode_router_advertisement(1, UNSPECIFIED, &payload).unwrap();
    assert_eq!(ra.router_lifetime, 30);
    assert!(ra.prefixes.is_empty());
}

// Solicitations

#[test]
fn solicitation_bytes_are_type_and_zeros() {
    let message = RouterSolicitationMessage::default();
    assert_eq!(message.as_bytes(), [133, 0, 0, 0, 0, 0, 0, 0]);
    let message = RouterSolicitationMessage {
        icmp_type: 1,
        icmp_code: 2,
        checksum: 0x0304,
        reserved: 0x0506_0708,
    };
    assert_eq!(message.as_bytes(), [1, 2, 3, 4, 5, 6, 7, 8]);
}

#[test]
fn burst_sends_as_many_solicitations_as_asked() {
    let mut burst = RouterSolicitationBurst::new(7, 3, Duration::from_secs(1));
    for _ in 0..3 {
        let s = burst.next_solicitation().unwrap();
        assert_eq!(s.ifindex, 7);
        assert_eq!(s.destination, Ipv6Addr::new(0xff02, 0, 0, 0, 0, 0, 0, 2));
        assert_eq!(s.payload, [133, 0, 0, 0, 0, 0, 0, 0]);
        assert_eq!(s.wait, Duration::from_secs(1));
    }
    assert!(burst.next_solicitation().is_none());
    assert!(burst.next_solicitation().is_none());
}
