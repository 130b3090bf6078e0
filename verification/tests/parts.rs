//! The small parts that the layers are made of.
use ipv6_router_advertisement::address::Ipv6Addr;
use ipv6_router_advertisement::bytes::{
    get_slice, u128_from_be, u16_from_be, u16_to_be, u32_from_be, u32_to_be,
};
use ipv6_router_advertisement::control_message::{find_control_message, ControlHeader};
use ipv6_router_advertisement::error::ParseError;
use ipv6_router_advertisement::list::{contains, duplicate_all, same_list};
use ipv6_router_advertisement::merge::extend_dedup;
use ipv6_router_advertisement::router_advertisement::RouterAdvertisementMessage;
use ipv6_router_advertisement::table::Table;
use ipv6_router_advertisement::time::{Duration, Instant};

#[test]
fn numbers_are_big_endian() {
    assert_eq!(u16_from_be([0x12, 0x34]), 0x1234);
    assert_eq!(u32_from_be([0x12, 0x34, 0x56, 0x78]), 0x1234_5678);
    assert_eq!(u16_to_be(0x1234), [0x12, 0x34]);
    assert_eq!(u32_to_be(0x1234_5678), [0x12, 0x34, 0x56, 0x78]);
    let bytes = [
        0x20, 0x01, 0x0d, 0xb8, 0, 0, 0, 0, 0, 0, 0, 0, 0, 0, 0xff, 0xfe,
    ];
    assert_eq!(u128_from_be(bytes), u128::from_be_bytes(bytes));
    assert_eq!(u128_from_be([0xff; 16]), u128::MAX);
}

#[test]
fn slices_lie_within_the_buffer() {
    let buf = [1, 2, 3, 4];
    assert_eq!(get_slice::<4>(&buf, 0), Ok([1, 2, 3, 4]));
    assert_eq!(get_slice::<2>(&buf, 2), Ok([3, 4]));
    assert_eq!(get_slice::<0>(&buf, 4), Ok([]));
    assert_eq!(get_slice::<2>(&buf, 3), Err(ParseError::Truncated));
    assert_eq!(get_slice::<5>(&buf, 0), Err(ParseError::Truncated));
    assert_eq!(get_slice::<4>(&buf, usize::MAX), Err(ParseError::Truncated));
    assert_eq!(get_slice::<0>(&buf, usize::MAX), Err(ParseError::Truncated));
}

#[test]
fn numbers_survive_writing_and_reading() {
    for value in [0, 1, 255, 256, 0xabcd, u16::MAX] {
        assert_eq!(u16_from_be(u16_to_be(value)), value);
    }
    for value in [0, 1, 0x0102_0304, u32::MAX] {
        assert_eq!(u32_from_be(u32_to_be(value)), value);
    }
}

#[test]
fn addresses_are_made_of_segments() {
    let addr = Ipv6Addr::new(0x2001, 0xdb8, 0, 0, 0, 0, 0xa, 0xffff);
    assert_eq!(addr.bits, 0x2001_0db8_0000_0000_0000_0000_000a_ffff);
}

#[test]
fn time_passes() {
    let t = Instant { nanos: 5 };
    assert_eq!(t.after(Duration::from_secs(2)), Instant { nanos: 2_000_000_005 });
    assert!(Duration::from_secs(0).is_zero());
    assert!(!Duration { nanos: 1 }.is_zero());
}

#[test]
fn errors_tell_their_reason() {
    assert_eq!(ParseError::TruncatedHeader.message(), "Truncated RA");
    assert_eq!(
        ParseError::NotRouterAdvertisement.message(),
        "Not a Router Advertisement"
    );
    assert_eq!(ParseError::Truncated.message(), "Truncated");
    assert_eq!(
        ParseError::InvalidLength { offset: 1024, opt_type: 31 }.message(),
        "InvalidLength on offset 1024 type: 31"
    );
    assert_eq!(
        ParseError::TruncatedOption { offset: 8, opt_len: 16, available: 20 }.message(),
        "Truncated: 24 must be > 20"
    );
    assert_eq!(ParseError::InvalidPrefixLength.message(), "Invalid PIO length");
}

#[test]
fn a_header_is_read_field_by_field() {
    let message = [
        134, 1, 2, 3, 64, 0x80, 7, 8, 0, 0, 1, 0, 0, 0, 0, 9, // an option starts here
        1,
    ];
    let header = RouterAdvertisementMessage::read(&message).unwrap();
    assert_eq!(
        header,
        RouterAdvertisementMessage {
            icmp_type: 134,
            icmp_code: 1,
            checksum: 0x0203,
            cur_hop_limit: 64,
            flags: 0x80,
            router_lifetime: 0x0708,
            reachable_time: 256,
            retrans_timer: 9,
        }
    );
    assert_eq!(
        RouterAdvertisementMessage::read(&message[..15]),
        Err(ParseError::TruncatedHeader)
    );
}

#[test]
fn tables_keep_the_order_of_first_insertion() {
    let mut table: Table<u32, &str> = Table::default();
    table.insert(2, "two");
    table.insert(1, "one");
    table.insert(2, "TWO");
    assert_eq!(table.entries, vec![(2, "TWO"), (1, "one")]);
    assert_eq!(table.find(&1), Some(1));
    assert_eq!(table.get(&3), None);
    *table.get_mut(&1).unwrap() = "ONE";
    assert_eq!(table.remove(&2), Some("TWO"));
    assert_eq!(table.remove(&2), None);
    assert_eq!(table.entries, vec![(1, "ONE")]);
    assert_eq!(table.len(), 1);
    assert!(!table.is_empty());
}

#[test]
fn lists_are_compared_by_their_items() {
    let a = vec!["x".to_string(), "y".to_string()];
    assert!(same_list(&a, &duplicate_all(&a)));
    assert!(!same_list(&a, &vec!["x".to_string()]));
    assert!(!same_list(&a, &vec!["y".to_string(), "x".to_string()]));
    assert!(contains(&a, &"y".to_string()));
    assert!(!contains(&a, &"z".to_string()));
}

#[test]
fn extending_by_known_items_changes_nothing() {
    let mut v: Vec<u32> = vec![3, 1];
    extend_dedup(&mut v, vec![1, 3, 3]);
    assert_eq!(v, vec![3, 1]);
    extend_dedup(&mut v, vec![2, 1, 2]);
    assert_eq!(v, vec![3, 1, 2]);
}

#[test]
fn the_first_matching_control_message_is_found() {
    let wanted = ControlHeader { level: 41, kind: 50 };
    let headers = [
        ControlHeader { level: 41, kind: 52 },
        ControlHeader { level: 58, kind: 50 },
        wanted,
        wanted,
    ];
    assert_eq!(find_control_message(&headers, wanted), Some(2));
    assert_eq!(find_control_message(&headers[..2], wanted), None);
}
