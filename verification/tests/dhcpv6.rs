use dhcpv6_pd::addr::Ipv6Address;
use dhcpv6_pd::codec::{construct_dhcp_reply, parse_dhcp_message};
use dhcpv6_pd::pool::{Dhcpv6Server, Ipv6Prefix};

const POOL_START: u128 = 0x2001_0db8_0000_0000_0000_0000_0000_0000;

fn server(pool_size: u32, prefix_length: u8) -> Dhcpv6Server {
    Dhcpv6Server::new(Ipv6Address { value: POOL_START }, pool_size, prefix_length)
}

#[test]
fn pool_serves_exactly_its_size() {
    let mut s = server(2, 64);
    assert!(s.allocate_prefix("aa").is_some());
    assert!(s.allocate_prefix("bb").is_some());
    assert!(s.allocate_prefix("cc").is_none());
    assert_eq!(s.allocated_prefixes.len(), 2);
    // the failed allocation left no trace
    assert!(s.allocate_prefix("cc").is_none());
    assert_eq!(s.allocated_prefixes.len(), 2);
}

#[test]
fn pool_of_size_zero_rejects_first_client() {
    let mut s = server(0, 64);
    assert!(s.allocate_prefix("aa").is_none());
}

#[test]
fn repeated_allocation_is_idempotent() {
    let mut s = server(4, 64);
    let first = s.allocate_prefix("aa").unwrap();
    let again = s.allocate_prefix("aa").unwrap();
    assert_eq!(first, again);
    assert_eq!(s.allocated_prefixes.len(), 1);
}

#[test]
fn release_then_reallocate_may_move_the_client() {
    // Offsets derive from the table size, so releasing a non-last entry
    // makes the next allocation collide with a live lease: recorded
    // behavior, not a desirable property.
    let mut s = server(4, 64);
    let a_first = s.allocate_prefix("aa").unwrap();
    let b = s.allocate_prefix("bb").unwrap();
    s.release_prefix("aa");
    let a_second = s.allocate_prefix("aa").unwrap();
    assert_ne!(a_first, a_second);
    assert_eq!(a_second, b);
}

#[test]
fn releasing_an_absent_identifier_is_a_no_op() {
    let mut s = server(2, 64);
    s.allocate_prefix("aa").unwrap();
    s.release_prefix("bb");
    assert_eq!(s.allocated_prefixes.len(), 1);
}

#[test]
fn successive_prefixes_step_above_the_prefix_boundary() {
    let mut s = server(4, 64);
    let first = s.allocate_prefix("aa").unwrap();
    let second = s.allocate_prefix("bb").unwrap();
    assert_eq!(first.base_address.value, POOL_START); // 2001:db8::
    assert_eq!(
        second.base_address.value,
        0x2001_0db8_0000_0001_0000_0000_0000_0000 // 2001:db8:0:1::
    );
    assert_eq!(first.prefix_length, 64);
    assert_eq!(second.prefix_length, 64);
}

#[test]
fn prefix_length_128_steps_by_one() {
    let mut s = server(4, 128);
    let first = s.allocate_prefix("aa").unwrap();
    let second = s.allocate_prefix("bb").unwrap();
    assert_eq!(first.base_address.value, POOL_START);
    assert_eq!(second.base_address.value, POOL_START + 1);
}

#[test]
fn address_advance_wraps_at_128_bits() {
    let top = Ipv6Address { value: u128::MAX };
    let next = Dhcpv6Server::calculate_next_prefix(top, 1, 128);
    assert_eq!(next.value, 0);
}

#[test]
fn decode_rejects_a_bare_header() {
    assert_eq!(parse_dhcp_message(&[1, 2, 3, 4]), None);
    assert_eq!(parse_dhcp_message(&[0, 0, 0, 0]), None);
}

#[test]
fn decode_rejects_an_empty_buffer() {
    assert_eq!(parse_dhcp_message(&[]), None);
}

#[test]
fn decode_rejects_other_message_types() {
    let msg = [7u8, 0, 0, 0, 0, 1, 0, 2, 0xaa, 0xbb];
    assert_eq!(parse_dhcp_message(&msg), None);
}

#[test]
fn decode_finds_the_client_identifier() {
    let msg = [1u8, 9, 9, 9, 0, 1, 0, 2, 0xab, 0xcd];
    assert_eq!(parse_dhcp_message(&msg), Some("abcd".to_string()));
}

#[test]
fn decode_renders_lowercase_hex() {
    let msg = [1u8, 0, 0, 0, 0, 1, 0, 4, 0x0f, 0xa0, 0x00, 0xff];
    assert_eq!(parse_dhcp_message(&msg), Some("0fa000ff".to_string()));
}

#[test]
fn decode_skips_other_options() {
    let msg = [
        1u8, 0, 0, 0, // header
        0, 8, 0, 3, 1, 2, 3, // option 8, length 3
        0, 1, 0, 1, 0x5e, // option 1, length 1
    ];
    assert_eq!(parse_dhcp_message(&msg), Some("5e".to_string()));
}

#[test]
fn decode_tolerates_a_truncated_option() {
    // declared length 9 reads past the end of the buffer
    let msg = [1u8, 0, 0, 0, 0, 1, 0, 9, 0xaa];
    assert_eq!(parse_dhcp_message(&msg), None);
}

#[test]
fn decode_without_client_identifier_finds_nothing() {
    let msg = [1u8, 0, 0, 0, 0, 25, 0, 2, 0xaa, 0xbb];
    assert_eq!(parse_dhcp_message(&msg), None);
}

#[test]
fn encode_produces_the_fixed_reply_layout() {
    let prefix = Ipv6Prefix {
        base_address: Ipv6Address { value: 0x2001_0db8_0000_0000_0000_0000_0000_0001 },
        prefix_length: 64,
    };
    let reply = construct_dhcp_reply("aabb", &prefix);
    let expected = [
        7u8, // message type
        0xaa, 0xbb, 0xcc, // placeholder transaction id
        0x00, 0x01, // client-identifier option
        0x00, 0x02, // payload length
        0xaa, 0xbb, // payload
        0x00, 0x19, // prefix-delegation option
        0x00, 0x14, // length 20
        0xaa, 0xbb, 0xcc, 0xdd, // placeholder IAID
        0x20, 0x01, 0x0d, 0xb8, 0, 0, 0, 0, 0, 0, 0, 0, 0, 0, 0, 0x01, // address
        64,   // prefix length
        0x00, 0x00, // reserved
    ];
    assert_eq!(reply, expected.to_vec());
}

#[test]
fn encode_degrades_invalid_hex_to_an_empty_payload() {
    let prefix = Ipv6Prefix { base_address: Ipv6Address { value: POOL_START }, prefix_length: 48 };
    let reply = construct_dhcp_reply("zz", &prefix);
    // zero-length client-identifier payload
    assert_eq!(&reply[4..8], &[0x00, 0x01, 0x00, 0x00]);
    assert_eq!(reply.len(), 35);
}

#[test]
fn encode_degrades_odd_length_hex_to_an_empty_payload() {
    let prefix = Ipv6Prefix { base_address: Ipv6Address { value: POOL_START }, prefix_length: 48 };
    let reply = construct_dhcp_reply("abc", &prefix);
    assert_eq!(&reply[4..8], &[0x00, 0x01, 0x00, 0x00]);
    assert_eq!(reply.len(), 35);
}

#[test]
fn encode_accepts_uppercase_hex() {
    let prefix = Ipv6Prefix { base_address: Ipv6Address { value: POOL_START }, prefix_length: 48 };
    let reply = construct_dhcp_reply("AABB", &prefix);
    assert_eq!(&reply[8..10], &[0xaa, 0xbb]);
}

#[test]
fn encoded_prefix_reads_back_unchanged() {
    let prefix = Ipv6Prefix {
        base_address: Ipv6Address { value: 0x2001_0db8_00ff_0000_0000_0000_0000_c0de },
        prefix_length: 56,
    };
    let reply = construct_dhcp_reply("0123beef", &prefix);
    let cid_len = 4; // "0123beef" decodes to four bytes
    let addr_at = 16 + cid_len;
    let base_address = Ipv6Address::from_octets(&reply[addr_at..addr_at + 16]);
    let read_back = Ipv6Prefix { base_address, prefix_length: reply[addr_at + 16] };
    assert_eq!(read_back, prefix);
}

#[test]
fn decoded_identifier_round_trips_through_the_encoder() {
    let msg = [1u8, 1, 2, 3, 0, 1, 0, 3, 0x01, 0x2f, 0xe0];
    let id = parse_dhcp_message(&msg).unwrap();
    let mut s = server(1, 64);
    let prefix = s.allocate_prefix(&id).unwrap();
    let reply = construct_dhcp_reply(&id, &prefix);
    // the reply echoes the identifier bytes
    assert_eq!(&reply[8..11], &[0x01, 0x2f, 0xe0]);
}
