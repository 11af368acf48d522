use aicrab::{decode_hex, hex_value, parse_ipv4_packet, parse_ipv6_packet, parse_packet, parse_transport, protocol_name, PacketDetails};


// ===== decode_hex tests =====

#[test]
fn test_decode_hex_valid_lowercase() {
    let result = decode_hex("4500003c").unwrap();
    assert_eq!(result, vec![0x45, 0x00, 0x00, 0x3c]);
}

#[test]
fn test_decode_hex_valid_uppercase() {
    let result = decode_hex("4500003C").unwrap();
    assert_eq!(result, vec![0x45, 0x00, 0x00, 0x3c]);
}

#[test]
fn test_decode_hex_valid_mixed_case() {
    let result = decode_hex("45aB00Cc").unwrap();
    assert_eq!(result, vec![0x45, 0xAB, 0x00, 0xCC]);
}

#[test]
fn test_decode_hex_with_whitespace() {
    let result = decode_hex("45 00 00 3c").unwrap();
    assert_eq!(result, vec![0x45, 0x00, 0x00, 0x3c]);
}

#[test]
fn test_decode_hex_with_newlines() {
    let result = decode_hex("4500\n003c").unwrap();
    assert_eq!(result, vec![0x45, 0x00, 0x00, 0x3c]);
}

#[test]
fn test_decode_hex_odd_length() {
    let result = decode_hex("45000");  // 5 characters = odd
    assert!(result.is_err());
    assert!(result.unwrap_err().contains("even number"));
}

#[test]
fn test_decode_hex_invalid_character() {
    let result = decode_hex("45GG003c");
    assert!(result.is_err());
    assert!(result.unwrap_err().contains("invalid hex character"));
}

#[test]
fn test_decode_hex_special_characters() {
    let result = decode_hex("45!!003c");
    assert!(result.is_err());
}

#[test]
fn test_decode_hex_empty_string() {
    let result = decode_hex("").unwrap();
    assert_eq!(result, vec![]);
}

// ===== hex_value tests =====

#[test]
fn test_hex_value_digits() {
    assert_eq!(hex_value(b'0').unwrap(), 0);
    assert_eq!(hex_value(b'5').unwrap(), 5);
    assert_eq!(hex_value(b'9').unwrap(), 9);
}

#[test]
fn test_hex_value_lowercase() {
    assert_eq!(hex_value(b'a').unwrap(), 10);
    assert_eq!(hex_value(b'f').unwrap(), 15);
}

#[test]
fn test_hex_value_uppercase() {
    assert_eq!(hex_value(b'A').unwrap(), 10);
    assert_eq!(hex_value(b'F').unwrap(), 15);
}

#[test]
fn test_hex_value_invalid() {
    assert!(hex_value(b'G').is_err());
    assert!(hex_value(b'!').is_err());
    assert!(hex_value(b' ').is_err());
}

// ===== protocol_name tests =====

#[test]
fn test_protocol_name_icmp() {
    assert_eq!(protocol_name(1), "ICMP");
}

#[test]
fn test_protocol_name_tcp() {
    assert_eq!(protocol_name(6), "TCP");
}

#[test]
fn test_protocol_name_udp() {
    assert_eq!(protocol_name(17), "UDP");
}

#[test]
fn test_protocol_name_icmpv6() {
    assert_eq!(protocol_name(58), "ICMPv6");
}

#[test]
fn test_protocol_name_unknown() {
    assert_eq!(protocol_name(99), "OTHER");
    assert_eq!(protocol_name(255), "OTHER");
}

// ===== parse_transport tests =====

#[test]
fn test_parse_transport_tcp() {
    let payload = vec![0x00, 0x50, 0x1F, 0x90]; // port 80 -> 8080
    let result = parse_transport(&payload, 6).unwrap();
    assert!(result.contains("TCP"));
    assert!(result.contains("80 -> 8080"));
}

#[test]
fn test_parse_transport_udp() {
    let payload = vec![0x00, 0x35, 0x00, 0x35]; // port 53 -> 53
    let result = parse_transport(&payload, 17).unwrap();
    assert!(result.contains("UDP"));
    assert!(result.contains("53 -> 53"));
}

#[test]
fn test_parse_transport_icmp() {
    let payload = vec![0x08, 0x00]; // echo request, code 0
    let result = parse_transport(&payload, 1).unwrap();
    assert!(result.contains("ICMP"));
    assert!(result.contains("type 8 code 0"));
}

#[test]
fn test_parse_transport_icmpv6() {
    let payload = vec![0x80, 0x00]; // echo request, code 0
    let result = parse_transport(&payload, 58).unwrap();
    assert!(result.contains("ICMPv6"));
    assert!(result.contains("type 128 code 0"));
}

#[test]
fn test_parse_transport_tcp_insufficient_data() {
    let payload = vec![0x00, 0x50]; // only 2 bytes
    let result = parse_transport(&payload, 6);
    assert!(result.is_none());
}

#[test]
fn test_parse_transport_udp_insufficient_data() {
    let payload = vec![0x00]; // only 1 byte
    let result = parse_transport(&payload, 17);
    assert!(result.is_none());
}

#[test]
fn test_parse_transport_unknown_protocol() {
    let payload = vec![0x00, 0x50, 0x1F, 0x90];
    let result = parse_transport(&payload, 99);
    assert!(result.is_none());
}

// ===== parse_packet tests =====

#[test]
fn test_parse_packet_empty() {
    let bytes: Vec<u8> = vec![];
    let response = parse_packet(&bytes);
    assert_eq!(response.format, "empty");
    assert_eq!(response.packet_length, 0);
    assert!(response.details.notes.is_some());
}

#[test]
fn test_parse_packet_ipv4_version() {
    // IPv4 packet starts with version 4
    let bytes = vec![0x45, 0x00, 0x00, 0x3c];
    let response = parse_packet(&bytes);
    assert_eq!(response.details.version, Some(4));
}

#[test]
fn test_parse_packet_ipv6_version() {
    // IPv6 packet starts with version 6
    let bytes = vec![0x60, 0x00, 0x00, 0x00];
    let response = parse_packet(&bytes);
    assert_eq!(response.details.version, Some(6));
}

#[test]
fn test_parse_packet_unknown_version() {
    // Unknown version
    let bytes = vec![0xF5, 0x00, 0x00, 0x00];
    let response = parse_packet(&bytes);
    assert_eq!(response.format, "unknown");
    assert_eq!(response.details.version, Some(15));
}

// ===== parse_ipv4_packet tests =====

#[test]
fn test_parse_ipv4_valid_packet() {
    // Minimal valid IPv4 header (20 bytes)
    let bytes = vec![
        0x45, 0x00, 0x00, 0x1c, // version, IHL, DSCP, total length
        0x00, 0x01, 0x00, 0x00, // ID, flags, fragment offset
        0x40, 0x06, 0x00, 0x00, // TTL, protocol (TCP), checksum
        0xc0, 0xa8, 0x00, 0x01, // source: 192.168.0.1
        0xc0, 0xa8, 0x00, 0x02, // dest: 192.168.0.2
    ];
    let response = parse_ipv4_packet(&bytes, 20, PacketDetails::default());
    assert_eq!(response.format, "ipv4");
    assert_eq!(response.packet_length, 20);
    assert_eq!(response.details.protocol, Some("TCP".to_string()));
    assert_eq!(response.details.source, Some("192.168.0.1".to_string()));
    assert_eq!(response.details.destination, Some("192.168.0.2".to_string()));
}

#[test]
fn test_parse_ipv4_truncated() {
    // Less than 20 bytes
    let bytes = vec![0x45, 0x00, 0x00, 0x0c];
    let response = parse_ipv4_packet(&bytes, 4, PacketDetails::default());
    assert_eq!(response.format, "ipv4");
    assert!(response.details.notes.is_some());
    assert!(response.details.notes.as_ref().unwrap().contains("too short"));
}

#[test]
fn test_parse_ipv4_protocol_udp() {
    // IPv4 with UDP protocol (17)
    let bytes = vec![
        0x45, 0x00, 0x00, 0x1c, 0x00, 0x01, 0x00, 0x00,
        0x40, 0x11, 0x00, 0x00, // protocol = 17 (UDP)
        0xc0, 0xa8, 0x00, 0x01, 0xc0, 0xa8, 0x00, 0x02,
    ];
    let response = parse_ipv4_packet(&bytes, 20, PacketDetails::default());
    assert_eq!(response.details.protocol, Some("UDP".to_string()));
}

#[test]
fn test_parse_ipv4_protocol_icmp() {
    // IPv4 with ICMP protocol (1)
    let bytes = vec![
        0x45, 0x00, 0x00, 0x1c, 0x00, 0x01, 0x00, 0x00,
        0x40, 0x01, 0x00, 0x00, // protocol = 1 (ICMP)
        0xc0, 0xa8, 0x00, 0x01, 0xc0, 0xa8, 0x00, 0x02,
    ];
    let response = parse_ipv4_packet(&bytes, 20, PacketDetails::default());
    assert_eq!(response.details.protocol, Some("ICMP".to_string()));
}

// ===== parse_ipv6_packet tests =====

#[test]
fn test_parse_ipv6_valid_packet() {
    // Valid IPv6 header (40 bytes minimum)
    let mut bytes = vec![
        0x60, 0x00, 0x00, 0x00, // version, DSCP, ECN, flow label
        0x00, 0x00, 0x06, 0x40, // payload length, next header (TCP), hop limit
    ];
    // Add 32 bytes for source and destination addresses
    bytes.extend_from_slice(&[0xfe; 16]); // source
    bytes.extend_from_slice(&[0x20; 16]); // destination
    
    let response = parse_ipv6_packet(&bytes, 40, PacketDetails::default());
    assert_eq!(response.format, "ipv6");
    assert_eq!(response.details.protocol, Some("TCP".to_string()));
    assert_eq!(response.details.header_length, Some(40));
}

#[test]
fn test_parse_ipv6_truncated() {
    // Less than 40 bytes
    let bytes = vec![0x60, 0x00, 0x00, 0x00, 0x00, 0x00, 0x06, 0x40];
    let response = parse_ipv6_packet(&bytes, 8, PacketDetails::default());
    assert_eq!(response.format, "ipv6");
    assert!(response.details.notes.is_some());
    assert!(response.details.notes.as_ref().unwrap().contains("too short"));
}

#[test]
fn test_parse_ipv6_with_udp() {
    // IPv6 with UDP (next header = 17)
    let mut bytes = vec![
        0x60, 0x00, 0x00, 0x00, 0x00, 0x00, 0x11, 0x40, // next header = 17 (UDP)
    ];
    bytes.extend_from_slice(&[0xfe; 16]); // source
    bytes.extend_from_slice(&[0x20; 16]); // destination
    
    let response = parse_ipv6_packet(&bytes, 40, PacketDetails::default());
    assert_eq!(response.details.protocol, Some("UDP".to_string()));
}

// ===== integration tests =====

#[test]
fn test_end_to_end_ipv4_tcp_packet() {
    let hex = "4500001c000100004006000000000000c0a80001c0a80002";
    let bytes = decode_hex(hex).unwrap();
    let response = parse_packet(&bytes);
    
    assert_eq!(response.format, "ipv4");
    assert_eq!(response.details.protocol, Some("TCP".to_string()));
    assert!(response.summary.contains("IPv4 packet"));
}

#[test]
fn test_end_to_end_empty_packet() {
    let hex = "";
    let bytes = decode_hex(hex).unwrap();
    let response = parse_packet(&bytes);
    
    assert_eq!(response.format, "empty");
    assert_eq!(response.packet_length, 0);
}

#[test]
fn test_end_to_end_invalid_hex_then_error() {
    let hex = "45GG";
    let result = decode_hex(hex);
    
    assert!(result.is_err());
}

#[test]
fn test_end_to_end_ipv4_with_options() {
    // IPv4 with IHL = 6 (24 bytes header)
    let hex = "46000018000100004006c0a80001c0a800020000000000000000";
    let bytes = decode_hex(hex).unwrap();
    let response = parse_packet(&bytes);
    
    assert_eq!(response.format, "ipv4");
    assert_eq!(response.details.header_length, Some(24));
}
