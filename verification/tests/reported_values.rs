use aicrab::text::{push_decimal, push_hex};
use aicrab::{
    analyze_packet, decode_hex, hex_value, ipv4_address_text, ipv6_address_text, parse_ipv4_packet,
    parse_ipv6_packet, parse_packet, parse_transport, PacketAnalysisRequest, PacketDetails,
};

fn ipv6(groups: [u16; 8]) -> String {
    let mut octets = Vec::new();
    for g in groups {
        octets.push((g >> 8) as u8);
        octets.push((g & 0xff) as u8);
    }
    ipv6_address_text(&octets)
}

#[test]
fn decimal_and_hex_rendering() {
    let mut s = String::from("n=");
    push_decimal(&mut s, 0);
    assert_eq!(s, "n=0");
    let mut s = String::new();
    push_decimal(&mut s, 65535);
    assert_eq!(s, "65535");
    let mut s = String::new();
    push_hex(&mut s, 0xfe80);
    assert_eq!(s, "fe80");
    let mut s = String::new();
    push_hex(&mut s, 0x00ab);
    assert_eq!(s, "ab");
}

#[test]
fn ipv4_dotted_decimal() {
    assert_eq!(ipv4_address_text(&[192, 168, 0, 1]), "192.168.0.1");
    assert_eq!(ipv4_address_text(&[0, 0, 0, 0]), "0.0.0.0");
    assert_eq!(ipv4_address_text(&[255, 255, 255, 255]), "255.255.255.255");
    assert_eq!(ipv4_address_text(&[10, 0, 200, 7]), "10.0.200.7");
}

#[test]
fn ipv6_canonical_text() {
    assert_eq!(ipv6([0; 8]), "::");
    assert_eq!(ipv6([0, 0, 0, 0, 0, 0, 0, 1]), "::1");
    assert_eq!(ipv6([1, 0, 0, 0, 0, 0, 0, 0]), "1::");
    assert_eq!(ipv6([0xfe80, 0, 0, 0, 0, 0, 0, 1]), "fe80::1");
    assert_eq!(ipv6([0x2001, 0xdb8, 0, 0, 1, 0, 0, 1]), "2001:db8::1:0:0:1");
    assert_eq!(ipv6([1, 0, 0, 1, 0, 0, 0, 1]), "1:0:0:1::1");
    assert_eq!(ipv6([1, 0, 2, 3, 4, 5, 6, 7]), "1:0:2:3:4:5:6:7");
    assert_eq!(ipv6([0, 0, 0, 0, 0, 0xffff, 0xc0a8, 0x0001]), "::ffff:192.168.0.1");
    assert_eq!(ipv6([0, 0, 0, 0, 0, 0, 0xc0a8, 0x0001]), "::c0a8:1");
    assert_eq!(ipv6([0xfefe; 8]), "fefe:fefe:fefe:fefe:fefe:fefe:fefe:fefe");
}

#[test]
fn transport_descriptions() {
    assert_eq!(parse_transport(&[0x00, 0x50, 0x1f, 0x90], 6), Some("TCP 80 -> 8080".to_string()));
    assert_eq!(parse_transport(&[0x00, 0x35, 0x00, 0x35, 9], 17), Some("UDP 53 -> 53".to_string()));
    assert_eq!(parse_transport(&[0x08, 0x00], 1), Some("ICMP type 8 code 0".to_string()));
    assert_eq!(parse_transport(&[0x80, 0x00], 58), Some("ICMPv6 type 128 code 0".to_string()));
    assert_eq!(parse_transport(&[0x08], 1), None);
    assert_eq!(parse_transport(&[1, 2, 3], 17), None);
    assert_eq!(parse_transport(&[], 6), None);
}

#[test]
fn hex_errors_name_the_byte() {
    assert_eq!(hex_value(b'G'), Err("invalid hex character: G".to_string()));
    assert_eq!(decode_hex("45GG003c"), Err("invalid hex character: G".to_string()));
    assert_eq!(decode_hex("4x"), Err("invalid hex character: x".to_string()));
    assert_eq!(
        decode_hex("450"),
        Err("packet_hex must contain an even number of hex digits".to_string())
    );
    // 'é' is two UTF-8 bytes; the first, 0xC3, is reported as the character U+00C3.
    assert_eq!(decode_hex("4é5"), Err("invalid hex character: \u{c3}".to_string()));
    assert_eq!(
        decode_hex("é5"),
        Err("packet_hex must contain an even number of hex digits".to_string())
    );
    // An odd count is refused before any bad digit.
    assert_eq!(
        decode_hex("zz0"),
        Err("packet_hex must contain an even number of hex digits".to_string())
    );
}

#[test]
fn hex_decoding_ignores_whitespace_and_case() {
    assert_eq!(decode_hex("4 5\t0\r0\n\x0c"), decode_hex("4500"));
    assert_eq!(decode_hex("deadBEEF"), Ok(vec![0xde, 0xad, 0xbe, 0xef]));
    assert_eq!(decode_hex("DEADBEEF"), decode_hex("deadbeef"));
    assert_eq!(decode_hex("00ff10"), Ok(vec![0x00, 0xff, 0x10]));
    assert_eq!(decode_hex("   "), Ok(vec![]));
}

#[test]
fn ipv4_report_in_full() {
    let bytes = decode_hex("4500001c00010000400600000a000001c0a80002005001bb").unwrap();
    let r = parse_packet(&bytes);
    assert_eq!(r.format, "ipv4");
    assert_eq!(r.summary, "IPv4 packet from 10.0.0.1 to 192.168.0.2 using TCP");
    assert_eq!(r.packet_length, 24);
    assert_eq!(r.details.version, Some(4));
    assert_eq!(r.details.header_length, Some(20));
    assert_eq!(r.details.total_length, Some(28));
    assert_eq!(r.details.source, Some("10.0.0.1".to_string()));
    assert_eq!(r.details.destination, Some("192.168.0.2".to_string()));
    assert_eq!(r.details.transport, Some("TCP 80 -> 443".to_string()));
    assert_eq!(r.details.notes, None);
}

#[test]
fn ipv4_header_length_beyond_packet_keeps_no_transport() {
    // IHL 15 asks for 60 header bytes; the packet has 20.
    let mut bytes = vec![0x4f, 0, 0, 20, 0, 0, 0, 0, 64, 17, 0, 0, 1, 2, 3, 4, 5, 6, 7, 8];
    let r = parse_ipv4_packet(&bytes, 20, PacketDetails::default());
    assert_eq!(r.details.header_length, Some(60));
    assert_eq!(r.details.transport, None);
    bytes[0] = 0x40; // IHL 0: the transport header is read from the first byte
    let r = parse_ipv4_packet(&bytes, 99, PacketDetails::default());
    assert_eq!(r.details.header_length, Some(0));
    assert_eq!(r.details.transport, Some("UDP 16384 -> 20".to_string()));
    assert_eq!(r.packet_length, 99);
}

#[test]
fn ipv6_report_with_transport() {
    let mut bytes = vec![0x60, 0, 0, 0, 0x00, 0x08, 17, 64];
    bytes.extend_from_slice(&[0xfe, 0x80, 0, 0, 0, 0, 0, 0, 0, 0, 0, 0, 0, 0, 0, 1]);
    bytes.extend_from_slice(&[0x20, 0x01, 0x0d, 0xb8, 0, 0, 0, 0, 0, 0, 0, 0, 0, 0, 0, 2]);
    bytes.extend_from_slice(&[0x04, 0xd2, 0x00, 0x35]);
    let r = parse_packet(&bytes);
    assert_eq!(r.format, "ipv6");
    assert_eq!(r.summary, "IPv6 packet from fe80::1 to 2001:db8::2 using UDP");
    assert_eq!(r.details.total_length, Some(8));
    assert_eq!(r.details.header_length, Some(40));
    assert_eq!(r.details.transport, Some("UDP 1234 -> 53".to_string()));
    let r = parse_ipv6_packet(&bytes[..40], 40, PacketDetails::default());
    assert_eq!(r.details.transport, None);
    assert_eq!(r.details.version, None);
}

#[test]
fn malformed_packets_carry_notes() {
    let r = parse_packet(&[]);
    assert_eq!(r.summary, "No packet data provided");
    assert_eq!(r.details.notes, Some("packet is empty".to_string()));
    let r = parse_packet(&[0xf5, 0, 0, 0]);
    assert_eq!(r.summary, "Unrecognized packet version: 15");
    assert_eq!(r.details.notes, Some("unsupported or unknown IP version".to_string()));
    assert_eq!(r.details.source, None);
    let r = parse_packet(&[0x45]);
    assert_eq!(r.format, "ipv4");
    assert_eq!(r.summary, "Invalid IPv4 packet");
    assert_eq!(r.details.notes, Some("packet too short for IPv4 header".to_string()));
    assert_eq!(r.details.version, Some(4));
    let r = parse_packet(&[0x60; 39]);
    assert_eq!(r.summary, "Invalid IPv6 packet");
    assert_eq!(r.details.notes, Some("packet too short for IPv6 header".to_string()));
}

#[test]
fn analysis_of_requests() {
    let ok = analyze_packet(&PacketAnalysisRequest { packet_hex: "45 00 00 14 00 00 10 00 40 11 00 00 0a 00 00 01 0a 00 00 02".to_string() }).unwrap();
    assert_eq!(ok.format, "ipv4");
    assert_eq!(ok.details.protocol, Some("UDP".to_string()));
    assert_eq!(ok.summary, "IPv4 packet from 10.0.0.1 to 10.0.0.2 using UDP");
    let err = analyze_packet(&PacketAnalysisRequest { packet_hex: "45000028000100004006XYZ!!0a80001c0a800c7".to_string() });
    assert_eq!(err.err(), Some("invalid hex character: X".to_string()));
    let err = analyze_packet(&PacketAnalysisRequest { packet_hex: "450".to_string() });
    assert!(err.is_err());
}
