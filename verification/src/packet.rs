//! Reading the IP header of a packet: version, lengths, protocol, addresses
//! and the ports or ICMP type of the transport header that follows.
use vstd::prelude::*;
use vstd::slice::slice_subrange;
use vstd::string::StringExecFns;

use crate::address::{ipv4_address_text, ipv4_text, ipv6_address_text, ipv6_text};
use crate::hex::{decode_hex, spec_decode_hex};
use crate::text::{decimal_text, push_decimal};

verus! {

/// A request to analyze one packet, written as hexadecimal text.
pub struct PacketAnalysisRequest {
    pub packet_hex: String,
}

/// What the analysis of one packet reports.
pub struct PacketAnalysisResponse {
    pub format: String,
    pub summary: String,
    pub packet_length: usize,
    pub details: PacketDetails,
}

/// The header fields that the analysis found; a field stays `None` where the
/// packet does not hold it.
#[derive(Debug, Clone)]
pub struct PacketDetails {
    pub version: Option<u8>,
    pub header_length: Option<u8>,
    pub total_length: Option<u16>,
    pub protocol: Option<String>,
    pub source: Option<String>,
    pub destination: Option<String>,
    pub transport: Option<String>,
    pub notes: Option<String>,
}

/// `PacketDetails` with each text as its sequence of characters.
pub struct DetailsView {
    pub version: Option<u8>,
    pub header_length: Option<u8>,
    pub total_length: Option<u16>,
    pub protocol: Option<Seq<char>>,
    pub source: Option<Seq<char>>,
    pub destination: Option<Seq<char>>,
    pub transport: Option<Seq<char>>,
    pub notes: Option<Seq<char>>,
}

/// `PacketAnalysisResponse` with each text as its sequence of characters.
pub struct ResponseView {
    pub format: Seq<char>,
    pub summary: Seq<char>,
    pub packet_length: usize,
    pub details: DetailsView,
}

/// The characters of an optional text.
pub open spec fn opt_text(o: Option<String>) -> Option<Seq<char>> {
    match o {
        Some(s) => Some(s@),
        None => None,
    }
}

impl View for PacketDetails {
    type V = DetailsView;

    open spec fn view(&self) -> DetailsView {
        DetailsView {
            version: self.version,
            header_length: self.header_length,
            total_length: self.total_length,
            protocol: opt_text(self.protocol),
            source: opt_text(self.source),
            destination: opt_text(self.destination),
            transport: opt_text(self.transport),
            notes: opt_text(self.notes),
        }
    }
}

impl View for PacketAnalysisResponse {
    type V = ResponseView;

    open spec fn view(&self) -> ResponseView {
        ResponseView {
            format: self.format@,
            summary: self.summary@,
            packet_length: self.packet_length,
            details: self.details@,
        }
    }
}

/// Details with no field known.
pub open spec fn empty_details() -> DetailsView {
    DetailsView {
        version: None,
        header_length: None,
        total_length: None,
        protocol: None,
        source: None,
        destination: None,
        transport: None,
        notes: None,
    }
}

impl Default for PacketDetails {
    fn default() -> (details: Self)
        ensures
            details@ == empty_details(),
    {
        PacketDetails {
            version: None,
            header_length: None,
            total_length: None,
            protocol: None,
            source: None,
            destination: None,
            transport: None,
            notes: None,
        }
    }
}

/// The 16-bit number whose big-endian bytes are `hi`, `lo`.
pub open spec fn be_u16(hi: u8, lo: u8) -> u16 {
    (hi * 256 + lo) as u16
}

fn read_be_u16(hi: u8, lo: u8) -> (v: u16)
    ensures
        v == be_u16(hi, lo),
{
    (hi as u16) * 256 + (lo as u16)
}

/// The name of an IP protocol number.
pub open spec fn spec_protocol_name(protocol: u8) -> Seq<char> {
    if protocol == 1 {
        "ICMP"@
    } else if protocol == 6 {
        "TCP"@
    } else if protocol == 17 {
        "UDP"@
    } else if protocol == 58 {
        "ICMPv6"@
    } else {
        "OTHER"@
    }
}

/// What the transport header at the start of `payload` says: ports for TCP
/// and UDP, type and code for ICMP and ICMPv6; `None` for another protocol or
/// a payload too short for those fields.
pub open spec fn spec_parse_transport(payload: Seq<u8>, protocol: u8) -> Option<Seq<char>> {
    if protocol == 6 && payload.len() >= 4 {
        Some(
            "TCP "@ + decimal_text(be_u16(payload[0], payload[1]) as nat) + " -> "@ + decimal_text(
                be_u16(payload[2], payload[3]) as nat,
            ),
        )
    } else if protocol == 17 && payload.len() >= 4 {
        Some(
            "UDP "@ + decimal_text(be_u16(payload[0], payload[1]) as nat) + " -> "@ + decimal_text(
                be_u16(payload[2], payload[3]) as nat,
            ),
        )
    } else if protocol == 1 && payload.len() >= 2 {
        Some(
            "ICMP type "@ + decimal_text(payload[0] as nat) + " code "@ + decimal_text(
                payload[1] as nat,
            ),
        )
    } else if protocol == 58 && payload.len() >= 2 {
        Some(
            "ICMPv6 type "@ + decimal_text(payload[0] as nat) + " code "@ + decimal_text(
                payload[1] as nat,
            ),
        )
    } else {
        None
    }
}

/// The report on `bytes` as an IPv4 packet, starting from `details`.
pub open spec fn spec_parse_ipv4(
    bytes: Seq<u8>,
    packet_length: usize,
    details: DetailsView,
) -> ResponseView {
    if bytes.len() < 20 {
        ResponseView {
            format: "ipv4"@,
            summary: "Invalid IPv4 packet"@,
            packet_length,
            details: DetailsView { notes: Some("packet too short for IPv4 header"@), ..details },
        }
    } else {
        let header_length = (bytes[0] % 16) * 4;
        let protocol = bytes[9];
        let source = ipv4_text(bytes.subrange(12, 16));
        let destination = ipv4_text(bytes.subrange(16, 20));
        let name = spec_protocol_name(protocol);
        ResponseView {
            format: "ipv4"@,
            summary: "IPv4 packet from "@ + source + " to "@ + destination + " using "@ + name,
            packet_length,
            details: DetailsView {
                header_length: Some(header_length as u8),
                total_length: Some(be_u16(bytes[2], bytes[3])),
                protocol: Some(name),
                source: Some(source),
                destination: Some(destination),
                transport: if header_length <= bytes.len() {
                    spec_parse_transport(bytes.subrange(header_length as int, bytes.len() as int), protocol)
                } else {
                    details.transport
                },
                ..details
            },
        }
    }
}

/// The report on `bytes` as an IPv6 packet, starting from `details`.
pub open spec fn spec_parse_ipv6(
    bytes: Seq<u8>,
    packet_length: usize,
    details: DetailsView,
) -> ResponseView {
    if bytes.len() < 40 {
        ResponseView {
            format: "ipv6"@,
            summary: "Invalid IPv6 packet"@,
            packet_length,
            details: DetailsView { notes: Some("packet too short for IPv6 header"@), ..details },
        }
    } else {
        let next_header = bytes[6];
        let source = ipv6_text(bytes.subrange(8, 24));
        let destination = ipv6_text(bytes.subrange(24, 40));
        let name = spec_protocol_name(next_header);
        ResponseView {
            format: "ipv6"@,
            summary: "IPv6 packet from "@ + source + " to "@ + destination + " using "@ + name,
            packet_length,
            details: DetailsView {
                header_length: Some(40),
                total_length: Some(be_u16(bytes[4], bytes[5])),
                protocol: Some(name),
                source: Some(source),
                destination: Some(destination),
                transport: if bytes.len() > 40 {
                    spec_parse_transport(bytes.subrange(40, bytes.len() as int), next_header)
                } else {
                    details.transport
                },
                ..details
            },
        }
    }
}

/// The report on a packet: empty, IPv4, IPv6, or of an unknown version, told
/// apart by the high four bits of the first byte.
pub open spec fn spec_parse_packet(bytes: Seq<u8>) -> ResponseView {
    let packet_length = bytes.len() as usize;
    if bytes.len() == 0 {
        ResponseView {
            format: "empty"@,
            summary: "No packet data provided"@,
            packet_length,
            details: DetailsView { notes: Some("packet is empty"@), ..empty_details() },
        }
    } else {
        let version = (bytes[0] / 16) as u8;
        let details = DetailsView { version: Some(version), ..empty_details() };
        if version == 4 {
            spec_parse_ipv4(bytes, packet_length, details)
        } else if version == 6 {
            spec_parse_ipv6(bytes, packet_length, details)
        } else {
            ResponseView {
                format: "unknown"@,
                summary: "Unrecognized packet version: "@ + decimal_text(version as nat),
                packet_length,
                details: DetailsView {
                    notes: Some("unsupported or unknown IP version"@),
                    ..details
                },
            }
        }
    }
}

/// The name of an IP protocol number (`OTHER` for those it does not know).
pub fn protocol_name(protocol: u8) -> (name: &'static str)
    ensures
        name@ == spec_protocol_name(protocol),
{
    match protocol {
        1 => "ICMP",
        6 => "TCP",
        17 => "UDP",
        58 => "ICMPv6",
        _ => "OTHER",
    }
}

/// Describes the transport header at the start of `payload`.
pub fn parse_transport(payload: &[u8], protocol: u8) -> (res: Option<String>)
    ensures
        opt_text(res) == spec_parse_transport(payload@, protocol),
{
    if (protocol == 6 || protocol == 17) && payload.len() >= 4 {
        let mut text = if protocol == 6 {
            String::from_str("TCP ")
        } else {
            String::from_str("UDP ")
        };
        push_decimal(&mut text, read_be_u16(payload[0], payload[1]));
        text.append(" -> ");
        push_decimal(&mut text, read_be_u16(payload[2], payload[3]));
        Some(text)
    } else if (protocol == 1 || protocol == 58) && payload.len() >= 2 {
        let mut text = if protocol == 1 {
            String::from_str("ICMP type ")
        } else {
            String::from_str("ICMPv6 type ")
        };
        push_decimal(&mut text, payload[0] as u16);
        text.append(" code ");
        push_decimal(&mut text, payload[1] as u16);
        Some(text)
    } else {
        None
    }
}

/// Appends `from <source> to <destination> using <name>` to `summary`.
fn push_route(summary: &mut String, source: &str, destination: &str, name: &str)
    ensures
        final(summary)@ == old(summary)@ + source@ + " to "@ + destination@ + " using "@ + name@,
{
    let ghost start = summary@;
    summary.append(source);
    summary.append(" to ");
    summary.append(destination);
    summary.append(" using ");
    summary.append(name);
    assert(summary@ =~= start + source@ + " to "@ + destination@ + " using "@ + name@);
}

/// Reads `bytes` as an IPv4 packet; a packet shorter than the 20-byte header
/// is reported as invalid, with a note.
pub fn parse_ipv4_packet(
    bytes: &[u8],
    packet_length: usize,
    mut details: PacketDetails,
) -> (res: PacketAnalysisResponse)
    ensures
        res@ == spec_parse_ipv4(bytes@, packet_length, details@),
{
    let ghost given = details@;
    if bytes.len() < 20 {
        details.notes = Some(String::from_str("packet too short for IPv4 header"));
        return PacketAnalysisResponse {
            format: String::from_str("ipv4"),
            summary: String::from_str("Invalid IPv4 packet"),
            packet_length,
            details,
        };
    }
    let first = bytes[0];
    let ihl = first & 0x0f;
    assert(first & 0x0f == first % 16) by (bit_vector);
    details.header_length = Some(ihl * 4);
    details.total_length = Some(read_be_u16(bytes[2], bytes[3]));
    let protocol = bytes[9];
    let source = ipv4_address_text(slice_subrange(bytes, 12, 16));
    let destination = ipv4_address_text(slice_subrange(bytes, 16, 20));
    details.source = Some(source.clone());
    details.destination = Some(destination.clone());
    let name = protocol_name(protocol);
    details.protocol = Some(String::from_str(name));
    let header_end = (ihl as usize) * 4;
    if header_end <= bytes.len() {
        details.transport = parse_transport(
            slice_subrange(bytes, header_end, bytes.len()),
            protocol,
        );
    }
    let mut summary = String::from_str("IPv4 packet from ");
    push_route(&mut summary, source.as_str(), destination.as_str(), name);
    let res = PacketAnalysisResponse {
        format: String::from_str("ipv4"),
        summary,
        packet_length,
        details,
    };
    assert(res@.details == spec_parse_ipv4(bytes@, packet_length, given).details);
    res
}

/// Reads `bytes` as an IPv6 packet; a packet shorter than the 40-byte header
/// is reported as invalid, with a note.
pub fn parse_ipv6_packet(
    bytes: &[u8],
    packet_length: usize,
    mut details: PacketDetails,
) -> (res: PacketAnalysisResponse)
    ensures
        res@ == spec_parse_ipv6(bytes@, packet_length, details@),
{
    let ghost given = details@;
    if bytes.len() < 40 {
        details.notes = Some(String::from_str("packet too short for IPv6 header"));
        return PacketAnalysisResponse {
            format: String::from_str("ipv6"),
            summary: String::from_str("Invalid IPv6 packet"),
            packet_length,
            details,
        };
    }
    details.header_length = Some(40);
    details.total_length = Some(read_be_u16(bytes[4], bytes[5]));
    let next_header = bytes[6];
    let source = ipv6_address_text(slice_subrange(bytes, 8, 24));
    let destination = ipv6_address_text(slice_subrange(bytes, 24, 40));
    details.source = Some(source.clone());
    details.destination = Some(destination.clone());
    let name = protocol_name(next_header);
    details.protocol = Some(String::from_str(name));
    if bytes.len() > 40 {
        details.transport = parse_transport(slice_subrange(bytes, 40, bytes.len()), next_header);
    }
    let mut summary = String::from_str("IPv6 packet from ");
    push_route(&mut summary, source.as_str(), destination.as_str(), name);
    let res = PacketAnalysisResponse {
        format: String::from_str("ipv6"),
        summary,
        packet_length,
        details,
    };
    assert(res@.details == spec_parse_ipv6(bytes@, packet_length, given).details);
    res
}

/// Analyzes the packet `bytes`: its IP version decides how the rest is read.
pub fn parse_packet(bytes: &[u8]) -> (res: PacketAnalysisResponse)
    ensures
        res@ == spec_parse_packet(bytes@),
{
    let mut details = PacketDetails::default();
    let packet_length = bytes.len();
    if bytes.len() == 0 {
        details.notes = Some(String::from_str("packet is empty"));
        return PacketAnalysisResponse {
            format: String::from_str("empty"),
            summary: String::from_str("No packet data provided"),
            packet_length,
            details,
        };
    }
    let first = bytes[0];
    let version = first >> 4;
    assert(first >> 4 == first / 16) by (bit_vector);
    details.version = Some(version);
    if version == 4 {
        parse_ipv4_packet(bytes, packet_length, details)
    } else if version == 6 {
        parse_ipv6_packet(bytes, packet_length, details)
    } else {
        details.notes = Some(String::from_str("unsupported or unknown IP version"));
        let mut summary = String::from_str("Unrecognized packet version: ");
        push_decimal(&mut summary, version as u16);
        PacketAnalysisResponse { format: String::from_str("unknown"), summary, packet_length, details }
    }
}

/// Decodes the request's hexadecimal text and analyzes the packet it spells;
/// text that is no valid hexadecimal gives the decoding error instead.
pub fn analyze_packet(request: &PacketAnalysisRequest) -> (res: Result<
    PacketAnalysisResponse,
    String,
>)
    ensures
        match spec_decode_hex(request.packet_hex@) {
            Ok(bytes) => res is Ok && res->Ok_0@ == spec_parse_packet(bytes),
            Err(message) => res is Err && res->Err_0@ == message,
        },
{
    match decode_hex(request.packet_hex.as_str()) {
        Ok(bytes) => Ok(parse_packet(bytes.as_slice())),
        Err(message) => Err(message),
    }
}


/// Whether `bytes` holds the whole fixed header of the IP version that its
/// first byte names (20 bytes for IPv4, 40 for IPv6).
pub open spec fn holds_full_header(bytes: Seq<u8>) -> bool {
    &&& bytes.len() > 0
    &&& (bytes[0] / 16 == 4 && bytes.len() >= 20) || (bytes[0] / 16 == 6 && bytes.len() >= 40)
}

/// Every packet gets a report: its length is the packet's length, the
/// version is the high four bits of the first byte, a note is given exactly
/// when the packet is empty, of an unknown version or too short for its
/// header, and the addresses and protocol are reported exactly otherwise.
pub proof fn lemma_every_packet_is_reported(bytes: Seq<u8>)
    requires
        bytes.len() <= usize::MAX,
    ensures
        ({
            let r = spec_parse_packet(bytes);
            &&& r.packet_length == bytes.len()
            &&& bytes.len() == 0 ==> r.format == "empty"@ && r.details.version is None
            &&& bytes.len() > 0 ==> r.details.version == Some((bytes[0] / 16) as u8)
            &&& (r.details.notes is Some) == !holds_full_header(bytes)
            &&& (r.details.source is Some) == holds_full_header(bytes)
            &&& (r.details.destination is Some) == holds_full_header(bytes)
            &&& (r.details.protocol is Some) == holds_full_header(bytes)
            &&& (r.details.header_length is Some) == holds_full_header(bytes)
        }),
{
}

/// A transport description is given exactly for TCP and UDP with room for
/// both ports, and for ICMP and ICMPv6 with room for type and code.
pub proof fn lemma_transport_reported_exactly_when(payload: Seq<u8>, protocol: u8)
    ensures
        (spec_parse_transport(payload, protocol) is Some) == (((protocol == 6 || protocol == 17)
            && payload.len() >= 4) || ((protocol == 1 || protocol == 58) && payload.len() >= 2)),
{
}


/// Each protocol name belongs to exactly one number, and every other number
/// is named `OTHER`.
pub proof fn lemma_protocol_name_is_exact(protocol: u8)
    ensures
        (spec_protocol_name(protocol) == "ICMP"@) == (protocol == 1),
        (spec_protocol_name(protocol) == "TCP"@) == (protocol == 6),
        (spec_protocol_name(protocol) == "UDP"@) == (protocol == 17),
        (spec_protocol_name(protocol) == "ICMPv6"@) == (protocol == 58),
        (spec_protocol_name(protocol) == "OTHER"@) == (protocol != 1 && protocol != 6 && protocol
            != 17 && protocol != 58),
{
    reveal_strlit("ICMP");
    reveal_strlit("TCP");
    reveal_strlit("UDP");
    reveal_strlit("ICMPv6");
    reveal_strlit("OTHER");
    assert("ICMP"@.len() == 4 && "TCP"@.len() == 3 && "UDP"@.len() == 3 && "ICMPv6"@.len() == 6
        && "OTHER"@.len() == 5);
    assert("TCP"@[0] != "UDP"@[0]);
    assert("ICMP"@[0] != "OTHER"@[0]);
}

/// For TCP and UDP the ports are the two big-endian 16-bit numbers at the
/// start of the payload, source first, in decimal; for ICMP and ICMPv6 the
/// type and code are the first two bytes, in decimal.
pub proof fn lemma_transport_fields(payload: Seq<u8>, protocol: u8)
    ensures
        (protocol == 6 || protocol == 17) && payload.len() >= 4 ==> spec_parse_transport(
            payload,
            protocol,
        ) == Some(
            (if protocol == 6 {
                "TCP "@
            } else {
                "UDP "@
            }) + decimal_text(payload[0] as nat * 256 + payload[1] as nat) + " -> "@
                + decimal_text(payload[2] as nat * 256 + payload[3] as nat),
        ),
        (protocol == 1 || protocol == 58) && payload.len() >= 2 ==> spec_parse_transport(
            payload,
            protocol,
        ) == Some(
            (if protocol == 1 {
                "ICMP type "@
            } else {
                "ICMPv6 type "@
            }) + decimal_text(payload[0] as nat) + " code "@ + decimal_text(payload[1] as nat),
        ),
{
    if payload.len() >= 4 {
        assert(be_u16(payload[0], payload[1]) as nat == payload[0] as nat * 256 + payload[1] as nat);
        assert(be_u16(payload[2], payload[3]) as nat == payload[2] as nat * 256 + payload[3] as nat);
    }
}

/// The IPv4 fields come from their fixed places in the header: header length
/// is four times the low four bits of byte 0, total length the big-endian
/// number in bytes 2 and 3, the protocol byte 9, the source bytes 12..16 and
/// the destination bytes 16..20, each address in dotted decimal; the summary
/// names the same source, destination and protocol.
pub proof fn lemma_ipv4_header_fields(bytes: Seq<u8>, packet_length: usize, details: DetailsView)
    requires
        bytes.len() >= 20,
    ensures
        ({
            let r = spec_parse_ipv4(bytes, packet_length, details);
            let source = decimal_text(bytes[12] as nat) + seq!['.'] + decimal_text(bytes[13] as nat)
                + seq!['.'] + decimal_text(bytes[14] as nat) + seq!['.'] + decimal_text(
                bytes[15] as nat,
            );
            let destination = decimal_text(bytes[16] as nat) + seq!['.'] + decimal_text(
                bytes[17] as nat,
            ) + seq!['.'] + decimal_text(bytes[18] as nat) + seq!['.'] + decimal_text(
                bytes[19] as nat,
            );
            &&& r.details.header_length matches Some(h) && h as int == 4 * (bytes[0] as int % 16)
            &&& r.details.total_length matches Some(t) && t as int == bytes[2] as int * 256
                + bytes[3] as int
            &&& r.details.protocol == Some(spec_protocol_name(bytes[9]))
            &&& r.details.source == Some(source)
            &&& r.details.destination == Some(destination)
            &&& r.summary == "IPv4 packet from "@ + source + " to "@ + destination + " using "@
                + spec_protocol_name(bytes[9])
            &&& r.details.notes == details.notes
            &&& r.packet_length == packet_length
        }),
{
    let a = bytes.subrange(12, 16);
    let b = bytes.subrange(16, 20);
    assert(a[0] == bytes[12] && a[1] == bytes[13] && a[2] == bytes[14] && a[3] == bytes[15]);
    assert(b[0] == bytes[16] && b[1] == bytes[17] && b[2] == bytes[18] && b[3] == bytes[19]);
}

/// The IPv6 fields come from their fixed places in the header: payload
/// length the big-endian number in bytes 4 and 5, next header byte 6, the
/// source the canonical text of bytes 8..24 and the destination that of
/// bytes 24..40; the summary names the same source, destination and protocol.
pub proof fn lemma_ipv6_header_fields(bytes: Seq<u8>, packet_length: usize, details: DetailsView)
    requires
        bytes.len() >= 40,
    ensures
        ({
            let r = spec_parse_ipv6(bytes, packet_length, details);
            let source = ipv6_text(bytes.subrange(8, 24));
            let destination = ipv6_text(bytes.subrange(24, 40));
            &&& r.details.header_length == Some(40u8)
            &&& r.details.total_length matches Some(t) && t as int == bytes[4] as int * 256
                + bytes[5] as int
            &&& r.details.protocol == Some(spec_protocol_name(bytes[6]))
            &&& r.details.source == Some(source)
            &&& r.details.destination == Some(destination)
            &&& r.summary == "IPv6 packet from "@ + source + " to "@ + destination + " using "@
                + spec_protocol_name(bytes[6])
            &&& r.details.notes == details.notes
            &&& r.packet_length == packet_length
        }),
{
}

} // verus!
