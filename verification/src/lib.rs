//! Analysis of IPv4 and IPv6 packets given as hexadecimal text.
pub mod address;
pub mod hex;
pub mod packet;
pub mod text;

pub use address::{ipv4_address_text, ipv6_address_text};
pub use hex::{decode_hex, hex_value};
pub use packet::{
    analyze_packet, parse_ipv4_packet, parse_ipv6_packet, parse_packet, parse_transport,
    protocol_name, PacketAnalysisRequest, PacketAnalysisResponse, PacketDetails,
};
