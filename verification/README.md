# aicrab

Analysis of IPv4 and IPv6 packets that arrive as hexadecimal text, verified
with Verus.

- `src/hex.rs`: decoding hexadecimal text (whitespace ignored, either case),
  with the exact error for an odd digit count or a bad digit, and the laws
  of decoding (round trip, whitespace and case do not matter).
- `src/text.rs`: decimal and hexadecimal rendering of numbers.
- `src/address.rs`: dotted-decimal IPv4 text and canonical IPv6 text
  (RFC 5952), with the proof that the compressed run is the first longest.
- `src/packet.rs`: the report on a packet (version, lengths, protocol,
  addresses, transport ports or ICMP type), each stated over a model of the
  report.
- `app/main.rs`: the HTTP service (axum, tokio, serde) around the library.
