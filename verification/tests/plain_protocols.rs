use pktflow::bytes::ParseError;
use pktflow::layer::{
    Depth, Hint, LayerPlugin, LayerRecord, LinkType, PacketMeta, ParseCtx,
    ParsedLayer, RouteId,
};
use pktflow::plugins::arp::{self, Arp};
use pktflow::plugins::dhcp::{self, Dhcp};
use pktflow::plugins::dns::{self, Dns, decode_name};
use pktflow::plugins::icmpv4::{self, Icmpv4};
use pktflow::plugins::icmpv6::{self, Icmpv6};
use pktflow::plugins::igmp::{self, Igmp};
use pktflow::plugins::ipv6::{self, Ipv6};
use pktflow::value::{FieldMap, Value};

fn meta(n: usize) -> PacketMeta {
    PacketMeta {
        timestamp: 0,
        caplen: n,
        origlen: n,
        link_type: LinkType(1),
    }
}

fn parse<P: LayerPlugin>(p: P, bytes: &[u8], depth: Depth) -> Result<ParsedLayer, ParseError> {
    p.parse(bytes, &ParseCtx::new(&[], depth, &meta(bytes.len())))
}

fn bytes_of(b: &[u8]) -> Value {
    Value::from(b)
}

/// Who has 192.0.2.2? Tell 192.0.2.1.
fn arp_request() -> Vec<u8> {
    let mut b = vec![0, 1, 8, 0, 6, 4, 0, 1];
    b.extend_from_slice(&[2, 0, 0, 0, 0, 1]);
    b.extend_from_slice(&[192, 0, 2, 1]);
    b.extend_from_slice(&[0, 0, 0, 0, 0, 0]);
    b.extend_from_slice(&[192, 0, 2, 2]);
    b
}

#[test]
fn arp_reads_both_pairs_of_addresses() {
    let p = parse(Arp, &arp_request(), Depth::Full).expect("a request");
    assert_eq!(p.header_len, 28);
    assert_eq!(p.hint, Hint::Terminal);
    assert_eq!(p.fields.len(), 5);
    assert_eq!(p.fields.get(arp::OPCODE), Some(&Value::U64(1)));
    assert_eq!(p.fields.get(arp::SENDER_MAC), Some(&bytes_of(&[2, 0, 0, 0, 0, 1])));
    assert_eq!(p.fields.get(arp::SENDER_IP), Some(&bytes_of(&[192, 0, 2, 1])));
    assert_eq!(p.fields.get(arp::TARGET_MAC), Some(&bytes_of(&[0; 6])));
    assert_eq!(p.fields.get(arp::TARGET_IP), Some(&bytes_of(&[192, 0, 2, 2])));
    assert!(parse(Arp, &arp_request(), Depth::Keys).expect("a request").fields.is_empty());
    assert!(Arp.stream_identity().is_none());
}

#[test]
fn arp_declines_empty_addresses_and_short_requests() {
    let mut b = arp_request();
    b[4] = 0;
    assert_eq!(
        parse(Arp, &b, Depth::Full),
        Err(ParseError::Malformed("zero address length"))
    );
    for cut in 0..28 {
        assert!(
            matches!(
                parse(Arp, &arp_request()[..cut], Depth::Full),
                Err(ParseError::Truncated(_))
            ),
            "cut at {cut}"
        );
    }
}

/// A request for 192.0.2.9 with options in the given order.
fn dhcp_message(options: &[u8]) -> Vec<u8> {
    let mut b = vec![1, 1, 6, 0, 0xDE, 0xAD, 0xBE, 0xEF];
    b.extend_from_slice(&[0; 20]);
    b.extend_from_slice(&[2, 0, 0, 0, 0, 7]);
    b.extend_from_slice(&[0; 10]);
    b.extend_from_slice(&[0; 64 + 128]);
    b.extend_from_slice(&[0x63, 0x82, 0x53, 0x63]);
    b.extend_from_slice(options);
    b
}

#[test]
fn dhcp_walks_its_options() {
    let b = dhcp_message(&[
        53, 1, 3, 0, 50, 4, 192, 0, 2, 9, 54, 4, 192, 0, 2, 1, 12, 3, b'a', b' ', b'b', 77, 1, 5, 255,
    ]);
    let p = parse(Dhcp, &b, Depth::Full).expect("a message");
    assert_eq!(p.header_len, b.len());
    assert_eq!(p.hint, Hint::Terminal);
    assert_eq!(p.fields.get(dhcp::APP), Some(&Value::from("dhcp")));
    assert_eq!(p.fields.get(dhcp::OP), Some(&Value::U64(1)));
    assert_eq!(p.fields.get(dhcp::MSG_TYPE), Some(&Value::U64(3)));
    assert_eq!(p.fields.get(dhcp::XID), Some(&Value::U64(0xDEAD_BEEF)));
    assert_eq!(p.fields.get(dhcp::CLIENT_MAC), Some(&bytes_of(&[2, 0, 0, 0, 0, 7])));
    assert_eq!(p.fields.get(dhcp::REQUESTED_IP), Some(&bytes_of(&[192, 0, 2, 9])));
    assert_eq!(p.fields.get(dhcp::SERVER_ID), Some(&bytes_of(&[192, 0, 2, 1])));
    assert_eq!(p.fields.get(dhcp::HOSTNAME), Some(&Value::from("a?b")));
    let keys = parse(Dhcp, &b, Depth::Keys).expect("a message");
    assert_eq!(keys.fields.len(), 1);
}

#[test]
fn dhcp_needs_its_cookie_and_its_end() {
    let mut b = dhcp_message(&[255]);
    b[239] = 0;
    assert_eq!(
        parse(Dhcp, &b, Depth::Full),
        Err(ParseError::Malformed("missing DHCP magic cookie"))
    );
    assert!(parse(Dhcp, &dhcp_message(&[53, 1, 3]), Depth::Full).is_err());
    // An option of another size is passed over.
    let p = parse(Dhcp, &dhcp_message(&[53, 2, 3, 3, 255]), Depth::Full).expect("a message");
    assert!(p.fields.get(dhcp::MSG_TYPE).is_none());
}

#[test]
fn icmp_and_igmp_read_their_heads() {
    let b = [8u8, 0, 0x12, 0x34, 0, 1, 0, 2, 0xFF];
    let p = parse(Icmpv4, &b, Depth::Full).expect("an echo");
    assert_eq!((p.header_len, p.hint), (8, Hint::Terminal));
    assert_eq!(p.fields.get(icmpv4::TYPE), Some(&Value::U64(8)));
    assert_eq!(p.fields.get(icmpv4::CODE), Some(&Value::U64(0)));
    assert_eq!(p.fields.get(icmpv4::REST_OF_HEADER), Some(&bytes_of(&[0, 1, 0, 2])));
    assert!(parse(Icmpv4, &b[..7], Depth::Full).is_err());

    let b = [0x16u8, 10, 0, 0, 224, 0, 0, 251];
    let p = parse(Igmp, &b, Depth::Full).expect("a report");
    assert_eq!((p.header_len, p.hint), (8, Hint::Terminal));
    assert_eq!(p.fields.get(igmp::TYPE), Some(&Value::U64(0x16)));
    assert_eq!(p.fields.get(igmp::MAX_RESP), Some(&Value::U64(10)));
    assert_eq!(p.fields.get(igmp::GROUP_ADDR), Some(&bytes_of(&[224, 0, 0, 251])));
    assert!(parse(Igmp, &b[..7], Depth::Full).is_err());
}

#[test]
fn icmpv6_routes_by_type() {
    for t in 0..=255u8 {
        let p = parse(Icmpv6, &[t, 0, 0, 0, 0, 0, 0, 9], Depth::Full).expect("a head");
        assert_eq!(p.fields.get(icmpv6::TYPE), Some(&Value::U64(u64::from(t))));
        let routed = (130..=137).contains(&t) || t == 143;
        let hint = if routed {
            Hint::Route(RouteId::Custom {
                space: "icmpv6_type",
                id: u64::from(t),
            })
        } else {
            Hint::Terminal
        };
        assert_eq!(p.hint, hint, "type {t}");
    }
}

fn ipv6_header(next: u8, payload: &[u8]) -> Vec<u8> {
    let mut b = vec![0x61, 0x23, 0x45, 0x67, 0, payload.len() as u8, next, 64];
    b.extend_from_slice(&[0xFE; 16]);
    b.extend_from_slice(&[0xFD; 16]);
    b.extend_from_slice(payload);
    b
}

#[test]
fn ipv6_walks_extension_headers() {
    let p = parse(Ipv6, &ipv6_header(17, &[]), Depth::Full).expect("a header");
    assert_eq!(p.header_len, 40);
    assert_eq!(p.hint, Hint::Route(RouteId::IpProtocol(17)));
    assert_eq!(p.fields.get(ipv6::SRC_ADDR), Some(&bytes_of(&[0xFE; 16])));
    assert_eq!(p.fields.get(ipv6::DST_ADDR), Some(&bytes_of(&[0xFD; 16])));
    assert_eq!(p.fields.get(ipv6::HOP_LIMIT), Some(&Value::U64(64)));
    assert_eq!(p.fields.get(ipv6::TRAFFIC_CLASS), Some(&Value::U64(0x12)));
    assert_eq!(p.fields.get(ipv6::FLOW_LABEL), Some(&Value::U64(0x3_4567)));

    // Destination options of 16 bytes, then a first fragment of TCP.
    let mut ext = vec![44, 1];
    ext.extend_from_slice(&[0; 14]);
    ext.extend_from_slice(&[6, 0, 0, 1, 0, 0, 0, 9]);
    let p = parse(Ipv6, &ipv6_header(60, &ext), Depth::Full).expect("a header");
    assert_eq!(p.header_len, 64);
    assert_eq!(p.hint, Hint::Route(RouteId::IpProtocol(6)));
    assert_eq!(p.fields.get(ipv6::NEXT_HEADER), Some(&Value::U64(6)));

    // A later fragment holds no transport header.
    let p = parse(Ipv6, &ipv6_header(44, &[6, 0, 0, 8, 0, 0, 0, 9]), Depth::Full).expect("one");
    assert_eq!((p.header_len, p.hint), (48, Hint::Terminal));
}

#[test]
fn ipv6_declines_other_versions_and_long_chains() {
    let mut b = ipv6_header(17, &[]);
    b[0] = 0x41;
    assert_eq!(
        parse(Ipv6, &b, Depth::Full),
        Err(ParseError::Malformed("version nibble is not 6"))
    );
    let mut eight = Vec::new();
    for i in 0..9u8 {
        eight.extend_from_slice(&[if i == 7 { 6 } else { 60 }, 0, 0, 0, 0, 0, 0, 0]);
    }
    assert!(parse(Ipv6, &ipv6_header(60, &eight[..64]), Depth::Full).is_ok());
    let nine = vec![[60u8, 0, 0, 0, 0, 0, 0, 0]; 9].concat();
    assert_eq!(
        parse(Ipv6, &ipv6_header(60, &nine), Depth::Full),
        Err(ParseError::Malformed("extension header chain too long"))
    );
    for cut in 0..40 {
        assert!(parse(Ipv6, &ipv6_header(17, &[])[..cut], Depth::Full).is_err());
    }
}

#[test]
fn ipv6_probe_wants_a_whole_packet() {
    let m = meta(0);
    let c = ParseCtx::new(&[], Depth::Full, &m);
    let b = ipv6_header(17, &[1, 2, 3]);
    assert_eq!(Ipv6.probe(&b, &c).map(|s| s.get()), Some(75));
    assert!(Ipv6.probe(&b[..42], &c).is_none());
    assert!(Ipv6.probe(&b[..39], &c).is_none());
    assert!(Ipv6.probe(&[], &c).is_none());
}

/// A response: one question for `a.example`, then answers.
fn dns_response(answers: &[&[u8]]) -> Vec<u8> {
    let mut b = vec![0x12, 0x34, 0x81, 0x80, 0, 1, 0, answers.len() as u8, 0, 0, 0, 0];
    b.extend_from_slice(b"\x01a\x07example\x00");
    b.extend_from_slice(&[0, 1, 0, 1]);
    for a in answers {
        b.extend_from_slice(a);
    }
    b
}

#[test]
fn dns_renders_answers() {
    let mut aaaa = vec![0xC0, 12, 0, 28, 0, 1, 0, 0, 0, 9, 0, 16, 0x20, 0x01];
    aaaa.extend_from_slice(&[0; 13]);
    aaaa.push(1);
    let b = dns_response(&[
        &[0xC0, 12, 0, 1, 0, 1, 0, 0, 0, 9, 0, 4, 192, 0, 2, 1],
        &aaaa,
        &[0xC0, 12, 0, 5, 0, 1, 0, 0, 0, 9, 0, 2, 0xC0, 14],
        &[0xC0, 12, 0, 16, 0, 1, 0, 0, 0, 9, 0, 1, 0],
    ]);
    let p = parse(Dns, &b, Depth::Full).expect("a response");
    assert_eq!(p.header_len, b.len());
    assert_eq!(p.hint, Hint::Terminal);
    assert_eq!(p.fields.get(dns::APP), Some(&Value::from("dns")));
    assert_eq!(p.fields.get(dns::ID), Some(&Value::U64(0x1234)));
    assert_eq!(p.fields.get(dns::IS_RESPONSE), Some(&Value::Bool(true)));
    assert_eq!(p.fields.get(dns::OPCODE), Some(&Value::U64(0)));
    assert_eq!(p.fields.get(dns::RCODE), Some(&Value::U64(0)));
    assert_eq!(p.fields.get(dns::QNAME), Some(&Value::from("a.example")));
    assert_eq!(p.fields.get(dns::QTYPE), Some(&Value::U64(1)));
    assert_eq!(
        p.fields.get(dns::ANSWERS),
        Some(&Value::List(vec![
            Value::from("192.0.2.1"),
            Value::from("2001:0:0:0:0:0:0:1"),
            Value::from("example"),
            Value::from("type16"),
        ]))
    );
    assert_eq!(p.fields.get(dns::QDCOUNT), Some(&Value::U64(1)));
    assert_eq!(p.fields.get(dns::ANCOUNT), Some(&Value::U64(4)));
    for cut in 0..b.len() {
        assert!(parse(Dns, &b[..cut], Depth::Full).is_err(), "cut at {cut}");
    }
}

#[test]
fn dns_over_tcp_has_a_length_first() {
    let msg = dns_response(&[]);
    let mut b = vec![0, msg.len() as u8];
    b.extend_from_slice(&msg);
    b.push(0xEE);
    let outer = [LayerRecord {
        protocol: "tcp",
        offset: 0,
        header_len: 20,
        fields: FieldMap::new(),
    }];
    let m = meta(b.len());
    let p = Dns.parse(&b, &ParseCtx::new(&outer, Depth::Full, &m)).expect("a response");
    assert_eq!(p.header_len, 2 + msg.len());
    assert!(Dns.parse(&b[..5], &ParseCtx::new(&outer, Depth::Full, &m)).is_err());
    assert!(parse(Dns, &b, Depth::Full).is_err());
}

#[test]
fn dns_declines_implausible_counts() {
    let mut b = dns_response(&[]);
    b[7] = 129;
    assert_eq!(
        parse(Dns, &b, Depth::Full),
        Err(ParseError::Malformed("implausible section count"))
    );
}

#[test]
fn names_follow_pointers_backwards_only() {
    let msg = b"\x01a\x00\x01b\xC0\x00\xC0\x07\xC0";
    assert_eq!(decode_name(msg, 0), Ok(("a".to_string(), 3)));
    assert_eq!(decode_name(msg, 3), Ok(("b.a".to_string(), 4)));
    assert_eq!(
        decode_name(msg, 7),
        Err(ParseError::Malformed("forward compression pointer"))
    );
    assert_eq!(
        decode_name(msg, 9),
        Err(ParseError::Malformed("pointer runs past message"))
    );
    assert_eq!(
        decode_name(msg, 10),
        Err(ParseError::Malformed("name runs past message"))
    );
    assert_eq!(
        decode_name(b"\x05ab", 0),
        Err(ParseError::Malformed("label runs past message"))
    );
    assert_eq!(
        decode_name(b"\x80", 0),
        Err(ParseError::Malformed("reserved label type"))
    );
    // What is not visible, and a dot inside a label, shows as a question mark.
    assert_eq!(decode_name(b"\x04a. \xFF\x00", 0), Ok(("a???".to_string(), 6)));
    // Out of any range: declined, not a fault.
    assert!(decode_name(&[], usize::MAX).is_err());
}

#[test]
fn names_are_bounded() {
    // Four labels of 63 letters are 255 characters with their dots.
    let mut msg = Vec::new();
    for _ in 0..4 {
        msg.push(63);
        msg.extend_from_slice(&[b'x'; 63]);
    }
    msg.push(0);
    assert_eq!(decode_name(&msg, 0).map(|(n, size)| (n.len(), size)), Ok((255, 257)));
    msg.pop();
    msg.extend_from_slice(&[1, b'y', 0]);
    assert_eq!(decode_name(&msg, 0), Err(ParseError::Malformed("name too long")));
    // Each pointer leads to the one before it.
    let mut chain = vec![0, 0];
    for i in 0..65u8 {
        chain.extend_from_slice(&[0xC0, 2 * i]);
    }
    assert!(decode_name(&chain, 2 * 64).is_ok());
    assert_eq!(
        decode_name(&chain, 2 * 65),
        Err(ParseError::Malformed("compression pointer chain too long"))
    );
}
