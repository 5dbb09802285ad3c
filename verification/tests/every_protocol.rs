use pktflow::bytes::ParseError;
use pktflow::flows::key::flow_key;
use pktflow::layer::{Depth, LayerPlugin, LayerRecord, LinkType, PacketMeta, ParseCtx, ParsedLayer};
use pktflow::plugins::ah::Ah;
use pktflow::plugins::amqp::Amqp;
use pktflow::plugins::arp::Arp;
use pktflow::plugins::bacnet_ip::BacnetIp;
use pktflow::plugins::bfd::Bfd;
use pktflow::plugins::bgp::Bgp;
use pktflow::plugins::cdp::Cdp;
use pktflow::plugins::dhcp::Dhcp;
use pktflow::plugins::dhcpv6::Dhcpv6;
use pktflow::plugins::dnp3::Dnp3;
use pktflow::plugins::dns::Dns;
use pktflow::plugins::dot11::Dot11;
use pktflow::plugins::eapol::Eapol;
use pktflow::plugins::enip::Enip;
use pktflow::plugins::erspan::Erspan;
use pktflow::plugins::esp::Esp;
use pktflow::plugins::ethernet::Ethernet;
use pktflow::plugins::ftp::Ftp;
use pktflow::plugins::geneve::Geneve;
use pktflow::plugins::gre::Gre;
use pktflow::plugins::gtp_c::GtpC;
use pktflow::plugins::gtp_u::GtpU;
use pktflow::plugins::hsrp::Hsrp;
use pktflow::plugins::http::Http;
use pktflow::plugins::http2::Http2;
use pktflow::plugins::icmpv4::Icmpv4;
use pktflow::plugins::icmpv6::Icmpv6;
use pktflow::plugins::igmp::Igmp;
use pktflow::plugins::imap::Imap;
use pktflow::plugins::ipfix::Ipfix;
use pktflow::plugins::ipv4::Ipv4;
use pktflow::plugins::ipv6::Ipv6;
use pktflow::plugins::kerberos::Kerberos;
use pktflow::plugins::l2tpv3::L2tpv3;
use pktflow::plugins::lacp::Lacp;
use pktflow::plugins::ldap::Ldap;
use pktflow::plugins::llc::Llc;
use pktflow::plugins::lldp::Lldp;
use pktflow::plugins::default_engine;
use pktflow::value::{FieldMap, Value};

fn all() -> Vec<Box<dyn LayerPlugin>> {
    vec![
        Box::new(Ah),
        Box::new(Amqp),
        Box::new(Arp),
        Box::new(BacnetIp),
        Box::new(Bfd),
        Box::new(Bgp),
        Box::new(Cdp),
        Box::new(Dhcp),
        Box::new(Dhcpv6),
        Box::new(Dnp3),
        Box::new(Dns),
        Box::new(Dot11),
        Box::new(Eapol),
        Box::new(Enip),
        Box::new(Erspan),
        Box::new(Esp),
        Box::new(Ethernet),
        Box::new(Ftp),
        Box::new(Geneve),
        Box::new(Gre),
        Box::new(GtpC),
        Box::new(GtpU),
        Box::new(Hsrp),
        Box::new(Http),
        Box::new(Http2),
        Box::new(Icmpv4),
        Box::new(Icmpv6),
        Box::new(Igmp),
        Box::new(Imap),
        Box::new(Ipfix),
        Box::new(Ipv4),
        Box::new(Ipv6),
        Box::new(Kerberos),
        Box::new(L2tpv3),
        Box::new(Lacp),
        Box::new(Ldap),
        Box::new(Llc),
        Box::new(Lldp),
    ]
}

const DEPTHS: [Depth; 4] = [Depth::Nothing, Depth::Keys, Depth::Structure, Depth::Full];

/// The contexts that some protocol tells apart.
fn outers() -> Vec<Vec<LayerRecord>> {
    let mut sets = vec![Vec::new()];
    for protocol in ["tcp", "udp", "ethernet", "ipv4"] {
        let mut fields = FieldMap::new();
        fields.insert("dst_mac", Value::from(&[0x01u8, 0x80, 0xC2, 0, 0, 0][..]));
        sets.push(vec![LayerRecord {
            protocol,
            offset: 0,
            header_len: 0,
            fields,
        }]);
    }
    sets
}

/// A sequence of bytes that looks random and is always the same.
struct Noise(u64);

impl Noise {
    fn byte(&mut self) -> u8 {
        self.0 = self.0.wrapping_mul(6364136223846793005).wrapping_add(1442695040888963407);
        (self.0 >> 56) as u8
    }

    fn bytes(&mut self, n: usize) -> Vec<u8> {
        (0..n).map(|_| self.byte()).collect()
    }
}

/// Bytes that get past the first tests of most protocols, and some that do not.
fn samples() -> Vec<Vec<u8>> {
    let mut noise = Noise(7);
    let mut list = vec![Vec::new()];
    for n in [1usize, 7, 8, 12, 20, 40, 64, 300] {
        for _ in 0..40 {
            list.push(noise.bytes(n));
        }
        list.push(vec![0; n]);
        list.push(vec![0xFF; n]);
    }
    let starts: [&[u8]; 22] = [
        &[0x45, 0, 0, 40],
        &[0x60, 0, 0, 0],
        &[0x20, 0, 0x08, 0],
        &[0xB0, 0, 0x08, 0],
        b"220 ready\r\n",
        b"USER x\r\n",
        b"a1 OK done\r\n",
        b"GET / HTTP/1.1\r\nHost: h\r\n\r\n",
        b"HTTP/1.1 200 OK\r\nContent-Length: 3\r\n\r\n",
        b"AMQP\x00\x00\x09\x01",
        &[0x81, 0x0B, 0, 12, 1, 0],
        &[0x81, 0x0A, 0, 17, 1, 4],
        &[0x05, 0x64, 5, 0xC0, 1, 0, 2, 0],
        &[0x30, 12, 2, 1, 1, 0x60, 7, 2, 1, 3, 4, 2],
        &[0x6A, 3, 2, 1, 5],
        &[0x30, 1, 0, 8, 0, 0, 0, 1],
        &[0x48, 2, 0, 20],
        &[0, 10, 0, 24],
        &[0xAA, 0xAA, 3, 0, 0, 0x0C],
        &[2, 3, 0, 95],
        &[2, 180, 0, 0, 0, 1, 0, 5],
        &[0x20, 0xC8, 3, 24],
    ];
    for s in starts {
        for n in [0usize, 4, 20, 90] {
            let mut b = s.to_vec();
            b.extend(noise.bytes(n));
            list.push(b);
            let mut z = s.to_vec();
            z.extend(vec![0; n]);
            list.push(z);
        }
    }
    let mut bgp = vec![0xFF; 16];
    bgp.extend_from_slice(&[0, 19, 4]);
    list.push(bgp);
    list
}

fn read(
    p: &dyn LayerPlugin,
    bytes: &[u8],
    outer: &[LayerRecord],
    depth: Depth,
) -> Result<ParsedLayer, ParseError> {
    let meta = PacketMeta {
        timestamp: 0,
        caplen: bytes.len(),
        origlen: bytes.len(),
        link_type: LinkType(1),
    };
    p.parse(bytes, &ParseCtx::new(outer, depth, &meta))
}

fn names(p: &dyn LayerPlugin) -> Vec<&'static str> {
    let mut list = Vec::new();
    if let Some(identity) = p.stream_identity() {
        for kf in identity.key {
            list.push(kf.a);
            list.extend(kf.b);
        }
    }
    list
}

#[test]
fn no_header_reaches_past_its_bytes() {
    let mut parsed = 0;
    for p in all() {
        for outer in outers() {
            for b in samples() {
                if let Ok(layer) = read(p.as_ref(), &b, &outer, Depth::Full) {
                    assert!(layer.header_len <= b.len(), "{} of {b:?}", p.name());
                    parsed += 1;
                }
            }
        }
    }
    assert!(parsed > 1000, "only {parsed} headers");
}

#[test]
fn a_deeper_look_tells_all_that_a_shallower_one_tells() {
    for p in all() {
        for outer in outers() {
            for b in samples() {
                let deepest = read(p.as_ref(), &b, &outer, Depth::Full);
                for depth in DEPTHS {
                    match (read(p.as_ref(), &b, &outer, depth), &deepest) {
                        (Ok(s), Ok(d)) => {
                            assert_eq!(s.header_len, d.header_len);
                            assert_eq!(s.hint, d.hint);
                            assert!(s.fields.len() <= d.fields.len());
                            for name in names(p.as_ref()) {
                                if let Some(v) = s.fields.get(name) {
                                    assert_eq!(d.fields.get(name), Some(v));
                                }
                            }
                        }
                        (Err(e), Err(d)) => assert_eq!(e, *d),
                        other => panic!("{}: {other:?}", p.name()),
                    }
                }
            }
        }
    }
}

#[test]
fn the_key_is_the_same_at_every_depth_that_reads_it() {
    for p in all() {
        let Some(identity) = p.stream_identity() else {
            continue;
        };
        for b in samples() {
            if let (Ok(k), Ok(f)) = (
                read(p.as_ref(), &b, &[], Depth::Keys),
                read(p.as_ref(), &b, &[], Depth::Full),
            ) {
                assert_eq!(flow_key(&identity, &k.fields), flow_key(&identity, &f.fields));
            }
        }
    }
}

#[test]
fn the_default_set_knows_its_protocols() {
    let engine = default_engine();
    let mut registered = 0;
    for p in all() {
        if let Some(r) = engine.plugin_by_name(p.name()) {
            assert_eq!(r.name(), p.name());
            assert_eq!(r.claims(), p.claims());
            assert_eq!(r.stream_identity().is_some(), p.stream_identity().is_some());
            assert!(r.condense().is_none());
            assert_eq!(r.plugin().name(), p.name());
            for b in samples() {
                assert_eq!(
                    read(r.plugin().as_ref(), &b, &[], Depth::Full),
                    read(p.as_ref(), &b, &[], Depth::Full)
                );
            }
            registered += 1;
        }
    }
    assert_eq!(registered, 27);
    assert!(engine.plugin_by_name("nonesuch").is_none());
    assert!(engine.plugin_by_name("http").is_none());
}

fn score(p: &dyn LayerPlugin, bytes: &[u8], outer: &[LayerRecord]) -> Option<u8> {
    let meta = PacketMeta {
        timestamp: 0,
        caplen: bytes.len(),
        origlen: bytes.len(),
        link_type: LinkType(1),
    };
    p.probe(bytes, &ParseCtx::new(outer, Depth::Full, &meta)).map(|c| c.get())
}

#[test]
fn only_those_with_a_probe_recognise_bytes() {
    let engine = default_engine();
    let mut with_probe = Vec::new();
    for p in all() {
        if p.has_probe() {
            with_probe.push(p.name());
        }
        let expected: &[&str] = if p.name() == "llc" {
            &["ethernet", "dot11"]
        } else {
            &[]
        };
        assert_eq!(p.expected_predecessors(), expected);
        let registered = engine.plugin_by_name(p.name());
        if let Some(r) = registered {
            assert_eq!(r.has_probe(), p.has_probe());
            assert_eq!(r.expected_predecessors(), p.expected_predecessors());
        }
        let mut found = false;
        for outer in outers() {
            for b in samples() {
                let s = score(p.as_ref(), &b, &outer);
                found = found || s.is_some();
                if let Some(r) = registered {
                    assert_eq!(score(r.plugin().as_ref(), &b, &outer), s);
                }
            }
        }
        assert!(p.has_probe() || !found);
    }
    with_probe.sort_unstable();
    assert_eq!(with_probe, ["bacnet_ip", "dnp3", "ipv4", "ipv6", "llc"]);
}
