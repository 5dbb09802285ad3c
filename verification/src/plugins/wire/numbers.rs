//! Which numbers lead to which protocol, and what the probes go by.
use vstd::prelude::*;

use crate::layer::{Context, LayerPlugin, RouteId};
use crate::plugins::ah::Ah;
use crate::plugins::amqp::Amqp;
use crate::plugins::arp::Arp;
use crate::plugins::bacnet_ip::BacnetIp;
use crate::plugins::bfd::Bfd;
use crate::plugins::bgp::Bgp;
use crate::plugins::cdp::Cdp;
use crate::plugins::dhcp::Dhcp;
use crate::plugins::dhcpv6::Dhcpv6;
use crate::plugins::dnp3::Dnp3;
use crate::plugins::dns::Dns;
use crate::plugins::dot11::Dot11;
use crate::plugins::eapol::Eapol;
use crate::plugins::enip::Enip;
use crate::plugins::erspan::Erspan;
use crate::plugins::esp::Esp;
use crate::plugins::ethernet::Ethernet;
use crate::plugins::ftp::Ftp;
use crate::plugins::geneve::Geneve;
use crate::plugins::gre::Gre;
use crate::plugins::gtp_c::GtpC;
use crate::plugins::gtp_u::GtpU;
use crate::plugins::hsrp::Hsrp;
use crate::plugins::http::Http;
use crate::plugins::http2::Http2;
use crate::plugins::icmpv4::Icmpv4;
use crate::plugins::icmpv6::Icmpv6;
use crate::plugins::igmp::Igmp;
use crate::plugins::imap::Imap;
use crate::plugins::ipfix::Ipfix;
use crate::plugins::ipv4::{self, Ipv4};
use crate::plugins::ipv6::Ipv6;
use crate::plugins::kerberos::Kerberos;
use crate::plugins::l2tpv3::L2tpv3;
use crate::plugins::lacp::Lacp;
use crate::plugins::ldap::Ldap;
use crate::plugins::llc::{self, Llc};
use crate::plugins::lldp::Lldp;
use crate::plugins::wire;
use crate::plugins::wire::internet::{Ipv4Header, Ipv6Header};
use crate::plugins::wire::service::Dnp3Frame;
use crate::value::ValueView;

verus! {

/// Link types, EtherTypes and the protocol numbers of SNAP and of 802.3 frames lead to the
/// protocols that they were assigned to, and nothing else does.
pub proof fn link_numbers_lead_to_their_protocols(r: RouteId)
    ensures
        Ethernet.spec_claims().contains(r) <==> r == RouteId::LinkType(1),
        Dot11.spec_claims().contains(r) <==> r == RouteId::LinkType(105),
        Arp.spec_claims().contains(r) <==> r == RouteId::EtherType(0x0806),
        Eapol.spec_claims().contains(r) <==> r == RouteId::EtherType(0x888E),
        Lacp.spec_claims().contains(r) <==> r == RouteId::EtherType(0x8809),
        Lldp.spec_claims().contains(r) <==> r == RouteId::EtherType(0x88CC),
        Erspan.spec_claims().contains(r) <==> (r == RouteId::EtherType(0x88BE) || r == RouteId::EtherType(0x22EB)),
        Llc.spec_claims().contains(r) <==> r == (RouteId::Custom { space: "eth_llc_frame", id: 0 }),
        Cdp.spec_claims().contains(r) <==> r == (RouteId::Custom { space: "snap_pid", id: 0x0C_2000 }),
{
    assert(Ethernet.spec_claims()[0] == RouteId::LinkType(1));
    assert(Dot11.spec_claims()[0] == RouteId::LinkType(105));
    assert(Arp.spec_claims()[0] == RouteId::EtherType(0x0806));
    assert(Eapol.spec_claims()[0] == RouteId::EtherType(0x888E));
    assert(Lacp.spec_claims()[0] == RouteId::EtherType(0x8809));
    assert(Lldp.spec_claims()[0] == RouteId::EtherType(0x88CC));
    assert(Erspan.spec_claims()[0] == RouteId::EtherType(0x88BE));
    assert(Erspan.spec_claims()[1] == RouteId::EtherType(0x22EB));
    assert(Llc.spec_claims()[0] == (RouteId::Custom { space: "eth_llc_frame", id: 0 }));
    assert(Cdp.spec_claims()[0] == (RouteId::Custom { space: "snap_pid", id: 0x0C_2000 }));
}

/// EtherTypes and IP protocol numbers lead to the protocols that they were assigned to, and
/// nothing else does.
pub proof fn internet_numbers_lead_to_their_protocols(r: RouteId)
    ensures
        Ipv4.spec_claims().contains(r) <==> (r == RouteId::EtherType(0x0800) || r == RouteId::IpProtocol(4)),
        Ipv6.spec_claims().contains(r) <==> (r == RouteId::EtherType(0x86DD) || r == RouteId::IpProtocol(41)),
        Icmpv4.spec_claims().contains(r) <==> r == RouteId::IpProtocol(1),
        Igmp.spec_claims().contains(r) <==> r == RouteId::IpProtocol(2),
        Gre.spec_claims().contains(r) <==> r == RouteId::IpProtocol(47),
        Esp.spec_claims().contains(r) <==> r == RouteId::IpProtocol(50),
        Ah.spec_claims().contains(r) <==> r == RouteId::IpProtocol(51),
        Icmpv6.spec_claims().contains(r) <==> r == RouteId::IpProtocol(58),
        L2tpv3.spec_claims().contains(r) <==> (r == RouteId::UdpPort(1701) || r == RouteId::IpProtocol(115)),
{
    assert(Ipv4.spec_claims()[0] == RouteId::EtherType(0x0800));
    assert(Ipv4.spec_claims()[1] == RouteId::IpProtocol(4));
    assert(Ipv6.spec_claims()[0] == RouteId::EtherType(0x86DD));
    assert(Ipv6.spec_claims()[1] == RouteId::IpProtocol(41));
    assert(Icmpv4.spec_claims()[0] == RouteId::IpProtocol(1));
    assert(Igmp.spec_claims()[0] == RouteId::IpProtocol(2));
    assert(Gre.spec_claims()[0] == RouteId::IpProtocol(47));
    assert(Esp.spec_claims()[0] == RouteId::IpProtocol(50));
    assert(Ah.spec_claims()[0] == RouteId::IpProtocol(51));
    assert(Icmpv6.spec_claims()[0] == RouteId::IpProtocol(58));
    assert(L2tpv3.spec_claims()[0] == RouteId::UdpPort(1701));
    assert(L2tpv3.spec_claims()[1] == RouteId::IpProtocol(115));
}

/// Ports lead to the services that they were assigned to, and nothing else does; HTTP/2 is led
/// to by HTTP alone.
pub proof fn ports_lead_to_their_services(r: RouteId)
    ensures
        Dns.spec_claims().contains(r) <==> (r == RouteId::UdpPort(53) || r == RouteId::TcpPort(53)),
        Dhcp.spec_claims().contains(r) <==> (r == RouteId::UdpPort(67) || r == RouteId::UdpPort(68)),
        Dhcpv6.spec_claims().contains(r) <==> (r == RouteId::UdpPort(547) || r == RouteId::UdpPort(546)),
        Http.spec_claims().contains(r) <==> r == RouteId::TcpPort(80),
        !Http2.spec_claims().contains(r),
        Ftp.spec_claims().contains(r) <==> r == RouteId::TcpPort(21),
        Imap.spec_claims().contains(r) <==> r == RouteId::TcpPort(143),
        Ldap.spec_claims().contains(r) <==> r == RouteId::TcpPort(389),
        Kerberos.spec_claims().contains(r) <==> (r == RouteId::UdpPort(88) || r == RouteId::TcpPort(88)),
        Bgp.spec_claims().contains(r) <==> r == RouteId::TcpPort(179),
        Bfd.spec_claims().contains(r) <==> (r == RouteId::UdpPort(3784) || r == RouteId::UdpPort(4784)),
        Hsrp.spec_claims().contains(r) <==> r == RouteId::UdpPort(1985),
        Amqp.spec_claims().contains(r) <==> r == RouteId::TcpPort(5672),
        Ipfix.spec_claims().contains(r) <==> r == RouteId::UdpPort(4739),
        Dnp3.spec_claims().contains(r) <==> (r == RouteId::TcpPort(20000) || r == RouteId::UdpPort(20000)),
        Enip.spec_claims().contains(r) <==> r == RouteId::TcpPort(44818),
        BacnetIp.spec_claims().contains(r) <==> r == RouteId::UdpPort(47808),
        Geneve.spec_claims().contains(r) <==> r == RouteId::UdpPort(6081),
        GtpC.spec_claims().contains(r) <==> r == RouteId::UdpPort(2123),
        GtpU.spec_claims().contains(r) <==> r == RouteId::UdpPort(2152),
{
    assert(Dns.spec_claims()[0] == RouteId::UdpPort(53));
    assert(Dns.spec_claims()[1] == RouteId::TcpPort(53));
    assert(Dhcp.spec_claims()[0] == RouteId::UdpPort(67));
    assert(Dhcp.spec_claims()[1] == RouteId::UdpPort(68));
    assert(Dhcpv6.spec_claims()[0] == RouteId::UdpPort(547));
    assert(Dhcpv6.spec_claims()[1] == RouteId::UdpPort(546));
    assert(Http.spec_claims()[0] == RouteId::TcpPort(80));
    assert(Ftp.spec_claims()[0] == RouteId::TcpPort(21));
    assert(Imap.spec_claims()[0] == RouteId::TcpPort(143));
    assert(Ldap.spec_claims()[0] == RouteId::TcpPort(389));
    assert(Kerberos.spec_claims()[0] == RouteId::UdpPort(88));
    assert(Kerberos.spec_claims()[1] == RouteId::TcpPort(88));
    assert(Bgp.spec_claims()[0] == RouteId::TcpPort(179));
    assert(Bfd.spec_claims()[0] == RouteId::UdpPort(3784));
    assert(Bfd.spec_claims()[1] == RouteId::UdpPort(4784));
    assert(Hsrp.spec_claims()[0] == RouteId::UdpPort(1985));
    assert(Amqp.spec_claims()[0] == RouteId::TcpPort(5672));
    assert(Ipfix.spec_claims()[0] == RouteId::UdpPort(4739));
    assert(Dnp3.spec_claims()[0] == RouteId::TcpPort(20000));
    assert(Dnp3.spec_claims()[1] == RouteId::UdpPort(20000));
    assert(Enip.spec_claims()[0] == RouteId::TcpPort(44818));
    assert(BacnetIp.spec_claims()[0] == RouteId::UdpPort(47808));
    assert(Geneve.spec_claims()[0] == RouteId::UdpPort(6081));
    assert(GtpC.spec_claims()[0] == RouteId::UdpPort(2123));
    assert(GtpU.spec_claims()[0] == RouteId::UdpPort(2152));
}

/// A complete IPv4 header whose packet is there as far as it says is recognised by its
/// checksum.
pub proof fn ipv4_headers_are_recognised(h: Ipv4Header, payload: Seq<u8>, ctx: Context)
    requires
        h.fits(),
    ensures
        Ipv4.spec_probe(h.written() + payload, ctx) == if h.written().len() <= h.total_len
            <= h.written().len() + payload.len() && ipv4::checksum_of(h.written()) == 0 {
            Some(90u8)
        } else {
            None
        },
{
    let p = h.parts();
    let b = h.written() + payload;
    wire::parts_stand(p, payload);
    assert(p[0].len() == 1);
    assert(wire::offset(p, 1) == 1);
    assert(p[1].len() == 1);
    assert(wire::offset(p, 2) == 2);
    assert(p[2].len() == 2);
    assert(wire::offset(p, 3) == 4);
    assert(p[3].len() == 2);
    assert(wire::offset(p, 4) == 6);
    assert(p[4].len() == 2);
    assert(wire::offset(p, 5) == 8);
    assert(p[5].len() == 1);
    assert(wire::offset(p, 6) == 9);
    assert(p[6].len() == 1);
    assert(wire::offset(p, 7) == 10);
    assert(p[7].len() == 2);
    assert(wire::offset(p, 8) == 12);
    assert(p[8].len() == 4);
    assert(wire::offset(p, 9) == 16);
    assert(p[9].len() == 4);
    assert(wire::offset(p, 10) == 20);
    assert(p[10] == h.options);
    assert(wire::offset(p, 11) == 20 + h.options.len());
    assert(h.written().len() == 20 + h.options.len());
    wire::read_byte(b, 0, (4 * 16 + h.ihl()) as u8);
    wire::read16(b, 2, h.total_len);
    wire::bits8(b[0]);
    assert(ipv4::header_end(b) == 20 + h.options.len());
    assert(b.subrange(0, 20 + h.options.len() as int) =~= h.written());
}

/// An IPv6 header is recognised where its payload is there as far as it says.
pub proof fn ipv6_headers_are_recognised(h: Ipv6Header, payload: Seq<u8>, ctx: Context)
    requires
        h.fits(),
    ensures
        Ipv6.spec_probe(h.written() + payload, ctx) == if h.payload_len <= payload.len() {
            Some(75u8)
        } else {
            None
        },
{
    let p = h.parts();
    let b = h.written() + payload;
    let word = (0x6000_0000 + h.traffic_class * 0x10_0000 + h.flow_label) as u32;
    wire::parts_stand(p, payload);
    assert(p[0].len() == 4);
    assert(wire::offset(p, 1) == 4);
    assert(p[1].len() == 2);
    assert(wire::offset(p, 2) == 6);
    assert(p[2].len() == 1);
    assert(wire::offset(p, 3) == 7);
    assert(p[3].len() == 1);
    assert(wire::offset(p, 4) == 8);
    assert(p[4].len() == 16);
    assert(wire::offset(p, 5) == 24);
    assert(p[5].len() == 16);
    assert(wire::offset(p, 6) == 40);
    assert(wire::stands(b, 0, p[0]));
    let s = b.subrange(0, 4);
    assert(b[0] == s[0] && s[0] == wire::w32(word)[0]);
    assert(b[0] == word / 0x100_0000);
    wire::bits8(b[0]);
    wire::read16(b, 4, h.payload_len);
}

/// Neither is recognised in bytes that begin with another version.
pub proof fn other_versions_are_not_recognised(b: Seq<u8>, ctx: Context)
    ensures
        b.len() == 0 || b[0] / 16 != 4 ==> Ipv4.spec_probe(b, ctx) is None,
        b.len() == 0 || b[0] / 16 != 6 ==> Ipv6.spec_probe(b, ctx) is None,
{
    if b.len() > 0 {
        wire::bits8(b[0]);
    }
}

/// A DNP3 frame is recognised, and nothing that begins otherwise is.
pub proof fn dnp3_frames_are_recognised(h: Dnp3Frame, payload: Seq<u8>, b: Seq<u8>, ctx: Context)
    requires
        h.fits(),
    ensures
        Dnp3.spec_probe(h.written() + payload, ctx) == Some(90u8),
        b.len() < 3 || b[0] != 0x05 || b[1] != 0x64 || b[2] < 5 ==> Dnp3.spec_probe(b, ctx)
            is None,
{
    let p = h.parts();
    let w = h.written() + payload;
    wire::parts_stand(p, payload);
    assert(p[0].len() == 1);
    assert(wire::offset(p, 1) == 1);
    assert(p[1].len() == 1);
    assert(wire::offset(p, 2) == 2);
    assert(p[2].len() == 1);
    assert(wire::offset(p, 3) == 3);
    wire::read_byte(w, 0, 0x05);
    wire::read_byte(w, 1, 0x64);
    wire::read_byte(w, 2, h.length);
}

/// A BACnet/IP message is recognised by its type, a function that is defined and a length
/// that covers the header.
pub proof fn bacnet_messages_are_recognised(
    kind: u8,
    function: u8,
    length: u16,
    rest: Seq<u8>,
    ctx: Context,
)
    ensures
        BacnetIp.spec_probe(seq![kind, function] + wire::w16(length) + rest, ctx) == if kind
            == 0x81 && function <= 11 && length >= 4 {
            Some(60u8)
        } else {
            None
        },
{
    let b = seq![kind, function] + wire::w16(length) + rest;
    assert(b.subrange(2, 4) =~= wire::w16(length));
    wire::read16(b, 2, length);
}

/// An LLC header is recognised by a destination that bridges keep to themselves, and else
/// by two access points of STP, SNAP, IPX or NetBIOS.
pub proof fn llc_headers_are_recognised(dsap: u8, ssap: u8, control: Seq<u8>, ctx: Context)
    requires
        control.len() >= 1,
    ensures
        ({
            let known = |sap: u8| sap == 0x42 || sap == 0xAA || sap == 0xE0 || sap == 0xF0;
            let found = Llc.spec_probe(seq![dsap, ssap] + control, ctx);
            match ctx.field("ethernet"@, "dst_mac"@) {
                Some(ValueView::Bytes(mac)) if mac.len() == 6 && mac.take(5) == seq![
                    0x01u8,
                    0x80,
                    0xC2,
                    0x00,
                    0x00,
                ] && mac[5] < 16 => found == Some(90u8),
                Some(ValueView::Bytes(mac)) if mac == seq![
                    0x01u8,
                    0x00,
                    0x0C,
                    0xCC,
                    0xCC,
                    0xCC,
                ] || mac == seq![0x01u8, 0x00, 0x0C, 0xCC, 0xCC, 0xCD] => found == Some(90u8),
                _ => found == if known(dsap) && known(ssap) && (control[0] % 4 == 3
                    || control.len() >= 2) {
                    Some(55u8)
                } else {
                    None
                },
            }
        }),
{
    let b = seq![dsap, ssap] + control;
    assert(b[2] == control[0]);
    wire::bits8(b[2]);
    if let Some(ValueView::Bytes(mac)) = ctx.field("ethernet"@, "dst_mac"@) {
        if mac.len() == 6 {
            let five = mac.take(5);
            assert(five[0] == mac[0] && five[1] == mac[1] && five[2] == mac[2] && five[3]
                == mac[3] && five[4] == mac[4]);
            if llc::bridge_group(mac) {
                assert(five =~= seq![0x01u8, 0x80, 0xC2, 0x00, 0x00]);
            }
            if llc::cisco_multicast(mac) {
                assert(mac =~= seq![0x01u8, 0x00, 0x0C, 0xCC, 0xCC, 0xCC] || mac =~= seq![
                    0x01u8,
                    0x00,
                    0x0C,
                    0xCC,
                    0xCC,
                    0xCD,
                ]);
            }
        }
    }
}

} // verus!
