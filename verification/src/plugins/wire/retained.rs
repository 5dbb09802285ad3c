//! What makes each protocol's packets into conversations, and what a conversation retains.
use vstd::prelude::*;

use crate::flows::rollup::RollupView;
use crate::flows::state::{self, State};
use crate::identity::{Identity, KeyField};
use crate::layer::LayerPlugin;
use crate::plugins::ah::Ah;
use crate::plugins::amqp::Amqp;
use crate::plugins::arp::Arp;
use crate::plugins::bacnet_ip::BacnetIp;
use crate::plugins::bfd::Bfd;
use crate::plugins::bgp::Bgp;
use crate::plugins::cdp::Cdp;
use crate::plugins::dhcp::Dhcp;
use crate::plugins::dhcpv6::Dhcpv6;
use crate::plugins::dnp3::Dnp3;
use crate::plugins::dns::Dns;
use crate::plugins::dot11::Dot11;
use crate::plugins::eapol::Eapol;
use crate::plugins::enip::Enip;
use crate::plugins::erspan::Erspan;
use crate::plugins::esp::Esp;
use crate::plugins::ethernet::Ethernet;
use crate::plugins::ftp::Ftp;
use crate::plugins::geneve::Geneve;
use crate::plugins::gre::Gre;
use crate::plugins::gtp_c::GtpC;
use crate::plugins::gtp_u::GtpU;
use crate::plugins::hsrp::Hsrp;
use crate::plugins::http::Http;
use crate::plugins::http2::Http2;
use crate::plugins::icmpv4::Icmpv4;
use crate::plugins::icmpv6::Icmpv6;
use crate::plugins::igmp::Igmp;
use crate::plugins::imap::Imap;
use crate::plugins::ipfix::Ipfix;
use crate::plugins::ipv4::Ipv4;
use crate::plugins::ipv6::Ipv6;
use crate::plugins::kerberos::Kerberos;
use crate::plugins::l2tpv3::L2tpv3;
use crate::plugins::lacp::Lacp;
use crate::plugins::ldap::Ldap;
use crate::plugins::llc::Llc;
use crate::plugins::lldp::Lldp;
use crate::plugins::wire;

verus! {

/// What is retained of a field: the distinct values, the first and the last, or the
/// latest in order.
pub ghost enum Retained {
    Distinct(Seq<char>),
    Ends(Seq<char>),
    Latest(Seq<char>, usize),
}

/// Whether a new stream has room for what is to be retained, and for nothing else.
pub open spec fn retains(s: State, identity: Option<Identity>, list: Seq<Retained>) -> bool {
    let slots = state::slots_for(s, identity->0);
    &&& slots.len() == list.len()
    &&& forall|i: int|
        0 <= i < list.len() ==> match #[trigger] list[i] {
            Retained::Distinct(name) => slots[i] == (
                name,
                RollupView::Accumulate { values: Seq::empty(), count: 0, overflow: false },
            ),
            Retained::Ends(name) => slots[i] == (
                name,
                RollupView::Sample { first: None, last: None },
            ),
            Retained::Latest(name, cap) => {
                &&& slots[i].0 == name
                &&& slots[i].1 is Series
                &&& slots[i].1->ring.len() == 0
                &&& slots[i].1->cap <= cap
                &&& s.config.rollup_series_max_cap is None ==> slots[i].1->cap == cap
            },
        }
}

/// Where packets go between two endpoints, these make the conversation.
pub proof fn endpoint_pairs_hold_conversations(s: State)
    ensures
        wire::is_keyed_by(Bfd.spec_identity(), (KeyField { a: "my_discriminator", b: Some("your_discriminator") })),
        retains(s, Bfd.spec_identity(), seq![Retained::Distinct("state"@)]),
        wire::is_keyed_by(Dnp3.spec_identity(), (KeyField { a: "source", b: Some("destination") })),
        retains(s, Dnp3.spec_identity(), seq![Retained::Distinct("function_code"@)]),
        wire::is_keyed_by(Dot11.spec_identity(), (KeyField { a: "addr1", b: Some("addr2") })),
        retains(s, Dot11.spec_identity(), seq![Retained::Distinct("frame_subtype"@)]),
        wire::is_keyed_by(Ethernet.spec_identity(), (KeyField { a: "src_mac", b: Some("dst_mac") })),
        retains(s, Ethernet.spec_identity(), seq![Retained::Distinct("ethertype"@)]),
        wire::is_keyed_by(Ipv4.spec_identity(), (KeyField { a: "src_addr", b: Some("dst_addr") })),
        retains(s, Ipv4.spec_identity(), seq![Retained::Distinct("protocol"@)]),
        wire::is_keyed_by(Ipv6.spec_identity(), (KeyField { a: "src_addr", b: Some("dst_addr") })),
        retains(s, Ipv6.spec_identity(), seq![Retained::Distinct("next_header"@)]),
        wire::is_keyed_by(Lacp.spec_identity(), (KeyField { a: "actor_system", b: Some("partner_system") })),
        retains(s, Lacp.spec_identity(), seq![Retained::Distinct("actor_state"@)]),
{
    assert(Bfd.spec_identity()->0.key =~= seq![KeyField { a: "my_discriminator", b: Some("your_discriminator") }]);
    assert(Dnp3.spec_identity()->0.key =~= seq![KeyField { a: "source", b: Some("destination") }]);
    assert(Dot11.spec_identity()->0.key =~= seq![KeyField { a: "addr1", b: Some("addr2") }]);
    assert(Ethernet.spec_identity()->0.key =~= seq![KeyField { a: "src_mac", b: Some("dst_mac") }]);
    assert(Ipv4.spec_identity()->0.key =~= seq![KeyField { a: "src_addr", b: Some("dst_addr") }]);
    assert(Ipv6.spec_identity()->0.key =~= seq![KeyField { a: "src_addr", b: Some("dst_addr") }]);
    assert(Lacp.spec_identity()->0.key =~= seq![KeyField { a: "actor_system", b: Some("partner_system") }]);
}

/// Where packets carry an identifier, it makes the conversation.
pub proof fn identifiers_hold_conversations(s: State)
    ensures
        wire::is_keyed_by(Ah.spec_identity(), (KeyField { a: "spi", b: None })),
        retains(s, Ah.spec_identity(), Seq::empty()),
        wire::is_keyed_by(Enip.spec_identity(), (KeyField { a: "session_handle", b: None })),
        retains(s, Enip.spec_identity(), seq![Retained::Distinct("command"@)]),
        wire::is_keyed_by(Erspan.spec_identity(), (KeyField { a: "session_id", b: None })),
        retains(s, Erspan.spec_identity(), Seq::empty()),
        wire::is_keyed_by(Esp.spec_identity(), (KeyField { a: "spi", b: None })),
        retains(s, Esp.spec_identity(), seq![Retained::Ends("sequence"@)]),
        wire::is_keyed_by(Geneve.spec_identity(), (KeyField { a: "vni", b: None })),
        retains(s, Geneve.spec_identity(), seq![Retained::Distinct("protocol_type"@)]),
        wire::is_keyed_by(Gre.spec_identity(), (KeyField { a: "key", b: None })),
        retains(s, Gre.spec_identity(), Seq::empty()),
        wire::is_keyed_by(GtpC.spec_identity(), (KeyField { a: "teid", b: None })),
        retains(s, GtpC.spec_identity(), seq![Retained::Distinct("message_type"@)]),
        wire::is_keyed_by(GtpU.spec_identity(), (KeyField { a: "teid", b: None })),
        retains(s, GtpU.spec_identity(), seq![Retained::Distinct("message_type"@)]),
        wire::is_keyed_by(Hsrp.spec_identity(), (KeyField { a: "group", b: None })),
        retains(
            s,
            Hsrp.spec_identity(),
            seq![Retained::Distinct("state"@), Retained::Distinct("priority"@)],
        ),
        wire::is_keyed_by(Http2.spec_identity(), (KeyField { a: "stream_id", b: None })),
        retains(s, Http2.spec_identity(), seq![Retained::Distinct("frame_type"@)]),
        wire::is_keyed_by(L2tpv3.spec_identity(), (KeyField { a: "session_id", b: None })),
        retains(s, L2tpv3.spec_identity(), Seq::empty()),
{
    assert(Ah.spec_identity()->0.key =~= seq![KeyField { a: "spi", b: None }]);
    assert(Enip.spec_identity()->0.key =~= seq![KeyField { a: "session_handle", b: None }]);
    assert(Erspan.spec_identity()->0.key =~= seq![KeyField { a: "session_id", b: None }]);
    assert(Esp.spec_identity()->0.key =~= seq![KeyField { a: "spi", b: None }]);
    assert(Geneve.spec_identity()->0.key =~= seq![KeyField { a: "vni", b: None }]);
    assert(Gre.spec_identity()->0.key =~= seq![KeyField { a: "key", b: None }]);
    assert(GtpC.spec_identity()->0.key =~= seq![KeyField { a: "teid", b: None }]);
    assert(GtpU.spec_identity()->0.key =~= seq![KeyField { a: "teid", b: None }]);
    assert(Hsrp.spec_identity()->0.key =~= seq![KeyField { a: "group", b: None }]);
    assert(Http2.spec_identity()->0.key =~= seq![KeyField { a: "stream_id", b: None }]);
    assert(L2tpv3.spec_identity()->0.key =~= seq![KeyField { a: "session_id", b: None }]);
}

/// A service has one conversation in each that carries it.
pub proof fn services_hold_one_conversation(s: State)
    ensures
        wire::is_keyed_by(Amqp.spec_identity(), (KeyField { a: "app", b: None })),
        retains(
            s,
            Amqp.spec_identity(),
            seq![Retained::Distinct("frame_type"@), Retained::Distinct("class_id"@)],
        ),
        wire::is_keyed_by(BacnetIp.spec_identity(), (KeyField { a: "app", b: None })),
        retains(s, BacnetIp.spec_identity(), seq![Retained::Distinct("service_choice"@)]),
        wire::is_keyed_by(Bgp.spec_identity(), (KeyField { a: "app", b: None })),
        retains(
            s,
            Bgp.spec_identity(),
            seq![Retained::Distinct("msg_type"@), Retained::Ends("my_as"@)],
        ),
        wire::is_keyed_by(Dhcp.spec_identity(), (KeyField { a: "app", b: None })),
        retains(
            s,
            Dhcp.spec_identity(),
            seq![Retained::Latest("msg_type"@, 64), Retained::Distinct("client_mac"@)],
        ),
        wire::is_keyed_by(Dhcpv6.spec_identity(), (KeyField { a: "app", b: None })),
        retains(s, Dhcpv6.spec_identity(), seq![Retained::Latest("msg_type"@, 64)]),
        wire::is_keyed_by(Dns.spec_identity(), (KeyField { a: "app", b: None })),
        retains(
            s,
            Dns.spec_identity(),
            seq![Retained::Distinct("qname"@), Retained::Distinct("rcode"@)],
        ),
        wire::is_keyed_by(Ftp.spec_identity(), (KeyField { a: "app", b: None })),
        retains(
            s,
            Ftp.spec_identity(),
            seq![Retained::Distinct("command"@), Retained::Distinct("reply_code"@)],
        ),
        wire::is_keyed_by(Http.spec_identity(), (KeyField { a: "app", b: None })),
        retains(
            s,
            Http.spec_identity(),
            seq![Retained::Distinct("method"@), Retained::Ends("host"@)],
        ),
        wire::is_keyed_by(Imap.spec_identity(), (KeyField { a: "app", b: None })),
        retains(s, Imap.spec_identity(), seq![Retained::Distinct("command"@)]),
        wire::is_keyed_by(Ipfix.spec_identity(), (KeyField { a: "app", b: None })),
        retains(s, Ipfix.spec_identity(), seq![Retained::Distinct("domain_id"@)]),
        wire::is_keyed_by(Kerberos.spec_identity(), (KeyField { a: "app", b: None })),
        retains(s, Kerberos.spec_identity(), seq![Retained::Distinct("msg_type"@)]),
        wire::is_keyed_by(Ldap.spec_identity(), (KeyField { a: "app", b: None })),
        retains(
            s,
            Ldap.spec_identity(),
            seq![Retained::Distinct("protocol_op"@), Retained::Ends("bind_dn"@)],
        ),
{
    assert(Amqp.spec_identity()->0.key =~= seq![KeyField { a: "app", b: None }]);
    assert(BacnetIp.spec_identity()->0.key =~= seq![KeyField { a: "app", b: None }]);
    assert(Bgp.spec_identity()->0.key =~= seq![KeyField { a: "app", b: None }]);
    assert(Dhcp.spec_identity()->0.key =~= seq![KeyField { a: "app", b: None }]);
    assert(Dhcpv6.spec_identity()->0.key =~= seq![KeyField { a: "app", b: None }]);
    assert(Dns.spec_identity()->0.key =~= seq![KeyField { a: "app", b: None }]);
    assert(Ftp.spec_identity()->0.key =~= seq![KeyField { a: "app", b: None }]);
    assert(Http.spec_identity()->0.key =~= seq![KeyField { a: "app", b: None }]);
    assert(Imap.spec_identity()->0.key =~= seq![KeyField { a: "app", b: None }]);
    assert(Ipfix.spec_identity()->0.key =~= seq![KeyField { a: "app", b: None }]);
    assert(Kerberos.spec_identity()->0.key =~= seq![KeyField { a: "app", b: None }]);
    assert(Ldap.spec_identity()->0.key =~= seq![KeyField { a: "app", b: None }]);
}

/// Packets of these protocols make no conversation.
pub proof fn some_hold_no_conversation()
    ensures
        Arp.spec_identity() is None,
        Cdp.spec_identity() is None,
        Eapol.spec_identity() is None,
        Icmpv4.spec_identity() is None,
        Icmpv6.spec_identity() is None,
        Igmp.spec_identity() is None,
        Llc.spec_identity() is None,
        Lldp.spec_identity() is None,
{
}

} // verus!
