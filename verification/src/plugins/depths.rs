//! The depths agree: a deeper look at a header tells all that a shallower one
//! tells, no header reaches past its bytes, and the conversation is known as soon
//! as the keys are read.
use vstd::prelude::*;

use crate::bytes::{self, ParseError};
use crate::flows::key;
use crate::identity::Identity;
use crate::layer::{Context, Depth, LayerPlugin, Parsed};
use crate::plugins::{
    ah, amqp, arp, bacnet_ip, bfd, bgp, cdp, dhcp, dhcpv6, dnp3, dns, dot11, eapol, enip,
    erspan, esp, ethernet, ftp, geneve, gre, gtp_c, gtp_u, hsrp, http, http2, icmpv4,
    icmpv6, igmp, imap, ipfix, ipv4, ipv6, kerberos, l2tpv3, lacp, ldap, llc, lldp,
};
use crate::text;
use crate::value::{Fields, ValueView};

verus! {

/// The same surroundings, looked at from another depth.
pub open spec fn at(ctx: Context, depth: Depth) -> Context {
    Context { depth, ..ctx }
}

/// Whether every field of `f` is in `g`, with the same content.
pub open spec fn included(f: Fields, g: Fields) -> bool {
    forall|name: Seq<char>| #[trigger]
        f.contains_key(name) ==> g.contains_key(name) && g[name] == f[name]
}

/// Whether `deep` tells all that `shallow` tells: the same error, or the same
/// extent and the same successor with every field that is there already.
pub open spec fn tells_more(
    shallow: Result<Parsed, ParseError>,
    deep: Result<Parsed, ParseError>,
) -> bool {
    match (shallow, deep) {
        (Ok(s), Ok(d)) => {
            &&& s.header_len == d.header_len
            &&& s.hint == d.hint
            &&& included(s.fields, d.fields)
        },
        (Err(e), Err(d)) => e == d,
        _ => false,
    }
}

/// Whether the header, if there is one, lies within `b`.
pub open spec fn lies_within(r: Result<Parsed, ParseError>, b: Seq<u8>) -> bool {
    r matches Ok(p) ==> 0 <= p.header_len <= b.len()
}

/// Whether the header, if there is one, names the conversation it belongs to.
pub open spec fn names_its_conversation(
    identity: Option<Identity>,
    r: Result<Parsed, ParseError>,
) -> bool {
    r matches Ok(p) ==> identity is Some && key::key_of(identity->0, p.fields) is Ok
}

proof fn lemma_same_sides(identity: Identity, n: int, f: Fields, g: Fields)
    requires
        included(f, g),
        0 <= n <= identity.key.len(),
        key::sides(identity.key, n, f) is Ok,
    ensures
        key::sides(identity.key, n, g) == key::sides(identity.key, n, f),
    decreases n,
{
    if n > 0 {
        lemma_same_sides(identity, n - 1, f, g);
    }
}

/// More fields do not change a conversation's key or a packet's direction, so the
/// streams are the same at every depth that reads the keys.
pub proof fn the_key_is_the_same_at_every_depth(
    identity: Identity,
    shallow: Result<Parsed, ParseError>,
    deep: Result<Parsed, ParseError>,
)
    requires
        identity.policy is EndpointSort,
        tells_more(shallow, deep),
        names_its_conversation(Some(identity), shallow),
    ensures
        shallow matches Ok(s) ==> deep matches Ok(d) && key::key_of(identity, d.fields)
            == key::key_of(identity, s.fields),
{
    if shallow is Ok {
        lemma_same_sides(
            identity,
            identity.key.len() as int,
            shallow->Ok_0.fields,
            deep->Ok_0.fields,
        );
    }
}

proof fn lemma_found_within(b: Seq<u8>, pattern: Seq<u8>, from: int)
    ensures
        text::find(b, pattern, from) matches Some(i) ==> 0 <= i && i + pattern.len() <= b.len(),
    decreases b.len() - from,
{
    if 0 <= from < b.len() && !text::stands_at(b, pattern, from) {
        lemma_found_within(b, pattern, from + 1);
    }
}

proof fn lemma_cdp_tlvs_within(b: Seq<u8>, p: int, t: cdp::Tlvs)
    requires
        0 <= p <= b.len(),
    ensures
        cdp::tlvs(b, p, t) matches Ok(r) ==> p <= r.1 <= b.len(),
    decreases b.len() - p,
{
    let len = bytes::be16(b, p + 2);
    if p + 4 <= b.len() && len >= 4 && p + len <= b.len() {
        lemma_cdp_tlvs_within(
            b,
            p + len,
            cdp::with_tlv(t, bytes::be16(b, p), b.subrange(p + 4, p + len)),
        );
    }
}

proof fn lemma_dhcp_options_within(b: Seq<u8>, p: int, o: dhcp::Options)
    requires
        0 <= p <= b.len(),
    ensures
        dhcp::options(b, p, o) matches Ok(r) ==> p <= r.1 <= b.len(),
    decreases b.len() - p,
{
    if p < b.len() {
        if b[p] == dhcp::OPTION_PAD {
            lemma_dhcp_options_within(b, p + 1, o);
        } else if p + 2 <= b.len() && p + 2 + b[p + 1] <= b.len() {
            lemma_dhcp_options_within(
                b,
                p + 2 + b[p + 1],
                dhcp::with_option(o, b[p], b.subrange(p + 2, p + 2 + b[p + 1])),
            );
        }
    }
}

proof fn lemma_questions_within(msg: Seq<u8>, pos: int, n: int, first: Option<dns::Question>)
    requires
        0 <= pos <= msg.len(),
    ensures
        dns::questions(msg, pos, n, first) matches Ok(r) ==> pos <= r.0 <= msg.len(),
    decreases n,
{
    if n > 0 && dns::name_at(msg, pos) is Ok {
        dns::name_within(msg, pos, Seq::empty(), 0);
        let p = pos + dns::name_size(msg, pos);
        let name = dns::name_at(msg, pos)->Ok_0;
        if p + 4 <= msg.len() {
            lemma_questions_within(
                msg,
                p + 4,
                n - 1,
                if first is None {
                    Some(dns::Question { name, qtype: bytes::be16(msg, p) })
                } else {
                    first
                },
            );
        }
    }
}

proof fn lemma_records_within(msg: Seq<u8>, pos: int, n: int, texts: Seq<ValueView>)
    requires
        0 <= pos <= msg.len(),
    ensures
        dns::records(msg, pos, n, texts) matches Ok(r) ==> pos <= r.0 <= msg.len(),
    decreases n,
{
    if n > 0 && dns::name_at(msg, pos) is Ok {
        dns::name_within(msg, pos, Seq::empty(), 0);
        let p = pos + dns::name_size(msg, pos);
        let len = bytes::be16(msg, p + 8) as int;
        if p + 10 + len <= msg.len() {
            let text = dns::rendered(
                msg,
                bytes::be16(msg, p),
                p + 10,
                msg.subrange(p + 10, p + 10 + len),
            );
            lemma_records_within(msg, p + 10 + len, n - 1, texts.push(ValueView::Str(text)));
        }
    }
}

proof fn lemma_sections_within(msg: Seq<u8>)
    requires
        msg.len() >= 12,
    ensures
        dns::sections(msg) matches Ok(s) ==> 12 <= s.end <= msg.len(),
{
    let questions = dns::questions(msg, 12, bytes::be16(msg, 4) as int, None);
    lemma_questions_within(msg, 12, bytes::be16(msg, 4) as int, None);
    if questions is Ok {
        let p = questions->Ok_0.0;
        let answers = dns::records(msg, p, bytes::be16(msg, 6) as int, Seq::empty());
        lemma_records_within(msg, p, bytes::be16(msg, 6) as int, Seq::empty());
        if answers is Ok {
            let q = answers->Ok_0.0;
            let authorities = dns::records(msg, q, bytes::be16(msg, 8) as int, Seq::empty());
            lemma_records_within(msg, q, bytes::be16(msg, 8) as int, Seq::empty());
            if authorities is Ok {
                lemma_records_within(
                    msg,
                    authorities->Ok_0.0,
                    bytes::be16(msg, 10) as int,
                    Seq::empty(),
                );
            }
        }
    }
}

proof fn lemma_extensions_within(b: Seq<u8>, p: int, kind: u8)
    requires
        0 <= p <= b.len(),
    ensures
        gtp_u::extensions_end(b, p, kind) matches Ok(end) ==> p <= end <= b.len(),
    decreases b.len() - p,
{
    if kind != 0 && p < b.len() && b[p] != 0 && p + 4 * b[p] <= b.len() {
        lemma_extensions_within(b, p + 4 * b[p], b[p + 4 * b[p] - 1]);
    }
}

proof fn lemma_chain_within(b: Seq<u8>, p: int, next: u8, offset: u16, count: int)
    requires
        0 <= p <= b.len(),
    ensures
        ipv6::chain(b, p, next, offset, count) matches Ok(c) ==> p <= c.end <= b.len(),
    decreases ipv6::MAX_EXT_HEADERS + 1 - count,
{
    if ipv6::is_extension(next) && count + 1 <= ipv6::MAX_EXT_HEADERS && p + 2 <= b.len() {
        if next == ipv6::FRAGMENT {
            if p + 8 <= b.len() {
                lemma_chain_within(b, p + 8, b[p], bytes::be16(b, p + 2) >> 3, count + 1);
            }
        } else if p + (b[p + 1] + 1) * 8 <= b.len() {
            lemma_chain_within(b, p + (b[p + 1] + 1) * 8, b[p], offset, count + 1);
        }
    }
}

proof fn lemma_optional_within(b: Seq<u8>, p: int, o: lldp::Optional)
    requires
        0 <= p <= b.len(),
    ensures
        lldp::optional(b, p, o) matches Ok(r) ==> p <= r.1 <= b.len(),
    decreases b.len() - p,
{
    if lldp::tlv_short(b, p) is None && lldp::tlv_type(b, p) != lldp::TLV_END && lldp::tlv_end(b, p)
        > p {
        lemma_optional_within(
            b,
            lldp::tlv_end(b, p),
            lldp::with_tlv(o, lldp::tlv_type(b, p), lldp::tlv_value(b, p)),
        );
    }
}

/// The names of the AH fields differ.
proof fn ah_names()
    ensures
        "spi"@.len() == 3 && "spi"@[0] == 's',
        "icv"@.len() == 3 && "icv"@[0] == 'i',
        "sequence"@.len() == 8,
        "next_header"@.len() == 11 && "next_header"@[0] == 'n',
        "payload_len"@.len() == 11 && "payload_len"@[0] == 'p',
{
    reveal_strlit("spi");
    reveal_strlit("next_header");
    reveal_strlit("payload_len");
    reveal_strlit("sequence");
    reveal_strlit("icv");
}

/// AH: a deeper look at the same bytes tells all that a shallower one tells.
pub proof fn ah_reads_deeper(b: Seq<u8>, ctx: Context, deeper: Depth)
    requires
        ctx.depth.rank() <= deeper.rank(),
    ensures
        tells_more(ah::Ah.spec_parse(b, ctx), ah::Ah.spec_parse(b, at(ctx, deeper))),
{
    ah_names();
}

/// AH: the header lies within the bytes.
pub proof fn ah_lies_within(b: Seq<u8>, ctx: Context)
    ensures
        lies_within(ah::Ah.spec_parse(b, ctx), b),
{
}

/// AH: every depth that reads the keys names the conversation.
pub proof fn ah_names_its_conversation(b: Seq<u8>, ctx: Context)
    requires
        ctx.keys(),
    ensures
        names_its_conversation(ah::Ah.spec_identity(), ah::Ah.spec_parse(b, ctx)),
{
    ah_names();
    reveal_with_fuel(key::sides, 4);
}

/// The names of the AMQP fields differ.
proof fn amqp_names()
    ensures
        "app"@.len() == 3,
        "size"@.len() == 4,
        "channel"@.len() == 7,
        "class_id"@.len() == 8,
        "method_id"@.len() == 9,
        "frame_type"@.len() == 10,
{
    reveal_strlit("app");
    reveal_strlit("frame_type");
    reveal_strlit("channel");
    reveal_strlit("size");
    reveal_strlit("class_id");
    reveal_strlit("method_id");
}

/// AMQP: a deeper look at the same bytes tells all that a shallower one tells.
pub proof fn amqp_reads_deeper(b: Seq<u8>, ctx: Context, deeper: Depth)
    requires
        ctx.depth.rank() <= deeper.rank(),
    ensures
        tells_more(amqp::Amqp.spec_parse(b, ctx), amqp::Amqp.spec_parse(b, at(ctx, deeper))),
{
    amqp_names();
}

/// AMQP: the header lies within the bytes.
pub proof fn amqp_lies_within(b: Seq<u8>, ctx: Context)
    ensures
        lies_within(amqp::Amqp.spec_parse(b, ctx), b),
{
}

/// AMQP: every depth that reads the keys names the conversation.
pub proof fn amqp_names_its_conversation(b: Seq<u8>, ctx: Context)
    requires
        ctx.keys(),
    ensures
        names_its_conversation(amqp::Amqp.spec_identity(), amqp::Amqp.spec_parse(b, ctx)),
{
    amqp_names();
    reveal_with_fuel(key::sides, 4);
}

/// The names of the ARP fields differ.
proof fn arp_names()
    ensures
        "opcode"@.len() == 6,
        "sender_ip"@.len() == 9 && "sender_ip"@[0] == 's',
        "target_ip"@.len() == 9 && "target_ip"@[0] == 't',
        "sender_mac"@.len() == 10 && "sender_mac"@[0] == 's',
        "target_mac"@.len() == 10 && "target_mac"@[0] == 't',
{
    reveal_strlit("opcode");
    reveal_strlit("sender_mac");
    reveal_strlit("sender_ip");
    reveal_strlit("target_mac");
    reveal_strlit("target_ip");
}

/// ARP: a deeper look at the same bytes tells all that a shallower one tells.
pub proof fn arp_reads_deeper(b: Seq<u8>, ctx: Context, deeper: Depth)
    requires
        ctx.depth.rank() <= deeper.rank(),
    ensures
        tells_more(arp::Arp.spec_parse(b, ctx), arp::Arp.spec_parse(b, at(ctx, deeper))),
{
    arp_names();
}

/// ARP: the header lies within the bytes.
pub proof fn arp_lies_within(b: Seq<u8>, ctx: Context)
    ensures
        lies_within(arp::Arp.spec_parse(b, ctx), b),
{
}

/// The names of the BACnet/IP fields differ.
proof fn bacnet_ip_names()
    ensures
        "app"@.len() == 3,
        "apdu_type"@.len() == 9,
        "npdu_control"@.len() == 12,
        "bvlc_function"@.len() == 13,
        "service_choice"@.len() == 14,
{
    reveal_strlit("app");
    reveal_strlit("bvlc_function");
    reveal_strlit("npdu_control");
    reveal_strlit("apdu_type");
    reveal_strlit("service_choice");
}

/// BACnet/IP: a deeper look at the same bytes tells all that a shallower one tells.
pub proof fn bacnet_ip_reads_deeper(b: Seq<u8>, ctx: Context, deeper: Depth)
    requires
        ctx.depth.rank() <= deeper.rank(),
    ensures
        tells_more(
            bacnet_ip::BacnetIp.spec_parse(b, ctx),
            bacnet_ip::BacnetIp.spec_parse(b, at(ctx, deeper)),
        ),
{
    bacnet_ip_names();
}

/// BACnet/IP: the header lies within the bytes.
pub proof fn bacnet_ip_lies_within(b: Seq<u8>, ctx: Context)
    ensures
        lies_within(bacnet_ip::BacnetIp.spec_parse(b, ctx), b),
{
}

/// BACnet/IP: every depth that reads the keys names the conversation.
pub proof fn bacnet_ip_names_its_conversation(b: Seq<u8>, ctx: Context)
    requires
        ctx.keys(),
    ensures
        names_its_conversation(
            bacnet_ip::BacnetIp.spec_identity(),
            bacnet_ip::BacnetIp.spec_parse(b, ctx),
        ),
{
    bacnet_ip_names();
    reveal_with_fuel(key::sides, 4);
}

/// The names of the BFD fields differ.
proof fn bfd_names()
    ensures
        "diag"@.len() == 4,
        "state"@.len() == 5 && "state"@[0] == 's',
        "flags"@.len() == 5 && "flags"@[0] == 'f',
        "length"@.len() == 6,
        "version"@.len() == 7,
        "detect_mult"@.len() == 11,
        "desired_min_tx"@.len() == 14,
        "required_min_rx"@.len() == 15,
        "my_discriminator"@.len() == 16,
        "your_discriminator"@.len() == 18,
        "required_min_echo_rx"@.len() == 20,
{
    reveal_strlit("my_discriminator");
    reveal_strlit("your_discriminator");
    reveal_strlit("version");
    reveal_strlit("diag");
    reveal_strlit("state");
    reveal_strlit("flags");
    reveal_strlit("detect_mult");
    reveal_strlit("length");
    reveal_strlit("desired_min_tx");
    reveal_strlit("required_min_rx");
    reveal_strlit("required_min_echo_rx");
}

/// BFD: a deeper look at the same bytes tells all that a shallower one tells.
pub proof fn bfd_reads_deeper(b: Seq<u8>, ctx: Context, deeper: Depth)
    requires
        ctx.depth.rank() <= deeper.rank(),
    ensures
        tells_more(bfd::Bfd.spec_parse(b, ctx), bfd::Bfd.spec_parse(b, at(ctx, deeper))),
{
    bfd_names();
}

/// BFD: the header lies within the bytes.
pub proof fn bfd_lies_within(b: Seq<u8>, ctx: Context)
    ensures
        lies_within(bfd::Bfd.spec_parse(b, ctx), b),
{
}

/// BFD: every depth that reads the keys names the conversation.
pub proof fn bfd_names_its_conversation(b: Seq<u8>, ctx: Context)
    requires
        ctx.keys(),
    ensures
        names_its_conversation(bfd::Bfd.spec_identity(), bfd::Bfd.spec_parse(b, ctx)),
{
    bfd_names();
    reveal_with_fuel(key::sides, 4);
}

/// The names of the BGP fields differ.
proof fn bgp_names()
    ensures
        "app"@.len() == 3,
        "nlri"@.len() == 4,
        "my_as"@.len() == 5,
        "length"@.len() == 6,
        "msg_type"@.len() == 8 && "msg_type"@[0] == 'm',
        "next_hop"@.len() == 8 && "next_hop"@[0] == 'n',
        "hold_time"@.len() == 9,
        "bgp_identifier"@.len() == 14,
        "withdrawn_routes"@.len() == 16,
{
    reveal_strlit("app");
    reveal_strlit("msg_type");
    reveal_strlit("length");
    reveal_strlit("my_as");
    reveal_strlit("hold_time");
    reveal_strlit("bgp_identifier");
    reveal_strlit("withdrawn_routes");
    reveal_strlit("nlri");
    reveal_strlit("next_hop");
}

/// BGP: a deeper look at the same bytes tells all that a shallower one tells.
pub proof fn bgp_reads_deeper(b: Seq<u8>, ctx: Context, deeper: Depth)
    requires
        ctx.depth.rank() <= deeper.rank(),
    ensures
        tells_more(bgp::Bgp.spec_parse(b, ctx), bgp::Bgp.spec_parse(b, at(ctx, deeper))),
{
    bgp_names();
}

/// BGP: the header lies within the bytes.
pub proof fn bgp_lies_within(b: Seq<u8>, ctx: Context)
    ensures
        lies_within(bgp::Bgp.spec_parse(b, ctx), b),
{
}

/// BGP: every depth that reads the keys names the conversation.
pub proof fn bgp_names_its_conversation(b: Seq<u8>, ctx: Context)
    requires
        ctx.keys(),
    ensures
        names_its_conversation(bgp::Bgp.spec_identity(), bgp::Bgp.spec_parse(b, ctx)),
{
    bgp_names();
    reveal_with_fuel(key::sides, 4);
}

/// The names of the CDP fields differ.
proof fn cdp_names()
    ensures
        "ttl"@.len() == 3,
        "version"@.len() == 7 && "version"@[0] == 'v',
        "port_id"@.len() == 7 && "port_id"@[0] == 'p',
        "checksum"@.len() == 8 && "checksum"@[0] == 'c',
        "platform"@.len() == 8 && "platform"@[0] == 'p',
        "device_id"@.len() == 9,
        "ip_address"@.len() == 10,
        "native_vlan"@.len() == 11,
        "capabilities"@.len() == 12,
{
    reveal_strlit("version");
    reveal_strlit("ttl");
    reveal_strlit("checksum");
    reveal_strlit("device_id");
    reveal_strlit("port_id");
    reveal_strlit("platform");
    reveal_strlit("capabilities");
    reveal_strlit("native_vlan");
    reveal_strlit("ip_address");
}

/// CDP: a deeper look at the same bytes tells all that a shallower one tells.
pub proof fn cdp_reads_deeper(b: Seq<u8>, ctx: Context, deeper: Depth)
    requires
        ctx.depth.rank() <= deeper.rank(),
    ensures
        tells_more(cdp::Cdp.spec_parse(b, ctx), cdp::Cdp.spec_parse(b, at(ctx, deeper))),
{
    cdp_names();
}

/// CDP: the header lies within the bytes.
pub proof fn cdp_lies_within(b: Seq<u8>, ctx: Context)
    ensures
        lies_within(cdp::Cdp.spec_parse(b, ctx), b),
{
    if b.len() >= 4 {
        lemma_cdp_tlvs_within(b, 4, cdp::no_tlvs());
    }
}

/// The names of the DHCP fields differ.
proof fn dhcp_names()
    ensures
        "op"@.len() == 2,
        "app"@.len() == 3 && "app"@[0] == 'a',
        "xid"@.len() == 3 && "xid"@[0] == 'x',
        "msg_type"@.len() == 8 && "msg_type"@[0] == 'm',
        "hostname"@.len() == 8 && "hostname"@[0] == 'h',
        "server_id"@.len() == 9,
        "client_mac"@.len() == 10,
        "requested_ip"@.len() == 12,
{
    reveal_strlit("app");
    reveal_strlit("op");
    reveal_strlit("msg_type");
    reveal_strlit("xid");
    reveal_strlit("client_mac");
    reveal_strlit("requested_ip");
    reveal_strlit("server_id");
    reveal_strlit("hostname");
}

/// DHCP: a deeper look at the same bytes tells all that a shallower one tells.
pub proof fn dhcp_reads_deeper(b: Seq<u8>, ctx: Context, deeper: Depth)
    requires
        ctx.depth.rank() <= deeper.rank(),
    ensures
        tells_more(dhcp::Dhcp.spec_parse(b, ctx), dhcp::Dhcp.spec_parse(b, at(ctx, deeper))),
{
    dhcp_names();
}

/// DHCP: the header lies within the bytes.
pub proof fn dhcp_lies_within(b: Seq<u8>, ctx: Context)
    ensures
        lies_within(dhcp::Dhcp.spec_parse(b, ctx), b),
{
    if b.len() >= 240 {
        lemma_dhcp_options_within(b, 240, dhcp::no_options());
    }
}

/// DHCP: every depth that reads the keys names the conversation.
pub proof fn dhcp_names_its_conversation(b: Seq<u8>, ctx: Context)
    requires
        ctx.keys(),
    ensures
        names_its_conversation(dhcp::Dhcp.spec_identity(), dhcp::Dhcp.spec_parse(b, ctx)),
{
    dhcp_names();
    reveal_with_fuel(key::sides, 4);
}

/// The names of the DHCPv6 fields differ.
proof fn dhcpv6_names()
    ensures
        "app"@.len() == 3,
        "msg_type"@.len() == 8,
        "client_duid"@.len() == 11 && "client_duid"@[0] == 'c',
        "server_duid"@.len() == 11 && "server_duid"@[0] == 's',
        "requested_ip"@.len() == 12,
        "transaction_id"@.len() == 14 && "transaction_id"@[0] == 't',
        "valid_lifetime"@.len() == 14 && "valid_lifetime"@[0] == 'v',
        "preferred_lifetime"@.len() == 18,
{
    reveal_strlit("app");
    reveal_strlit("msg_type");
    reveal_strlit("transaction_id");
    reveal_strlit("client_duid");
    reveal_strlit("server_duid");
    reveal_strlit("requested_ip");
    reveal_strlit("preferred_lifetime");
    reveal_strlit("valid_lifetime");
}

/// DHCPv6: a deeper look at the same bytes tells all that a shallower one tells.
pub proof fn dhcpv6_reads_deeper(b: Seq<u8>, ctx: Context, deeper: Depth)
    requires
        ctx.depth.rank() <= deeper.rank(),
    ensures
        tells_more(
            dhcpv6::Dhcpv6.spec_parse(b, ctx),
            dhcpv6::Dhcpv6.spec_parse(b, at(ctx, deeper)),
        ),
{
    dhcpv6_names();
}

/// DHCPv6: the header lies within the bytes.
pub proof fn dhcpv6_lies_within(b: Seq<u8>, ctx: Context)
    ensures
        lies_within(dhcpv6::Dhcpv6.spec_parse(b, ctx), b),
{
}

/// DHCPv6: every depth that reads the keys names the conversation.
pub proof fn dhcpv6_names_its_conversation(b: Seq<u8>, ctx: Context)
    requires
        ctx.keys(),
    ensures
        names_its_conversation(dhcpv6::Dhcpv6.spec_identity(), dhcpv6::Dhcpv6.spec_parse(b, ctx)),
{
    dhcpv6_names();
    reveal_with_fuel(key::sides, 4);
}

/// The names of the DNP3 fields differ.
proof fn dnp3_names()
    ensures
        "length"@.len() == 6 && "length"@[0] == 'l',
        "source"@.len() == 6 && "source"@[0] == 's',
        "control"@.len() == 7,
        "start_bytes"@.len() == 11 && "start_bytes"@[0] == 's',
        "destination"@.len() == 11 && "destination"@[0] == 'd',
        "function_code"@.len() == 13,
{
    reveal_strlit("start_bytes");
    reveal_strlit("length");
    reveal_strlit("control");
    reveal_strlit("destination");
    reveal_strlit("source");
    reveal_strlit("function_code");
}

/// DNP3: a deeper look at the same bytes tells all that a shallower one tells.
pub proof fn dnp3_reads_deeper(b: Seq<u8>, ctx: Context, deeper: Depth)
    requires
        ctx.depth.rank() <= deeper.rank(),
    ensures
        tells_more(dnp3::Dnp3.spec_parse(b, ctx), dnp3::Dnp3.spec_parse(b, at(ctx, deeper))),
{
    dnp3_names();
}

/// DNP3: the header lies within the bytes.
pub proof fn dnp3_lies_within(b: Seq<u8>, ctx: Context)
    ensures
        lies_within(dnp3::Dnp3.spec_parse(b, ctx), b),
{
}

/// DNP3: every depth that reads the keys names the conversation.
pub proof fn dnp3_names_its_conversation(b: Seq<u8>, ctx: Context)
    requires
        ctx.keys(),
    ensures
        names_its_conversation(dnp3::Dnp3.spec_identity(), dnp3::Dnp3.spec_parse(b, ctx)),
{
    dnp3_names();
    reveal_with_fuel(key::sides, 4);
}

/// The names of the DNS fields differ.
proof fn dns_names()
    ensures
        "id"@.len() == 2,
        "app"@.len() == 3,
        "rcode"@.len() == 5 && "rcode"@[1] == 'c',
        "qname"@.len() == 5 && "qname"@[1] == 'n',
        "qtype"@.len() == 5 && "qtype"@[1] == 't',
        "opcode"@.len() == 6,
        "answers"@.len() == 7 && "answers"@[1] == 'n' && "answers"@[2] == 's',
        "qdcount"@.len() == 7 && "qdcount"@[1] == 'd' && "qdcount"@[2] == 'c',
        "ancount"@.len() == 7 && "ancount"@[1] == 'n' && "ancount"@[2] == 'c',
        "nscount"@.len() == 7 && "nscount"@[1] == 's' && "nscount"@[2] == 'c',
        "arcount"@.len() == 7 && "arcount"@[1] == 'r' && "arcount"@[2] == 'c',
        "is_response"@.len() == 11,
{
    reveal_strlit("app");
    reveal_strlit("id");
    reveal_strlit("is_response");
    reveal_strlit("opcode");
    reveal_strlit("rcode");
    reveal_strlit("qname");
    reveal_strlit("qtype");
    reveal_strlit("answers");
    reveal_strlit("qdcount");
    reveal_strlit("ancount");
    reveal_strlit("nscount");
    reveal_strlit("arcount");
}

/// DNS: a deeper look at the same bytes tells all that a shallower one tells.
pub proof fn dns_reads_deeper(b: Seq<u8>, ctx: Context, deeper: Depth)
    requires
        ctx.depth.rank() <= deeper.rank(),
    ensures
        tells_more(dns::Dns.spec_parse(b, ctx), dns::Dns.spec_parse(b, at(ctx, deeper))),
{
    dns_names();
}

/// DNS: the header lies within the bytes.
pub proof fn dns_lies_within(b: Seq<u8>, ctx: Context)
    ensures
        lies_within(dns::Dns.spec_parse(b, ctx), b),
{
    if !ctx.follows("tcp"@) {
        if b.len() >= 12 {
            lemma_sections_within(b);
        }
    } else if b.len() >= 2 + bytes::be16(b, 0) && bytes::be16(b, 0) >= 12 {
        lemma_sections_within(b.subrange(2, 2 + bytes::be16(b, 0)));
    }
}

/// DNS: every depth that reads the keys names the conversation.
pub proof fn dns_names_its_conversation(b: Seq<u8>, ctx: Context)
    requires
        ctx.keys(),
    ensures
        names_its_conversation(dns::Dns.spec_identity(), dns::Dns.spec_parse(b, ctx)),
{
    dns_names();
    reveal_with_fuel(key::sides, 4);
}

/// The names of the 802.11 fields differ.
proof fn dot11_names()
    ensures
        "ssid"@.len() == 4,
        "flags"@.len() == 5 && "flags"@[4] == 's',
        "addr1"@.len() == 5 && "addr1"@[4] == '1',
        "addr2"@.len() == 5 && "addr2"@[4] == '2',
        "addr3"@.len() == 5 && "addr3"@[4] == '3',
        "addr4"@.len() == 5 && "addr4"@[4] == '4',
        "seq_num"@.len() == 7,
        "duration"@.len() == 8,
        "frame_type"@.len() == 10,
        "qos_control"@.len() == 11,
        "frame_subtype"@.len() == 13,
{
    reveal_strlit("frame_type");
    reveal_strlit("frame_subtype");
    reveal_strlit("flags");
    reveal_strlit("duration");
    reveal_strlit("seq_num");
    reveal_strlit("addr1");
    reveal_strlit("addr2");
    reveal_strlit("addr3");
    reveal_strlit("addr4");
    reveal_strlit("qos_control");
    reveal_strlit("ssid");
}

/// 802.11: a deeper look at the same bytes tells all that a shallower one tells.
pub proof fn dot11_reads_deeper(b: Seq<u8>, ctx: Context, deeper: Depth)
    requires
        ctx.depth.rank() <= deeper.rank(),
    ensures
        tells_more(dot11::Dot11.spec_parse(b, ctx), dot11::Dot11.spec_parse(b, at(ctx, deeper))),
{
    dot11_names();
}

/// 802.11: the header lies within the bytes.
pub proof fn dot11_lies_within(b: Seq<u8>, ctx: Context)
    ensures
        lies_within(dot11::Dot11.spec_parse(b, ctx), b),
{
}

/// 802.11: every depth that reads the keys names the conversation of a frame with a
/// transmitter.
pub proof fn dot11_names_its_conversation(b: Seq<u8>, ctx: Context)
    requires
        ctx.keys(),
        dot11::has_addr2(b),
    ensures
        names_its_conversation(dot11::Dot11.spec_identity(), dot11::Dot11.spec_parse(b, ctx)),
{
    dot11_names();
    reveal_with_fuel(key::sides, 4);
}

/// The names of the EAPOL fields differ.
proof fn eapol_names()
    ensures
        "nonce"@.len() == 5,
        "key_iv"@.len() == 6,
        "version"@.len() == 7 && "version"@[4] == 'i',
        "key_rsc"@.len() == 7 && "key_rsc"@[4] == 'r',
        "key_mic"@.len() == 7 && "key_mic"@[4] == 'm',
        "key_info"@.len() == 8,
        "key_length"@.len() == 10,
        "packet_type"@.len() == 11 && "packet_type"@[0] == 'p',
        "body_length"@.len() == 11 && "body_length"@[0] == 'b',
        "replay_counter"@.len() == 14,
        "key_data_length"@.len() == 15,
        "key_descriptor_type"@.len() == 19,
{
    reveal_strlit("version");
    reveal_strlit("packet_type");
    reveal_strlit("body_length");
    reveal_strlit("key_descriptor_type");
    reveal_strlit("key_info");
    reveal_strlit("key_length");
    reveal_strlit("replay_counter");
    reveal_strlit("nonce");
    reveal_strlit("key_iv");
    reveal_strlit("key_rsc");
    reveal_strlit("key_mic");
    reveal_strlit("key_data_length");
}

/// EAPOL: a deeper look at the same bytes tells all that a shallower one tells.
pub proof fn eapol_reads_deeper(b: Seq<u8>, ctx: Context, deeper: Depth)
    requires
        ctx.depth.rank() <= deeper.rank(),
    ensures
        tells_more(eapol::Eapol.spec_parse(b, ctx), eapol::Eapol.spec_parse(b, at(ctx, deeper))),
{
    eapol_names();
}

/// EAPOL: the header lies within the bytes.
pub proof fn eapol_lies_within(b: Seq<u8>, ctx: Context)
    ensures
        lies_within(eapol::Eapol.spec_parse(b, ctx), b),
{
}

/// The names of the EtherNet/IP fields differ.
proof fn enip_names()
    ensures
        "length"@.len() == 6 && "length"@[0] == 'l',
        "status"@.len() == 6 && "status"@[0] == 's',
        "command"@.len() == 7,
        "cip_service"@.len() == 11,
        "session_handle"@.len() == 14,
{
    reveal_strlit("session_handle");
    reveal_strlit("command");
    reveal_strlit("length");
    reveal_strlit("status");
    reveal_strlit("cip_service");
}

/// EtherNet/IP: a deeper look at the same bytes tells all that a shallower one tells.
pub proof fn enip_reads_deeper(b: Seq<u8>, ctx: Context, deeper: Depth)
    requires
        ctx.depth.rank() <= deeper.rank(),
    ensures
        tells_more(enip::Enip.spec_parse(b, ctx), enip::Enip.spec_parse(b, at(ctx, deeper))),
{
    enip_names();
}

/// EtherNet/IP: the header lies within the bytes.
pub proof fn enip_lies_within(b: Seq<u8>, ctx: Context)
    ensures
        lies_within(enip::Enip.spec_parse(b, ctx), b),
{
}

/// EtherNet/IP: every depth that reads the keys names the conversation.
pub proof fn enip_names_its_conversation(b: Seq<u8>, ctx: Context)
    requires
        ctx.keys(),
    ensures
        names_its_conversation(enip::Enip.spec_identity(), enip::Enip.spec_parse(b, ctx)),
{
    enip_names();
    reveal_with_fuel(key::sides, 4);
}

/// The names of the ERSPAN fields differ.
proof fn erspan_names()
    ensures
        "cos"@.len() == 3 && "cos"@[0] == 'c',
        "sgt"@.len() == 3 && "sgt"@[0] == 's',
        "vlan"@.len() == 4,
        "index"@.len() == 5,
        "version"@.len() == 7,
        "truncated"@.len() == 9 && "truncated"@[1] == 'r',
        "timestamp"@.len() == 9 && "timestamp"@[1] == 'i',
        "session_id"@.len() == 10 && "session_id"@[0] == 's',
        "frame_type"@.len() == 10 && "frame_type"@[0] == 'f',
{
    reveal_strlit("session_id");
    reveal_strlit("version");
    reveal_strlit("vlan");
    reveal_strlit("cos");
    reveal_strlit("truncated");
    reveal_strlit("index");
    reveal_strlit("timestamp");
    reveal_strlit("sgt");
    reveal_strlit("frame_type");
}

/// ERSPAN: a deeper look at the same bytes tells all that a shallower one tells.
pub proof fn erspan_reads_deeper(b: Seq<u8>, ctx: Context, deeper: Depth)
    requires
        ctx.depth.rank() <= deeper.rank(),
    ensures
        tells_more(
            erspan::Erspan.spec_parse(b, ctx),
            erspan::Erspan.spec_parse(b, at(ctx, deeper)),
        ),
{
    erspan_names();
}

/// ERSPAN: the header lies within the bytes.
pub proof fn erspan_lies_within(b: Seq<u8>, ctx: Context)
    ensures
        lies_within(erspan::Erspan.spec_parse(b, ctx), b),
{
}

/// ERSPAN: every depth that reads the keys names the conversation.
pub proof fn erspan_names_its_conversation(b: Seq<u8>, ctx: Context)
    requires
        ctx.keys(),
    ensures
        names_its_conversation(erspan::Erspan.spec_identity(), erspan::Erspan.spec_parse(b, ctx)),
{
    erspan_names();
    reveal_with_fuel(key::sides, 4);
}

/// The names of the ESP fields differ.
proof fn esp_names()
    ensures
        "spi"@.len() == 3,
        "sequence"@.len() == 8,
{
    reveal_strlit("spi");
    reveal_strlit("sequence");
}

/// ESP: a deeper look at the same bytes tells all that a shallower one tells.
pub proof fn esp_reads_deeper(b: Seq<u8>, ctx: Context, deeper: Depth)
    requires
        ctx.depth.rank() <= deeper.rank(),
    ensures
        tells_more(esp::Esp.spec_parse(b, ctx), esp::Esp.spec_parse(b, at(ctx, deeper))),
{
    esp_names();
}

/// ESP: the header lies within the bytes.
pub proof fn esp_lies_within(b: Seq<u8>, ctx: Context)
    ensures
        lies_within(esp::Esp.spec_parse(b, ctx), b),
{
}

/// ESP: every depth that reads the keys names the conversation.
pub proof fn esp_names_its_conversation(b: Seq<u8>, ctx: Context)
    requires
        ctx.keys(),
    ensures
        names_its_conversation(esp::Esp.spec_identity(), esp::Esp.spec_parse(b, ctx)),
{
    esp_names();
    reveal_with_fuel(key::sides, 4);
}

/// The names of the Ethernet fields differ.
proof fn ethernet_names()
    ensures
        "src_mac"@.len() == 7 && "src_mac"@[0] == 's',
        "dst_mac"@.len() == 7 && "dst_mac"@[0] == 'd',
        "ethertype"@.len() == 9,
{
    reveal_strlit("src_mac");
    reveal_strlit("dst_mac");
    reveal_strlit("ethertype");
}

/// Ethernet: a deeper look at the same bytes tells all that a shallower one tells.
pub proof fn ethernet_reads_deeper(b: Seq<u8>, ctx: Context, deeper: Depth)
    requires
        ctx.depth.rank() <= deeper.rank(),
    ensures
        tells_more(
            ethernet::Ethernet.spec_parse(b, ctx),
            ethernet::Ethernet.spec_parse(b, at(ctx, deeper)),
        ),
{
    ethernet_names();
}

/// Ethernet: the header lies within the bytes.
pub proof fn ethernet_lies_within(b: Seq<u8>, ctx: Context)
    ensures
        lies_within(ethernet::Ethernet.spec_parse(b, ctx), b),
{
}

/// Ethernet: every depth that reads the keys names the conversation.
pub proof fn ethernet_names_its_conversation(b: Seq<u8>, ctx: Context)
    requires
        ctx.keys(),
    ensures
        names_its_conversation(
            ethernet::Ethernet.spec_identity(),
            ethernet::Ethernet.spec_parse(b, ctx),
        ),
{
    ethernet_names();
    reveal_with_fuel(key::sides, 4);
}

/// The names of the FTP fields differ.
proof fn ftp_names()
    ensures
        "app"@.len() == 3 && "app"@[1] == 'p',
        "arg"@.len() == 3 && "arg"@[1] == 'r',
        "command"@.len() == 7,
        "is_request"@.len() == 10 && "is_request"@[0] == 'i',
        "reply_code"@.len() == 10 && "reply_code"@[0] == 'r',
{
    reveal_strlit("app");
    reveal_strlit("is_request");
    reveal_strlit("command");
    reveal_strlit("reply_code");
    reveal_strlit("arg");
}

/// FTP: a deeper look at the same bytes tells all that a shallower one tells.
pub proof fn ftp_reads_deeper(b: Seq<u8>, ctx: Context, deeper: Depth)
    requires
        ctx.depth.rank() <= deeper.rank(),
    ensures
        tells_more(ftp::Ftp.spec_parse(b, ctx), ftp::Ftp.spec_parse(b, at(ctx, deeper))),
{
    ftp_names();
}

/// FTP: the header lies within the bytes.
pub proof fn ftp_lies_within(b: Seq<u8>, ctx: Context)
    ensures
        lies_within(ftp::Ftp.spec_parse(b, ctx), b),
{
    lemma_found_within(b, seq![0x0Au8], 0);
}

/// FTP: every depth that reads the keys names the conversation.
pub proof fn ftp_names_its_conversation(b: Seq<u8>, ctx: Context)
    requires
        ctx.keys(),
    ensures
        names_its_conversation(ftp::Ftp.spec_identity(), ftp::Ftp.spec_parse(b, ctx)),
{
    ftp_names();
    reveal_with_fuel(key::sides, 4);
}

/// The names of the Geneve fields differ.
proof fn geneve_names()
    ensures
        "vni"@.len() == 3,
        "o_bit"@.len() == 5 && "o_bit"@[0] == 'o',
        "c_bit"@.len() == 5 && "c_bit"@[0] == 'c',
        "version"@.len() == 7 && "version"@[3] == 's',
        "opt_len"@.len() == 7 && "opt_len"@[3] == '_',
        "options"@.len() == 7 && "options"@[3] == 'i',
        "protocol_type"@.len() == 13,
{
    reveal_strlit("vni");
    reveal_strlit("version");
    reveal_strlit("opt_len");
    reveal_strlit("o_bit");
    reveal_strlit("c_bit");
    reveal_strlit("protocol_type");
    reveal_strlit("options");
}

/// Geneve: a deeper look at the same bytes tells all that a shallower one tells.
pub proof fn geneve_reads_deeper(b: Seq<u8>, ctx: Context, deeper: Depth)
    requires
        ctx.depth.rank() <= deeper.rank(),
    ensures
        tells_more(
            geneve::Geneve.spec_parse(b, ctx),
            geneve::Geneve.spec_parse(b, at(ctx, deeper)),
        ),
{
    geneve_names();
}

/// Geneve: the header lies within the bytes.
pub proof fn geneve_lies_within(b: Seq<u8>, ctx: Context)
    ensures
        lies_within(geneve::Geneve.spec_parse(b, ctx), b),
{
}

/// Geneve: every depth that reads the keys names the conversation.
pub proof fn geneve_names_its_conversation(b: Seq<u8>, ctx: Context)
    requires
        ctx.keys(),
    ensures
        names_its_conversation(geneve::Geneve.spec_identity(), geneve::Geneve.spec_parse(b, ctx)),
{
    geneve_names();
    reveal_with_fuel(key::sides, 4);
}

/// The names of the GRE fields differ.
proof fn gre_names()
    ensures
        "key"@.len() == 3,
        "flags"@.len() == 5,
        "version"@.len() == 7,
        "protocol"@.len() == 8 && "protocol"@[0] == 'p',
        "checksum"@.len() == 8 && "checksum"@[0] == 'c',
        "sequence"@.len() == 8 && "sequence"@[0] == 's',
{
    reveal_strlit("key");
    reveal_strlit("flags");
    reveal_strlit("protocol");
    reveal_strlit("version");
    reveal_strlit("checksum");
    reveal_strlit("sequence");
}

/// GRE: a deeper look at the same bytes tells all that a shallower one tells.
pub proof fn gre_reads_deeper(b: Seq<u8>, ctx: Context, deeper: Depth)
    requires
        ctx.depth.rank() <= deeper.rank(),
    ensures
        tells_more(gre::Gre.spec_parse(b, ctx), gre::Gre.spec_parse(b, at(ctx, deeper))),
{
    gre_names();
}

/// GRE: the header lies within the bytes.
pub proof fn gre_lies_within(b: Seq<u8>, ctx: Context)
    ensures
        lies_within(gre::Gre.spec_parse(b, ctx), b),
{
}

/// GRE: every depth that reads the keys names the conversation.
pub proof fn gre_names_its_conversation(b: Seq<u8>, ctx: Context)
    requires
        ctx.keys(),
    ensures
        names_its_conversation(gre::Gre.spec_identity(), gre::Gre.spec_parse(b, ctx)),
{
    gre_names();
    reveal_with_fuel(key::sides, 4);
}

/// The names of the GTP-C fields differ.
proof fn gtp_c_names()
    ensures
        "apn"@.len() == 3,
        "teid"@.len() == 4 && "teid"@[0] == 't',
        "imsi"@.len() == 4 && "imsi"@[0] == 'i',
        "length"@.len() == 6,
        "version"@.len() == 7,
        "message_type"@.len() == 12,
{
    reveal_strlit("teid");
    reveal_strlit("version");
    reveal_strlit("message_type");
    reveal_strlit("length");
    reveal_strlit("imsi");
    reveal_strlit("apn");
}

/// GTP-C: a deeper look at the same bytes tells all that a shallower one tells.
pub proof fn gtp_c_reads_deeper(b: Seq<u8>, ctx: Context, deeper: Depth)
    requires
        ctx.depth.rank() <= deeper.rank(),
    ensures
        tells_more(gtp_c::GtpC.spec_parse(b, ctx), gtp_c::GtpC.spec_parse(b, at(ctx, deeper))),
{
    gtp_c_names();
}

/// GTP-C: the header lies within the bytes.
pub proof fn gtp_c_lies_within(b: Seq<u8>, ctx: Context)
    ensures
        lies_within(gtp_c::GtpC.spec_parse(b, ctx), b),
{
}

/// GTP-C: every depth that reads the keys names the conversation.
pub proof fn gtp_c_names_its_conversation(b: Seq<u8>, ctx: Context)
    requires
        ctx.keys(),
    ensures
        names_its_conversation(gtp_c::GtpC.spec_identity(), gtp_c::GtpC.spec_parse(b, ctx)),
{
    gtp_c_names();
    reveal_with_fuel(key::sides, 4);
}

/// The names of the GTP-U fields differ.
proof fn gtp_u_names()
    ensures
        "teid"@.len() == 4,
        "flags"@.len() == 5,
        "length"@.len() == 6,
        "message_type"@.len() == 12,
        "sequence_number"@.len() == 15,
{
    reveal_strlit("teid");
    reveal_strlit("message_type");
    reveal_strlit("flags");
    reveal_strlit("length");
    reveal_strlit("sequence_number");
}

/// GTP-U: a deeper look at the same bytes tells all that a shallower one tells.
pub proof fn gtp_u_reads_deeper(b: Seq<u8>, ctx: Context, deeper: Depth)
    requires
        ctx.depth.rank() <= deeper.rank(),
    ensures
        tells_more(gtp_u::GtpU.spec_parse(b, ctx), gtp_u::GtpU.spec_parse(b, at(ctx, deeper))),
{
    gtp_u_names();
}

/// GTP-U: the header lies within the bytes.
pub proof fn gtp_u_lies_within(b: Seq<u8>, ctx: Context)
    ensures
        lies_within(gtp_u::GtpU.spec_parse(b, ctx), b),
{
    if b.len() >= 12 {
        lemma_extensions_within(b, 12, b[11]);
    }
}

/// GTP-U: every depth that reads the keys names the conversation.
pub proof fn gtp_u_names_its_conversation(b: Seq<u8>, ctx: Context)
    requires
        ctx.keys(),
    ensures
        names_its_conversation(gtp_u::GtpU.spec_identity(), gtp_u::GtpU.spec_parse(b, ctx)),
{
    gtp_u_names();
    reveal_with_fuel(key::sides, 4);
}

/// The names of the HSRP fields differ.
proof fn hsrp_names()
    ensures
        "group"@.len() == 5 && "group"@[0] == 'g',
        "state"@.len() == 5 && "state"@[0] == 's',
        "opcode"@.len() == 6,
        "version"@.len() == 7,
        "priority"@.len() == 8 && "priority"@[0] == 'p',
        "holdtime"@.len() == 8 && "holdtime"@[0] == 'h',
        "hellotime"@.len() == 9 && "hellotime"@[0] == 'h',
        "auth_data"@.len() == 9 && "auth_data"@[0] == 'a',
        "virtual_ip"@.len() == 10,
{
    reveal_strlit("group");
    reveal_strlit("version");
    reveal_strlit("opcode");
    reveal_strlit("state");
    reveal_strlit("priority");
    reveal_strlit("hellotime");
    reveal_strlit("holdtime");
    reveal_strlit("virtual_ip");
    reveal_strlit("auth_data");
}

/// HSRP: a deeper look at the same bytes tells all that a shallower one tells.
pub proof fn hsrp_reads_deeper(b: Seq<u8>, ctx: Context, deeper: Depth)
    requires
        ctx.depth.rank() <= deeper.rank(),
    ensures
        tells_more(hsrp::Hsrp.spec_parse(b, ctx), hsrp::Hsrp.spec_parse(b, at(ctx, deeper))),
{
    hsrp_names();
}

/// HSRP: the header lies within the bytes.
pub proof fn hsrp_lies_within(b: Seq<u8>, ctx: Context)
    ensures
        lies_within(hsrp::Hsrp.spec_parse(b, ctx), b),
{
}

/// HSRP: every depth that reads the keys names the conversation.
pub proof fn hsrp_names_its_conversation(b: Seq<u8>, ctx: Context)
    requires
        ctx.keys(),
    ensures
        names_its_conversation(hsrp::Hsrp.spec_identity(), hsrp::Hsrp.spec_parse(b, ctx)),
{
    hsrp_names();
    reveal_with_fuel(key::sides, 4);
}

/// The names of the HTTP/1 fields differ.
proof fn http_names()
    ensures
        "app"@.len() == 3,
        "host"@.len() == 4,
        "method"@.len() == 6,
        "version"@.len() == 7 && "version"@[0] == 'v',
        "upgrade"@.len() == 7 && "upgrade"@[0] == 'u',
        "is_request"@.len() == 10 && "is_request"@[0] == 'i',
        "user_agent"@.len() == 10 && "user_agent"@[0] == 'u',
        "status_code"@.len() == 11,
        "content_type"@.len() == 12,
        "content_length"@.len() == 14,
{
    reveal_strlit("app");
    reveal_strlit("is_request");
    reveal_strlit("method");
    reveal_strlit("status_code");
    reveal_strlit("version");
    reveal_strlit("host");
    reveal_strlit("content_type");
    reveal_strlit("content_length");
    reveal_strlit("user_agent");
    reveal_strlit("upgrade");
}

/// HTTP/1: a deeper look at the same bytes tells all that a shallower one tells.
pub proof fn http_reads_deeper(b: Seq<u8>, ctx: Context, deeper: Depth)
    requires
        ctx.depth.rank() <= deeper.rank(),
    ensures
        tells_more(http::Http.spec_parse(b, ctx), http::Http.spec_parse(b, at(ctx, deeper))),
{
    http_names();
}

/// HTTP/1: the header lies within the bytes.
pub proof fn http_lies_within(b: Seq<u8>, ctx: Context)
    ensures
        lies_within(http::Http.spec_parse(b, ctx), b),
{
    lemma_found_within(b, http::blank_line(), 0);
}

/// HTTP/1: every depth that reads the keys names the conversation.
pub proof fn http_names_its_conversation(b: Seq<u8>, ctx: Context)
    requires
        ctx.keys(),
    ensures
        names_its_conversation(http::Http.spec_identity(), http::Http.spec_parse(b, ctx)),
{
    http_names();
    reveal_with_fuel(key::sides, 4);
}

/// The names of the HTTP/2 fields differ.
proof fn http2_names()
    ensures
        "flags"@.len() == 5,
        "length"@.len() == 6,
        "stream_id"@.len() == 9,
        "frame_type"@.len() == 10,
        "settings_entries"@.len() == 16,
{
    reveal_strlit("stream_id");
    reveal_strlit("frame_type");
    reveal_strlit("flags");
    reveal_strlit("length");
    reveal_strlit("settings_entries");
}

/// HTTP/2: a deeper look at the same bytes tells all that a shallower one tells.
pub proof fn http2_reads_deeper(b: Seq<u8>, ctx: Context, deeper: Depth)
    requires
        ctx.depth.rank() <= deeper.rank(),
    ensures
        tells_more(http2::Http2.spec_parse(b, ctx), http2::Http2.spec_parse(b, at(ctx, deeper))),
{
    http2_names();
}

/// HTTP/2: the header lies within the bytes.
pub proof fn http2_lies_within(b: Seq<u8>, ctx: Context)
    ensures
        lies_within(http2::Http2.spec_parse(b, ctx), b),
{
}

/// HTTP/2: every depth that reads the keys names the conversation.
pub proof fn http2_names_its_conversation(b: Seq<u8>, ctx: Context)
    requires
        ctx.keys(),
    ensures
        names_its_conversation(http2::Http2.spec_identity(), http2::Http2.spec_parse(b, ctx)),
{
    http2_names();
    reveal_with_fuel(key::sides, 4);
}

/// The names of the ICMPv4 fields differ.
proof fn icmpv4_names()
    ensures
        "type"@.len() == 4 && "type"@[0] == 't',
        "code"@.len() == 4 && "code"@[0] == 'c',
        "rest_of_header"@.len() == 14,
{
    reveal_strlit("type");
    reveal_strlit("code");
    reveal_strlit("rest_of_header");
}

/// ICMPv4: a deeper look at the same bytes tells all that a shallower one tells.
pub proof fn icmpv4_reads_deeper(b: Seq<u8>, ctx: Context, deeper: Depth)
    requires
        ctx.depth.rank() <= deeper.rank(),
    ensures
        tells_more(
            icmpv4::Icmpv4.spec_parse(b, ctx),
            icmpv4::Icmpv4.spec_parse(b, at(ctx, deeper)),
        ),
{
    icmpv4_names();
}

/// ICMPv4: the header lies within the bytes.
pub proof fn icmpv4_lies_within(b: Seq<u8>, ctx: Context)
    ensures
        lies_within(icmpv4::Icmpv4.spec_parse(b, ctx), b),
{
}

/// The names of the ICMPv6 fields differ.
proof fn icmpv6_names()
    ensures
        "type"@.len() == 4 && "type"@[0] == 't',
        "code"@.len() == 4 && "code"@[0] == 'c',
        "rest_of_header"@.len() == 14,
{
    reveal_strlit("type");
    reveal_strlit("code");
    reveal_strlit("rest_of_header");
}

/// ICMPv6: a deeper look at the same bytes tells all that a shallower one tells.
pub proof fn icmpv6_reads_deeper(b: Seq<u8>, ctx: Context, deeper: Depth)
    requires
        ctx.depth.rank() <= deeper.rank(),
    ensures
        tells_more(
            icmpv6::Icmpv6.spec_parse(b, ctx),
            icmpv6::Icmpv6.spec_parse(b, at(ctx, deeper)),
        ),
{
    icmpv6_names();
}

/// ICMPv6: the header lies within the bytes.
pub proof fn icmpv6_lies_within(b: Seq<u8>, ctx: Context)
    ensures
        lies_within(icmpv6::Icmpv6.spec_parse(b, ctx), b),
{
}

/// The names of the IGMP fields differ.
proof fn igmp_names()
    ensures
        "type"@.len() == 4,
        "max_resp"@.len() == 8,
        "group_addr"@.len() == 10,
{
    reveal_strlit("type");
    reveal_strlit("max_resp");
    reveal_strlit("group_addr");
}

/// IGMP: a deeper look at the same bytes tells all that a shallower one tells.
pub proof fn igmp_reads_deeper(b: Seq<u8>, ctx: Context, deeper: Depth)
    requires
        ctx.depth.rank() <= deeper.rank(),
    ensures
        tells_more(igmp::Igmp.spec_parse(b, ctx), igmp::Igmp.spec_parse(b, at(ctx, deeper))),
{
    igmp_names();
}

/// IGMP: the header lies within the bytes.
pub proof fn igmp_lies_within(b: Seq<u8>, ctx: Context)
    ensures
        lies_within(igmp::Igmp.spec_parse(b, ctx), b),
{
}

/// The names of the IMAP fields differ.
proof fn imap_names()
    ensures
        "app"@.len() == 3 && "app"@[0] == 'a',
        "tag"@.len() == 3 && "tag"@[0] == 't',
        "args"@.len() == 4,
        "command"@.len() == 7,
        "is_response"@.len() == 11,
        "response_status"@.len() == 15,
{
    reveal_strlit("app");
    reveal_strlit("tag");
    reveal_strlit("command");
    reveal_strlit("is_response");
    reveal_strlit("response_status");
    reveal_strlit("args");
}

/// IMAP: a deeper look at the same bytes tells all that a shallower one tells.
pub proof fn imap_reads_deeper(b: Seq<u8>, ctx: Context, deeper: Depth)
    requires
        ctx.depth.rank() <= deeper.rank(),
    ensures
        tells_more(imap::Imap.spec_parse(b, ctx), imap::Imap.spec_parse(b, at(ctx, deeper))),
{
    imap_names();
}

/// IMAP: the header lies within the bytes.
pub proof fn imap_lies_within(b: Seq<u8>, ctx: Context)
    ensures
        lies_within(imap::Imap.spec_parse(b, ctx), b),
{
    lemma_found_within(b, seq![0x0Au8], 0);
}

/// IMAP: every depth that reads the keys names the conversation.
pub proof fn imap_names_its_conversation(b: Seq<u8>, ctx: Context)
    requires
        ctx.keys(),
    ensures
        names_its_conversation(imap::Imap.spec_identity(), imap::Imap.spec_parse(b, ctx)),
{
    imap_names();
    reveal_with_fuel(key::sides, 4);
}

/// The names of the IPFIX fields differ.
proof fn ipfix_names()
    ensures
        "app"@.len() == 3,
        "sets"@.len() == 4,
        "length"@.len() == 6,
        "version"@.len() == 7,
        "sequence"@.len() == 8,
        "domain_id"@.len() == 9,
{
    reveal_strlit("app");
    reveal_strlit("version");
    reveal_strlit("length");
    reveal_strlit("sequence");
    reveal_strlit("domain_id");
    reveal_strlit("sets");
}

/// IPFIX: a deeper look at the same bytes tells all that a shallower one tells.
pub proof fn ipfix_reads_deeper(b: Seq<u8>, ctx: Context, deeper: Depth)
    requires
        ctx.depth.rank() <= deeper.rank(),
    ensures
        tells_more(ipfix::Ipfix.spec_parse(b, ctx), ipfix::Ipfix.spec_parse(b, at(ctx, deeper))),
{
    ipfix_names();
}

/// IPFIX: the header lies within the bytes.
pub proof fn ipfix_lies_within(b: Seq<u8>, ctx: Context)
    ensures
        lies_within(ipfix::Ipfix.spec_parse(b, ctx), b),
{
}

/// IPFIX: every depth that reads the keys names the conversation.
pub proof fn ipfix_names_its_conversation(b: Seq<u8>, ctx: Context)
    requires
        ctx.keys(),
    ensures
        names_its_conversation(ipfix::Ipfix.spec_identity(), ipfix::Ipfix.spec_parse(b, ctx)),
{
    ipfix_names();
    reveal_with_fuel(key::sides, 4);
}

/// The names of the IPv4 fields differ.
proof fn ipv4_names()
    ensures
        "id"@.len() == 2,
        "ttl"@.len() == 3 && "ttl"@[0] == 't',
        "ihl"@.len() == 3 && "ihl"@[0] == 'i',
        "ecn"@.len() == 3 && "ecn"@[0] == 'e',
        "dscp"@.len() == 4,
        "flags"@.len() == 5,
        "options"@.len() == 7,
        "src_addr"@.len() == 8 && "src_addr"@[0] == 's',
        "dst_addr"@.len() == 8 && "dst_addr"@[0] == 'd',
        "protocol"@.len() == 8 && "protocol"@[0] == 'p',
        "checksum"@.len() == 8 && "checksum"@[0] == 'c',
        "total_len"@.len() == 9,
        "frag_offset"@.len() == 11,
{
    reveal_strlit("src_addr");
    reveal_strlit("dst_addr");
    reveal_strlit("protocol");
    reveal_strlit("ttl");
    reveal_strlit("total_len");
    reveal_strlit("flags");
    reveal_strlit("frag_offset");
    reveal_strlit("ihl");
    reveal_strlit("dscp");
    reveal_strlit("ecn");
    reveal_strlit("id");
    reveal_strlit("checksum");
    reveal_strlit("options");
}

/// IPv4: a deeper look at the same bytes tells all that a shallower one tells.
pub proof fn ipv4_reads_deeper(b: Seq<u8>, ctx: Context, deeper: Depth)
    requires
        ctx.depth.rank() <= deeper.rank(),
    ensures
        tells_more(ipv4::Ipv4.spec_parse(b, ctx), ipv4::Ipv4.spec_parse(b, at(ctx, deeper))),
{
    ipv4_names();
}

/// IPv4: the header lies within the bytes.
pub proof fn ipv4_lies_within(b: Seq<u8>, ctx: Context)
    ensures
        lies_within(ipv4::Ipv4.spec_parse(b, ctx), b),
{
}

/// IPv4: every depth that reads the keys names the conversation.
pub proof fn ipv4_names_its_conversation(b: Seq<u8>, ctx: Context)
    requires
        ctx.keys(),
    ensures
        names_its_conversation(ipv4::Ipv4.spec_identity(), ipv4::Ipv4.spec_parse(b, ctx)),
{
    ipv4_names();
    reveal_with_fuel(key::sides, 4);
}

/// The names of the IPv6 fields differ.
proof fn ipv6_names()
    ensures
        "src_addr"@.len() == 8 && "src_addr"@[0] == 's',
        "dst_addr"@.len() == 8 && "dst_addr"@[0] == 'd',
        "hop_limit"@.len() == 9,
        "flow_label"@.len() == 10,
        "next_header"@.len() == 11 && "next_header"@[0] == 'n',
        "payload_len"@.len() == 11 && "payload_len"@[0] == 'p',
        "traffic_class"@.len() == 13,
{
    reveal_strlit("src_addr");
    reveal_strlit("dst_addr");
    reveal_strlit("next_header");
    reveal_strlit("hop_limit");
    reveal_strlit("payload_len");
    reveal_strlit("traffic_class");
    reveal_strlit("flow_label");
}

/// IPv6: a deeper look at the same bytes tells all that a shallower one tells.
pub proof fn ipv6_reads_deeper(b: Seq<u8>, ctx: Context, deeper: Depth)
    requires
        ctx.depth.rank() <= deeper.rank(),
    ensures
        tells_more(ipv6::Ipv6.spec_parse(b, ctx), ipv6::Ipv6.spec_parse(b, at(ctx, deeper))),
{
    ipv6_names();
}

/// IPv6: the header lies within the bytes.
pub proof fn ipv6_lies_within(b: Seq<u8>, ctx: Context)
    ensures
        lies_within(ipv6::Ipv6.spec_parse(b, ctx), b),
{
    if b.len() >= 40 {
        lemma_chain_within(b, 40, b[6], 0, 0);
    }
}

/// IPv6: every depth that reads the keys names the conversation.
pub proof fn ipv6_names_its_conversation(b: Seq<u8>, ctx: Context)
    requires
        ctx.keys(),
    ensures
        names_its_conversation(ipv6::Ipv6.spec_identity(), ipv6::Ipv6.spec_parse(b, ctx)),
{
    ipv6_names();
    reveal_with_fuel(key::sides, 4);
}

/// The names of the Kerberos fields differ.
proof fn kerberos_names()
    ensures
        "app"@.len() == 3,
        "msg_type"@.len() == 8,
        "der_length"@.len() == 10,
{
    reveal_strlit("app");
    reveal_strlit("msg_type");
    reveal_strlit("der_length");
}

/// Kerberos: a deeper look at the same bytes tells all that a shallower one tells.
pub proof fn kerberos_reads_deeper(b: Seq<u8>, ctx: Context, deeper: Depth)
    requires
        ctx.depth.rank() <= deeper.rank(),
    ensures
        tells_more(
            kerberos::Kerberos.spec_parse(b, ctx),
            kerberos::Kerberos.spec_parse(b, at(ctx, deeper)),
        ),
{
    kerberos_names();
}

/// Kerberos: the header lies within the bytes.
pub proof fn kerberos_lies_within(b: Seq<u8>, ctx: Context)
    ensures
        lies_within(kerberos::Kerberos.spec_parse(b, ctx), b),
{
}

/// Kerberos: every depth that reads the keys names the conversation.
pub proof fn kerberos_names_its_conversation(b: Seq<u8>, ctx: Context)
    requires
        ctx.keys(),
    ensures
        names_its_conversation(
            kerberos::Kerberos.spec_identity(),
            kerberos::Kerberos.spec_parse(b, ctx),
        ),
{
    kerberos_names();
    reveal_with_fuel(key::sides, 4);
}

/// The names of the L2TPv3 fields differ.
proof fn l2tpv3_names()
    ensures
        "t_bit"@.len() == 5,
        "session_id"@.len() == 10,
        "control_connection_id"@.len() == 21,
{
    reveal_strlit("t_bit");
    reveal_strlit("session_id");
    reveal_strlit("control_connection_id");
}

/// L2TPv3: a deeper look at the same bytes tells all that a shallower one tells.
pub proof fn l2tpv3_reads_deeper(b: Seq<u8>, ctx: Context, deeper: Depth)
    requires
        ctx.depth.rank() <= deeper.rank(),
    ensures
        tells_more(
            l2tpv3::L2tpv3.spec_parse(b, ctx),
            l2tpv3::L2tpv3.spec_parse(b, at(ctx, deeper)),
        ),
{
    l2tpv3_names();
}

/// L2TPv3: the header lies within the bytes.
pub proof fn l2tpv3_lies_within(b: Seq<u8>, ctx: Context)
    ensures
        lies_within(l2tpv3::L2tpv3.spec_parse(b, ctx), b),
{
}

/// L2TPv3: every depth that reads the keys names the conversation of a data message.
pub proof fn l2tpv3_names_its_conversation(b: Seq<u8>, ctx: Context)
    requires
        ctx.keys(),
        !l2tpv3::is_control(b, ctx),
    ensures
        names_its_conversation(l2tpv3::L2tpv3.spec_identity(), l2tpv3::L2tpv3.spec_parse(b, ctx)),
{
    l2tpv3_names();
    reveal_with_fuel(key::sides, 4);
}

/// The names of the LACP fields differ.
proof fn lacp_names()
    ensures
        "actor_key"@.len() == 9,
        "actor_port"@.len() == 10,
        "actor_state"@.len() == 11 && "actor_state"@[0] == 'a',
        "partner_key"@.len() == 11 && "partner_key"@[0] == 'p',
        "actor_system"@.len() == 12 && "actor_system"@[0] == 'a',
        "partner_port"@.len() == 12 && "partner_port"@[0] == 'p',
        "partner_state"@.len() == 13,
        "partner_system"@.len() == 14,
{
    reveal_strlit("actor_system");
    reveal_strlit("partner_system");
    reveal_strlit("actor_key");
    reveal_strlit("actor_port");
    reveal_strlit("actor_state");
    reveal_strlit("partner_key");
    reveal_strlit("partner_port");
    reveal_strlit("partner_state");
}

/// LACP: a deeper look at the same bytes tells all that a shallower one tells.
pub proof fn lacp_reads_deeper(b: Seq<u8>, ctx: Context, deeper: Depth)
    requires
        ctx.depth.rank() <= deeper.rank(),
    ensures
        tells_more(lacp::Lacp.spec_parse(b, ctx), lacp::Lacp.spec_parse(b, at(ctx, deeper))),
{
    lacp_names();
}

/// LACP: the header lies within the bytes.
pub proof fn lacp_lies_within(b: Seq<u8>, ctx: Context)
    ensures
        lies_within(lacp::Lacp.spec_parse(b, ctx), b),
{
}

/// LACP: every depth that reads the keys names the conversation.
pub proof fn lacp_names_its_conversation(b: Seq<u8>, ctx: Context)
    requires
        ctx.keys(),
    ensures
        names_its_conversation(lacp::Lacp.spec_identity(), lacp::Lacp.spec_parse(b, ctx)),
{
    lacp_names();
    reveal_with_fuel(key::sides, 4);
}

/// The names of the LDAP fields differ.
proof fn ldap_names()
    ensures
        "app"@.len() == 3,
        "bind_dn"@.len() == 7,
        "message_id"@.len() == 10,
        "protocol_op"@.len() == 11,
{
    reveal_strlit("app");
    reveal_strlit("message_id");
    reveal_strlit("protocol_op");
    reveal_strlit("bind_dn");
}

/// LDAP: a deeper look at the same bytes tells all that a shallower one tells.
pub proof fn ldap_reads_deeper(b: Seq<u8>, ctx: Context, deeper: Depth)
    requires
        ctx.depth.rank() <= deeper.rank(),
    ensures
        tells_more(ldap::Ldap.spec_parse(b, ctx), ldap::Ldap.spec_parse(b, at(ctx, deeper))),
{
    ldap_names();
}

/// LDAP: the header lies within the bytes.
pub proof fn ldap_lies_within(b: Seq<u8>, ctx: Context)
    ensures
        lies_within(ldap::Ldap.spec_parse(b, ctx), b),
{
}

/// LDAP: every depth that reads the keys names the conversation.
pub proof fn ldap_names_its_conversation(b: Seq<u8>, ctx: Context)
    requires
        ctx.keys(),
    ensures
        names_its_conversation(ldap::Ldap.spec_identity(), ldap::Ldap.spec_parse(b, ctx)),
{
    ldap_names();
    reveal_with_fuel(key::sides, 4);
}

/// The names of the LLC fields differ.
proof fn llc_names()
    ensures
        "oui"@.len() == 3 && "oui"@[0] == 'o',
        "pid"@.len() == 3 && "pid"@[0] == 'p',
        "dsap"@.len() == 4 && "dsap"@[0] == 'd',
        "ssap"@.len() == 4 && "ssap"@[0] == 's',
        "control"@.len() == 7,
{
    reveal_strlit("dsap");
    reveal_strlit("ssap");
    reveal_strlit("control");
    reveal_strlit("oui");
    reveal_strlit("pid");
}

/// LLC: a deeper look at the same bytes tells all that a shallower one tells.
pub proof fn llc_reads_deeper(b: Seq<u8>, ctx: Context, deeper: Depth)
    requires
        ctx.depth.rank() <= deeper.rank(),
    ensures
        tells_more(llc::Llc.spec_parse(b, ctx), llc::Llc.spec_parse(b, at(ctx, deeper))),
{
    llc_names();
}

/// LLC: the header lies within the bytes.
pub proof fn llc_lies_within(b: Seq<u8>, ctx: Context)
    ensures
        lies_within(llc::Llc.spec_parse(b, ctx), b),
{
}

/// The names of the LLDP fields differ.
proof fn lldp_names()
    ensures
        "ttl"@.len() == 3,
        "port_id"@.len() == 7,
        "chassis_id"@.len() == 10,
        "system_name"@.len() == 11,
        "capabilities"@.len() == 12,
        "port_id_subtype"@.len() == 15,
        "chassis_id_subtype"@.len() == 18 && "chassis_id_subtype"@[0] == 'c',
        "system_description"@.len() == 18 && "system_description"@[0] == 's',
        "management_address"@.len() == 18 && "management_address"@[0] == 'm',
{
    reveal_strlit("chassis_id_subtype");
    reveal_strlit("chassis_id");
    reveal_strlit("port_id_subtype");
    reveal_strlit("port_id");
    reveal_strlit("ttl");
    reveal_strlit("system_name");
    reveal_strlit("system_description");
    reveal_strlit("management_address");
    reveal_strlit("capabilities");
}

/// LLDP: a deeper look at the same bytes tells all that a shallower one tells.
pub proof fn lldp_reads_deeper(b: Seq<u8>, ctx: Context, deeper: Depth)
    requires
        ctx.depth.rank() <= deeper.rank(),
    ensures
        tells_more(lldp::Lldp.spec_parse(b, ctx), lldp::Lldp.spec_parse(b, at(ctx, deeper))),
{
    lldp_names();
}

/// LLDP: the header lies within the bytes.
pub proof fn lldp_lies_within(b: Seq<u8>, ctx: Context)
    ensures
        lies_within(lldp::Lldp.spec_parse(b, ctx), b),
{
    if lldp::tlv_short(b, 0) is None {
        let p = lldp::tlv_end(b, 0);
        if lldp::tlv_short(b, p) is None {
            let q = lldp::tlv_end(b, p);
            if lldp::tlv_short(b, q) is None {
                lemma_optional_within(b, lldp::tlv_end(b, q), lldp::nothing());
            }
        }
    }
}

} // verus!
