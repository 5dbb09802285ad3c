//! The protocol plugins, and the set that is registered by default.
use vstd::prelude::*;

use crate::engine::{self, Engine, Registration};
use crate::layer::{LayerPlugin, RouteView};

use crate::plugins::ah::Ah;
use crate::plugins::arp::Arp;
use crate::plugins::bacnet_ip::BacnetIp;
use crate::plugins::bgp::Bgp;
use crate::plugins::cdp::Cdp;
use crate::plugins::dhcp::Dhcp;
use crate::plugins::dhcpv6::Dhcpv6;
use crate::plugins::dnp3::Dnp3;
use crate::plugins::dns::Dns;
use crate::plugins::dot11::Dot11;
use crate::plugins::eapol::Eapol;
use crate::plugins::enip::Enip;
use crate::plugins::esp::Esp;
use crate::plugins::ethernet::Ethernet;
use crate::plugins::geneve::Geneve;
use crate::plugins::gre::Gre;
use crate::plugins::hsrp::Hsrp;
use crate::plugins::icmpv4::Icmpv4;
use crate::plugins::icmpv6::Icmpv6;
use crate::plugins::igmp::Igmp;
use crate::plugins::ipfix::Ipfix;
use crate::plugins::ipv4::Ipv4;
use crate::plugins::ipv6::Ipv6;
use crate::plugins::l2tpv3::L2tpv3;
use crate::plugins::lacp::Lacp;
use crate::plugins::llc::Llc;
use crate::plugins::lldp::Lldp;

pub mod ah;
pub mod amqp;
pub mod arp;
pub mod bacnet_ip;
pub mod bfd;
pub mod bgp;
pub mod cdp;
pub mod depths;
pub mod dhcp;
pub mod dhcpv6;
pub mod dnp3;
pub mod dns;
pub mod dot11;
pub mod eapol;
pub mod enip;
pub mod erspan;
pub mod esp;
pub mod ethernet;
pub mod ftp;
pub mod geneve;
pub mod gre;
pub mod gtp_c;
pub mod gtp_u;
pub mod hsrp;
pub mod http2;
pub mod http;
pub mod icmpv4;
pub mod icmpv6;
pub mod igmp;
pub mod imap;
pub mod ipfix;
pub mod ipv4;
pub mod ipv6;
pub mod kerberos;
pub mod l2tpv3;
pub mod lacp;
pub mod ldap;
pub mod llc;
pub mod lldp;
pub mod wire;

verus! {

/// What the default set registers, in the order of registration.
pub open spec fn default_registrations() -> Seq<Registration> {
    seq![
        engine::registration(&Ethernet),
        engine::registration(&Ipv4),
        engine::registration(&Ipv6),
        engine::registration(&Arp),
        engine::registration(&Cdp),
        engine::registration(&Icmpv4),
        engine::registration(&Icmpv6),
        engine::registration(&Igmp),
        engine::registration(&Hsrp),
        engine::registration(&Bgp),
        engine::registration(&Gre),
        engine::registration(&Geneve),
        engine::registration(&Esp),
        engine::registration(&Ah),
        engine::registration(&L2tpv3),
        engine::registration(&Dns),
        engine::registration(&Dhcp),
        engine::registration(&Dhcpv6),
        engine::registration(&Lldp),
        engine::registration(&Llc),
        engine::registration(&Lacp),
        engine::registration(&Eapol),
        engine::registration(&Dot11),
        engine::registration(&Dnp3),
        engine::registration(&Enip),
        engine::registration(&BacnetIp),
        engine::registration(&Ipfix),
    ]
}

/// A number that tells the names of the default set apart: its length and its
/// first, second and last characters.
spec fn name_code(name: Seq<char>) -> int {
    name.len() * 0x100_0000 + (name[0] as int) * 0x1_0000 + (name[1] as int) * 0x100 + (
    name.last() as int)
}

/// The place of a name in the default set, by its code.
spec fn place(code: int) -> int {
    if code == 0x8657474 {
        0
    } else if code == 0x4697034 {
        1
    } else if code == 0x4697036 {
        2
    } else if code == 0x3617270 {
        3
    } else if code == 0x3636470 {
        4
    } else if code == 0x6696334 {
        5
    } else if code == 0x6696336 {
        6
    } else if code == 0x4696770 {
        7
    } else if code == 0x4687370 {
        8
    } else if code == 0x3626770 {
        9
    } else if code == 0x3677265 {
        10
    } else if code == 0x6676565 {
        11
    } else if code == 0x3657370 {
        12
    } else if code == 0x2616868 {
        13
    } else if code == 0x66c3233 {
        14
    } else if code == 0x3646e73 {
        15
    } else if code == 0x4646870 {
        16
    } else if code == 0x6646836 {
        17
    } else if code == 0x46c6c70 {
        18
    } else if code == 0x36c6c63 {
        19
    } else if code == 0x46c6170 {
        20
    } else if code == 0x565616c {
        21
    } else if code == 0x5646f31 {
        22
    } else if code == 0x4646e33 {
        23
    } else if code == 0x4656e70 {
        24
    } else if code == 0x9626170 {
        25
    } else if code == 0x5697078 {
        26
    } else {
        -1
    }
}

/// The place of the protocol that a route leads to.
spec fn owner(route: RouteView) -> int {
    match route {
        RouteView::LinkType(n) => {
            if n == 1 {
                0
            } else if n == 105 {
                22
            } else {
                -1
            }
        },
        RouteView::EtherType(n) => {
            if n == 0x0800 {
                1
            } else if n == 0x86DD {
                2
            } else if n == 0x0806 {
                3
            } else if n == 0x88CC {
                18
            } else if n == 0x8809 {
                20
            } else if n == 0x888E {
                21
            } else {
                -1
            }
        },
        RouteView::IpProtocol(n) => {
            if n == 4 {
                1
            } else if n == 41 {
                2
            } else if n == 1 {
                5
            } else if n == 58 {
                6
            } else if n == 2 {
                7
            } else if n == 47 {
                10
            } else if n == 50 {
                12
            } else if n == 51 {
                13
            } else if n == 115 {
                14
            } else {
                -1
            }
        },
        RouteView::TcpPort(n) => {
            if n == 179 {
                9
            } else if n == 53 {
                15
            } else if n == 20000 {
                23
            } else if n == 44818 {
                24
            } else {
                -1
            }
        },
        RouteView::UdpPort(n) => {
            if n == 1985 {
                8
            } else if n == 6081 {
                11
            } else if n == 1701 {
                14
            } else if n == 53 {
                15
            } else if n == 67 {
                16
            } else if n == 68 {
                16
            } else if n == 547 {
                17
            } else if n == 546 {
                17
            } else if n == 20000 {
                23
            } else if n == 47808 {
                25
            } else if n == 4739 {
                26
            } else {
                -1
            }
        },
        RouteView::Custom { id: n, .. } => {
            if n == cdp::SNAP_CDP {
                4
            } else if n == 0 {
                19
            } else {
                -1
            }
        },
    }
}

/// No protocol of the default set has another's name.
proof fn names_have_places(i: int)
    requires
        0 <= i < default_registrations().len(),
    ensures
        place(name_code(default_registrations()[i].name)) == i,
{
    if i == 0 {
        reveal_strlit("ethernet");
    } else if i == 1 {
        reveal_strlit("ipv4");
    } else if i == 2 {
        reveal_strlit("ipv6");
    } else if i == 3 {
        reveal_strlit("arp");
    } else if i == 4 {
        reveal_strlit("cdp");
    } else if i == 5 {
        reveal_strlit("icmpv4");
    } else if i == 6 {
        reveal_strlit("icmpv6");
    } else if i == 7 {
        reveal_strlit("igmp");
    } else if i == 8 {
        reveal_strlit("hsrp");
    } else if i == 9 {
        reveal_strlit("bgp");
    } else if i == 10 {
        reveal_strlit("gre");
    } else if i == 11 {
        reveal_strlit("geneve");
    } else if i == 12 {
        reveal_strlit("esp");
    } else if i == 13 {
        reveal_strlit("ah");
    } else if i == 14 {
        reveal_strlit("l2tpv3");
    } else if i == 15 {
        reveal_strlit("dns");
    } else if i == 16 {
        reveal_strlit("dhcp");
    } else if i == 17 {
        reveal_strlit("dhcpv6");
    } else if i == 18 {
        reveal_strlit("lldp");
    } else if i == 19 {
        reveal_strlit("llc");
    } else if i == 20 {
        reveal_strlit("lacp");
    } else if i == 21 {
        reveal_strlit("eapol");
    } else if i == 22 {
        reveal_strlit("dot11");
    } else if i == 23 {
        reveal_strlit("dnp3");
    } else if i == 24 {
        reveal_strlit("enip");
    } else if i == 25 {
        reveal_strlit("bacnet_ip");
    } else if i == 26 {
        reveal_strlit("ipfix");
    }
}

/// No route of the default set leads to two protocols.
proof fn claims_have_owners(i: int)
    requires
        0 <= i < default_registrations().len(),
    ensures
        default_registrations()[i].claims.len() <= 2,
        forall|k: int|
            0 <= k < default_registrations()[i].claims.len() ==> owner(
                #[trigger] default_registrations()[i].claims[k],
            ) == i,
        default_registrations()[i].claims.len() == 2 ==> default_registrations()[i].claims[0]
            != default_registrations()[i].claims[1],
{
}

/// The default set has no two protocols of one name and no route that leads to
/// two of them.
pub proof fn the_default_set_is_collision_free()
    ensures
        engine::collision_free(default_registrations()),
{
    let list = default_registrations();
    assert forall|i: int| 0 <= i < list.len() implies !engine::name_taken(
        list,
        i,
        (#[trigger] list[i]).name,
    ) by {
        names_have_places(i);
        if engine::name_taken(list, i, list[i].name) {
            let j = choose|j: int| 0 <= j < i && (#[trigger] list[j]).name == list[i].name;
            names_have_places(j);
        }
    }
    assert forall|i: int, k: int|
        0 <= i < list.len() && 0 <= k < list[i].claims.len() implies !engine::claim_taken(
        list,
        i,
        #[trigger] list[i].claims[k],
    ) && !list[i].claims.take(k).contains(list[i].claims[k]) by {
        claims_have_owners(i);
        let route = list[i].claims[k];
        if engine::claim_taken(list, i, route) {
            let j = choose|j: int| 0 <= j < i && (#[trigger] list[j]).claims.contains(route);
            claims_have_owners(j);
            let m = choose|m: int| 0 <= m < list[j].claims.len() && list[j].claims[m] == route;
            assert(owner(list[j].claims[m]) == j);
        }
        if list[i].claims.take(k).contains(route) {
            let m = choose|m: int| 0 <= m < k && list[i].claims.take(k)[m] == route;
            assert(list[i].claims[m] == route);
        }
    }
}

/// The protocols that are registered by default.
pub fn default_engine() -> (r: Engine)
    ensures
        r.view() == default_registrations(),
{
    let builder = Engine::builder()
        .plugin(Ethernet)
        .plugin(Ipv4)
        .plugin(Ipv6)
        .plugin(Arp)
        .plugin(Cdp)
        .plugin(Icmpv4)
        .plugin(Icmpv6)
        .plugin(Igmp)
        .plugin(Hsrp)
        .plugin(Bgp)
        .plugin(Gre)
        .plugin(Geneve)
        .plugin(Esp)
        .plugin(Ah)
        .plugin(L2tpv3)
        .plugin(Dns)
        .plugin(Dhcp)
        .plugin(Dhcpv6)
        .plugin(Lldp)
        .plugin(Llc)
        .plugin(Lacp)
        .plugin(Eapol)
        .plugin(Dot11)
        .plugin(Dnp3)
        .plugin(Enip)
        .plugin(BacnetIp)
        .plugin(Ipfix);
    proof {
        assert(builder.view() =~= default_registrations());
        the_default_set_is_collision_free();
    }
    match builder.build() {
        Ok(engine) => engine,
        Err(_) => unreached(),
    }
}

} // verus!
