//! Endpoint kinds, the programs attached to each kind and the BPF maps
//! every kind uses.
use vstd::prelude::*;

use crate::text::str_eq;

verus! {

/// The kinds of network endpoint the loader attaches programs to.
#[derive(Clone, Copy, Debug, PartialEq, Eq, Hash, Structural)]
pub enum EndpointKind {
    Container,
    Host,
    NetDev,
    Overlay,
    Wireguard,
}

/// The traffic-control hook a program is attached to.
#[derive(Clone, Copy, Debug, PartialEq, Eq, Structural)]
pub enum Hook {
    TcxIngress,
    TcxEgress,
}

/// One program of an endpoint kind: where it hooks in, its name in the
/// object file, and whether the endpoint is unusable without it.
#[derive(Clone, Copy, Debug)]
pub struct HookSpec {
    pub hook: Hook,
    pub program_name: &'static str,
    pub required: bool,
}

/// Maps shared by every endpoint.
#[derive(Clone, Copy, Debug, PartialEq, Eq, Hash, Structural)]
pub enum GlobalMap {
    LxcMap,
    MetricsMap,
    ConnTrackTcpMap,
    ConnTrackAnyMap,
}

/// Maps of which every endpoint has its own instance.
#[derive(Clone, Copy, Debug, PartialEq, Eq, Hash, Structural)]
pub enum EndpointMap {
    CallsMap,
    EndpointConfigMap,
}

/// The name of an endpoint kind, as used in pin paths.
pub open spec fn kind_text(k: EndpointKind) -> Seq<char> {
    match k {
        EndpointKind::Container => "container"@,
        EndpointKind::Host => "host"@,
        EndpointKind::NetDev => "netdev"@,
        EndpointKind::Overlay => "overlay"@,
        EndpointKind::Wireguard => "wireguard"@,
    }
}

/// The endpoint kind named `s`, if any.
pub open spec fn kind_from_text(s: Seq<char>) -> Option<EndpointKind> {
    if s == "container"@ {
        Some(EndpointKind::Container)
    } else if s == "host"@ {
        Some(EndpointKind::Host)
    } else if s == "netdev"@ {
        Some(EndpointKind::NetDev)
    } else if s == "overlay"@ {
        Some(EndpointKind::Overlay)
    } else if s == "wireguard"@ {
        Some(EndpointKind::Wireguard)
    } else {
        None
    }
}

/// The programs of each kind: (hook, program name), in attach order.
pub open spec fn kind_hooks(k: EndpointKind) -> Seq<(Hook, Seq<char>)> {
    match k {
        EndpointKind::Container => seq![
            (Hook::TcxIngress, "from_container"@),
            (Hook::TcxEgress, "to_container"@),
        ],
        EndpointKind::Host => seq![(Hook::TcxEgress, "from_host"@), (Hook::TcxIngress, "to_host"@)],
        EndpointKind::NetDev => seq![
            (Hook::TcxIngress, "from_netdev"@),
            (Hook::TcxEgress, "to_netdev"@),
        ],
        EndpointKind::Overlay => seq![
            (Hook::TcxIngress, "from_overlay"@),
            (Hook::TcxEgress, "to_overlay"@),
        ],
        EndpointKind::Wireguard => seq![
            (Hook::TcxIngress, "from_wireguard"@),
            (Hook::TcxEgress, "to_wireguard"@),
        ],
    }
}

/// The per-endpoint maps of each kind.
pub open spec fn kind_maps(k: EndpointKind) -> Seq<EndpointMap> {
    match k {
        EndpointKind::Container => seq![EndpointMap::CallsMap, EndpointMap::EndpointConfigMap],
        EndpointKind::Host => seq![EndpointMap::CallsMap, EndpointMap::EndpointConfigMap],
        _ => seq![EndpointMap::CallsMap],
    }
}

/// The global maps, in pinning order.
pub open spec fn all_global_maps() -> Seq<GlobalMap> {
    seq![
        GlobalMap::LxcMap,
        GlobalMap::MetricsMap,
        GlobalMap::ConnTrackTcpMap,
        GlobalMap::ConnTrackAnyMap,
    ]
}

/// The object-file name of a global map.
pub open spec fn global_map_text(m: GlobalMap) -> Seq<char> {
    match m {
        GlobalMap::LxcMap => "lxc_map"@,
        GlobalMap::MetricsMap => "metrics_map"@,
        GlobalMap::ConnTrackTcpMap => "conntrack_tcp_buffer"@,
        GlobalMap::ConnTrackAnyMap => "conntrack_any_buffer"@,
    }
}

/// The object-file name of a per-endpoint map.
pub open spec fn endpoint_map_text(m: EndpointMap) -> Seq<char> {
    match m {
        EndpointMap::CallsMap => "calls_map"@,
        EndpointMap::EndpointConfigMap => "endpoint_config"@,
    }
}

impl EndpointKind {
    /// The kind's name.
    pub fn kind_str(self) -> (r: &'static str)
        ensures
            r@ == kind_text(self),
    {
        match self {
            EndpointKind::Container => "container",
            EndpointKind::Host => "host",
            EndpointKind::NetDev => "netdev",
            EndpointKind::Overlay => "overlay",
            EndpointKind::Wireguard => "wireguard",
        }
    }

    /// The kind with the given name; `None` for any other string.
    pub fn from_kind_str(s: &str) -> (r: Option<Self>)
        ensures
            r == kind_from_text(s@),
    {
        if str_eq(s, "container") {
            Some(EndpointKind::Container)
        } else if str_eq(s, "host") {
            Some(EndpointKind::Host)
        } else if str_eq(s, "netdev") {
            Some(EndpointKind::NetDev)
        } else if str_eq(s, "overlay") {
            Some(EndpointKind::Overlay)
        } else if str_eq(s, "wireguard") {
            Some(EndpointKind::Wireguard)
        } else {
            None
        }
    }

    /// The programs attached to an endpoint of this kind, in attach
    /// order; every one of them is required.
    pub fn hooks(self) -> (r: Vec<HookSpec>)
        ensures
            r@.len() == kind_hooks(self).len(),
            forall|i: int|
                0 <= i < r@.len() ==> {
                    &&& (#[trigger] r@[i]).hook == kind_hooks(self)[i].0
                    &&& r@[i].program_name@ == kind_hooks(self)[i].1
                    &&& r@[i].required
                },
    {
        let (h0, p0, h1, p1) = match self {
            EndpointKind::Container => (
                Hook::TcxIngress,
                "from_container",
                Hook::TcxEgress,
                "to_container",
            ),
            EndpointKind::Host => (Hook::TcxEgress, "from_host", Hook::TcxIngress, "to_host"),
            EndpointKind::NetDev => (Hook::TcxIngress, "from_netdev", Hook::TcxEgress, "to_netdev"),
            EndpointKind::Overlay => (
                Hook::TcxIngress,
                "from_overlay",
                Hook::TcxEgress,
                "to_overlay",
            ),
            EndpointKind::Wireguard => (
                Hook::TcxIngress,
                "from_wireguard",
                Hook::TcxEgress,
                "to_wireguard",
            ),
        };
        let mut r = Vec::new();
        r.push(HookSpec { hook: h0, program_name: p0, required: true });
        r.push(HookSpec { hook: h1, program_name: p1, required: true });
        r
    }

    /// The maps of which an endpoint of this kind has its own instance.
    pub fn per_endpoint_map_names(self) -> (r: Vec<EndpointMap>)
        ensures
            r@ == kind_maps(self),
    {
        let mut r = Vec::new();
        r.push(EndpointMap::CallsMap);
        match self {
            EndpointKind::Container | EndpointKind::Host => {
                r.push(EndpointMap::EndpointConfigMap);
            },
            _ => {},
        }
        proof {
            assert(r@ =~= kind_maps(self));
        }
        r
    }
}

/// The global maps every endpoint shares, in pinning order.
pub fn global_maps() -> (r: Vec<GlobalMap>)
    ensures
        r@ == all_global_maps(),
{
    let mut r = Vec::new();
    r.push(GlobalMap::LxcMap);
    r.push(GlobalMap::MetricsMap);
    r.push(GlobalMap::ConnTrackTcpMap);
    r.push(GlobalMap::ConnTrackAnyMap);
    proof {
        assert(r@ =~= all_global_maps());
    }
    r
}

impl GlobalMap {
    /// The map's name in the object file.
    pub fn wire_name(self) -> (r: &'static str)
        ensures
            r@ == global_map_text(self),
    {
        match self {
            GlobalMap::LxcMap => "lxc_map",
            GlobalMap::MetricsMap => "metrics_map",
            GlobalMap::ConnTrackTcpMap => "conntrack_tcp_buffer",
            GlobalMap::ConnTrackAnyMap => "conntrack_any_buffer",
        }
    }
}

impl EndpointMap {
    /// The map's name in the object file.
    pub fn wire_name(self) -> (r: &'static str)
        ensures
            r@ == endpoint_map_text(self),
    {
        match self {
            EndpointMap::CallsMap => "calls_map",
            EndpointMap::EndpointConfigMap => "endpoint_config",
        }
    }
}

/// Reading back the name of a kind gives the kind.
pub proof fn law_kind_text_round_trip(k: EndpointKind)
    ensures
        kind_from_text(kind_text(k)) == Some(k),
{
    reveal_strlit("container");
    reveal_strlit("host");
    reveal_strlit("netdev");
    reveal_strlit("overlay");
    reveal_strlit("wireguard");
    let c = "container"@;
    let h = "host"@;
    let n = "netdev"@;
    let o = "overlay"@;
    let w = "wireguard"@;
    assert(c[0] == 'c' && h[0] == 'h' && n[0] == 'n' && o[0] == 'o' && w[0] == 'w');
    assert(c != h && c != n && c != o && c != w);
    assert(h != n && h != o && h != w);
    assert(n != o && n != w);
    assert(o != w);
}

/// Distinct kinds have distinct names.
pub proof fn law_kind_text_injective(a: EndpointKind, b: EndpointKind)
    requires
        a != b,
    ensures
        kind_text(a) != kind_text(b),
{
    law_kind_text_round_trip(a);
    law_kind_text_round_trip(b);
}

/// Distinct global maps have distinct names.
pub proof fn law_global_map_names_distinct(a: GlobalMap, b: GlobalMap)
    requires
        a != b,
    ensures
        global_map_text(a) != global_map_text(b),
{
    reveal_strlit("lxc_map");
    reveal_strlit("metrics_map");
    reveal_strlit("conntrack_tcp_buffer");
    reveal_strlit("conntrack_any_buffer");
    assert("lxc_map"@[0] != "metrics_map"@[0]);
    assert("conntrack_tcp_buffer"@[10] != "conntrack_any_buffer"@[10]);
}

/// Each kind attaches two programs, `from_<kind>` then `to_<kind>`; the
/// `from_` program sits on the ingress hook and the `to_` program on the
/// egress hook, except on the host, where the two are reversed.
pub proof fn law_hook_directions(k: EndpointKind)
    ensures
        kind_hooks(k).len() == 2,
        kind_hooks(k)[0].1 == "from_"@ + kind_text(k),
        kind_hooks(k)[1].1 == "to_"@ + kind_text(k),
        k != EndpointKind::Host ==> kind_hooks(k)[0].0 == Hook::TcxIngress && kind_hooks(k)[1].0
            == Hook::TcxEgress,
        k == EndpointKind::Host ==> kind_hooks(k)[0].0 == Hook::TcxEgress && kind_hooks(k)[1].0
            == Hook::TcxIngress,
{
    reveal_strlit("from_");
    reveal_strlit("to_");
    reveal_strlit("container");
    reveal_strlit("host");
    reveal_strlit("netdev");
    reveal_strlit("overlay");
    reveal_strlit("wireguard");
    reveal_strlit("from_container");
    reveal_strlit("to_container");
    reveal_strlit("from_host");
    reveal_strlit("to_host");
    reveal_strlit("from_netdev");
    reveal_strlit("to_netdev");
    reveal_strlit("from_overlay");
    reveal_strlit("to_overlay");
    reveal_strlit("from_wireguard");
    reveal_strlit("to_wireguard");
    assert("from_"@ + kind_text(k) =~= kind_hooks(k)[0].1);
    assert("to_"@ + kind_text(k) =~= kind_hooks(k)[1].1);
}

} // verus!
