//! The decisions of the CNI plugin: which requests it accepts, how it
//! reads its `CNI_ARGS`, what it makes of the agent's answers, and whether
//! a container interface carries the addresses a previous ADD gave it.
use vstd::prelude::*;

use crate::ip::{
    Cidr, IpAddress, cidr_text, cidr_to_string, decimal, ip_text, net_parse_error_text, parsed_net,
};
use crate::ipam::{ContainerAddressing, IpamAllocateResponse};
use crate::services::EndpointHealthStatus;
use crate::text::{char_at, char_len, concat, owned, slice_chars};

verus! {

/// The errors the plugin reports to the container runtime.
#[derive(Debug, Clone, PartialEq, Eq)]
pub enum CniError {
    InvalidNetworkConfig(String),
    PluginNotAvailable(String),
    /// A code, a short message and details.
    Custom(u32, String, String),
}

/// What the plugin reads of a CNI request: the environment's namespace,
/// interface and container id, and whether a network configuration came
/// with it and whether that holds a previous result.
#[derive(Debug, Clone)]
pub struct CniRequest {
    pub netns: Option<String>,
    pub ifname: Option<String>,
    pub container_id: Option<String>,
    pub has_config: bool,
    pub has_prev_result: bool,
}

/// The interface a request is about.
#[derive(Debug, Clone)]
pub struct CniTarget {
    pub netns: String,
    pub ifname: String,
    pub container_id: String,
}

/// The message a request without namespace, interface or container id is
/// refused with.
pub open spec fn target_error(req: CniRequest) -> Option<Seq<char>> {
    if req.netns is None {
        Some("missing CNI_NETNS"@)
    } else if req.ifname is None {
        Some("missing CNI_IFNAME"@)
    } else if req.container_id is None {
        Some("missing CNI_CONTAINERID"@)
    } else {
        None
    }
}

/// Why an ADD request is refused: a missing field, or a previous result
/// (chained plugins are not supported).
pub open spec fn add_error(req: CniRequest) -> Option<Seq<char>> {
    if target_error(req) is Some {
        target_error(req)
    } else if req.has_config && req.has_prev_result {
        Some("chaining is currently not supported"@)
    } else {
        None
    }
}

/// Why a CHECK request is refused: a missing field, or no previous result
/// to check against.
pub open spec fn check_error(req: CniRequest) -> Option<Seq<char>> {
    if target_error(req) is Some {
        target_error(req)
    } else if !req.has_config {
        Some("missing NetConf"@)
    } else if !req.has_prev_result {
        Some("NetConf does not have a prev_result"@)
    } else {
        None
    }
}

/// `r` is the refusal with message `m`, or, without one, the target of
/// `req`.
pub open spec fn target_outcome(req: CniRequest, m: Option<Seq<char>>, r: Result<CniTarget, CniError>) -> bool {
    match m {
        Some(msg) => r matches Err(CniError::InvalidNetworkConfig(x)) && x@ == msg,
        None => r matches Ok(t) && Some(t.netns@) == opt_text(req.netns) && Some(t.ifname@) == opt_text(
            req.ifname,
        ) && Some(t.container_id@) == opt_text(req.container_id),
    }
}

/// An optional string, read as text.
pub open spec fn opt_text(o: Option<String>) -> Option<Seq<char>> {
    match o {
        Some(s) => Some(s@),
        None => None,
    }
}

/// The refusal with message `m`.
fn invalid(m: &str) -> (r: CniError)
    ensures
        r matches CniError::InvalidNetworkConfig(x) && x@ == m@,
{
    CniError::InvalidNetworkConfig(owned(m))
}

/// The interface a DEL request is about.
pub fn request_target(req: &CniRequest) -> (r: Result<CniTarget, CniError>)
    ensures
        target_outcome(*req, target_error(*req), r),
{
    let netns = match &req.netns {
        Some(n) => owned(n.as_str()),
        None => return Err(invalid("missing CNI_NETNS")),
    };
    let ifname = match &req.ifname {
        Some(n) => owned(n.as_str()),
        None => return Err(invalid("missing CNI_IFNAME")),
    };
    let container_id = match &req.container_id {
        Some(n) => owned(n.as_str()),
        None => return Err(invalid("missing CNI_CONTAINERID")),
    };
    Ok(CniTarget { netns, ifname, container_id })
}

/// The interface an ADD request is about.
pub fn add_target(req: &CniRequest) -> (r: Result<CniTarget, CniError>)
    ensures
        target_outcome(*req, add_error(*req), r),
{
    let t = request_target(req)?;
    if req.has_config && req.has_prev_result {
        return Err(invalid("chaining is currently not supported"));
    }
    Ok(t)
}

/// The interface a CHECK request is about.
pub fn check_target(req: &CniRequest) -> (r: Result<CniTarget, CniError>)
    ensures
        target_outcome(*req, check_error(*req), r),
{
    let t = request_target(req)?;
    if !req.has_config {
        return Err(invalid("missing NetConf"));
    }
    if !req.has_prev_result {
        return Err(invalid("NetConf does not have a prev_result"));
    }
    Ok(t)
}

/// Every request needs its network configuration.
pub fn netconf_loaded(req: &CniRequest) -> (r: Result<(), CniError>)
    ensures
        req.has_config ==> r is Ok,
        !req.has_config ==> (r matches Err(CniError::InvalidNetworkConfig(x)) && x@
            == "failed to load netconf"@),
{
    if req.has_config {
        Ok(())
    } else {
        Err(invalid("failed to load netconf"))
    }
}

/// The pod an allocation is made for: `<namespace>/<name>`.
pub fn pod_name(namespace: &str, name: &str) -> (r: String)
    ensures
        r@ == namespace@ + seq!['/'] + name@,
{
    let r = concat(namespace, "/");
    proof {
        reveal_strlit("/");
    }
    concat(r.as_str(), name)
}

/// An allocation is usable only with host addressing of some family.
pub fn check_host_addressing(resp: &IpamAllocateResponse) -> (r: Result<(), CniError>)
    ensures
        (resp.host_addressing.ipv4 is None && resp.host_addressing.ipv6 is None) ==> (r matches Err(
            CniError::PluginNotAvailable(x),
        ) && x@ == "ipam should return valid host addressing"@),
        !(resp.host_addressing.ipv4 is None && resp.host_addressing.ipv6 is None) ==> r is Ok,
{
    if resp.host_addressing.ipv4.is_none() && resp.host_addressing.ipv6.is_none() {
        Err(CniError::PluginNotAvailable(owned("ipam should return valid host addressing")))
    } else {
        Ok(())
    }
}

/// The families the container interface gets an address of: those with
/// both a host address and a container address.
pub fn configured_families(resp: &IpamAllocateResponse) -> (r: (bool, bool))
    ensures
        r.0 == (resp.host_addressing.ipv4 is Some && resp.ipv4 is Some),
        r.1 == (resp.host_addressing.ipv6 is Some && resp.ipv6 is Some),
{
    (
        resp.host_addressing.ipv4.is_some() && resp.ipv4.is_some(),
        resp.host_addressing.ipv6.is_some() && resp.ipv6.is_some(),
    )
}

/// What a CHECK answers for the agent's view of the endpoint's health.
pub fn health_verdict(status: EndpointHealthStatus) -> (r: Result<(), CniError>)
    ensures
        status == EndpointHealthStatus::Healthy ==> r is Ok,
        status == EndpointHealthStatus::Failure ==> (r matches Err(CniError::Custom(code, m, d))
            && code == 100 && m@ == "unhealthy"@ && d@ == "container is unhealthy in agent"@),
{
    match status {
        EndpointHealthStatus::Healthy => Ok(()),
        EndpointHealthStatus::Failure => Err(
            CniError::Custom(100, owned("unhealthy"), owned("container is unhealthy in agent")),
        ),
    }
}

/// The state of splitting `s` at `sep` after its first `n` characters:
/// the finished pieces and the piece in progress.
pub open spec fn split_state(s: Seq<char>, sep: char, n: nat) -> (Seq<Seq<char>>, Seq<char>)
    decreases n,
{
    if n == 0 {
        (seq![], seq![])
    } else {
        let (done, cur) = split_state(s, sep, (n - 1) as nat);
        if s[n - 1] == sep {
            (done.push(cur), seq![])
        } else {
            (done, cur.push(s[n - 1]))
        }
    }
}

/// The pieces of `s` between the occurrences of `sep` (as `str::split`
/// gives them).
pub open spec fn split_on(s: Seq<char>, sep: char) -> Seq<Seq<char>> {
    split_state(s, sep, s.len()).0.push(split_state(s, sep, s.len()).1)
}

/// Strings, read as text.
pub open spec fn strings_view(v: Seq<String>) -> Seq<Seq<char>> {
    v.map_values(|s: String| s@)
}

/// The pieces of `s` between the occurrences of `sep`.
pub fn split_on_char(s: &str, sep: char) -> (r: Vec<String>)
    ensures
        strings_view(r@) == split_on(s@, sep),
{
    let n = char_len(s);
    let mut done: Vec<String> = Vec::new();
    let mut cur = String::new();
    let mut i: usize = 0;
    while i < n
        invariant
            n == s@.len(),
            i <= n,
            strings_view(done@) == split_state(s@, sep, i as nat).0,
            cur@ == split_state(s@, sep, i as nat).1,
        decreases n - i,
    {
        let c = char_at(s, i);
        if c == sep {
            let piece = cur;
            let ghost before = done@;
            done.push(piece);
            cur = String::new();
            proof {
                assert(strings_view(done@) =~= strings_view(before).push(piece@));
            }
        } else {
            crate::text::push_char(&mut cur, c);
        }
        i = i + 1;
    }
    let ghost before = done@;
    done.push(cur);
    proof {
        assert(strings_view(done@) =~= strings_view(before).push(split_state(s@, sep, n as nat).1));
    }
    done
}

/// Index of the first `c` in `p`, or -1.
pub open spec fn first_of(p: Seq<char>, c: char) -> int
    decreases p.len(),
{
    if p.len() == 0 {
        -1
    } else if p[0] == c {
        0
    } else {
        let r = first_of(p.drop_first(), c);
        if r < 0 {
            -1
        } else {
            r + 1
        }
    }
}

proof fn lemma_first_of(p: Seq<char>, c: char)
    ensures
        -1 <= first_of(p, c) < p.len(),
        first_of(p, c) >= 0 ==> p[first_of(p, c)] == c,
        forall|i: int| 0 <= i < p.len() && (first_of(p, c) < 0 || i < first_of(p, c)) ==> p[i] != c,
    decreases p.len(),
{
    if p.len() > 0 && p[0] != c {
        lemma_first_of(p.drop_first(), c);
        assert forall|i: int| 0 <= i < p.len() && (first_of(p, c) < 0 || i < first_of(p, c)) implies p[i] != c by {
            if i > 0 {
                assert(p[i] == p.drop_first()[i - 1]);
            }
        }
    }
}

/// Index of the first `c` in `p`, if any.
fn find_char(p: &str, c: char) -> (r: Option<usize>)
    ensures
        match r {
            None => first_of(p@, c) < 0,
            Some(i) => first_of(p@, c) == i,
        },
{
    let n = char_len(p);
    let mut i: usize = 0;
    while i < n
        invariant
            n == p@.len(),
            i <= n,
            forall|j: int| 0 <= j < i ==> p@[j] != c,
        decreases n - i,
    {
        if char_at(p, i) == c {
            proof {
                lemma_first_of(p@, c);
                assert(p@[i as int] == c);
            }
            return Some(i);
        }
        i = i + 1;
    }
    proof {
        lemma_first_of(p@, c);
        if first_of(p@, c) >= 0 {
            assert(p@[first_of(p@, c)] == c);
        }
    }
    None
}

/// The `key=value` pairs of the pieces, split at the first `=`; or the
/// first piece without one.
pub open spec fn args_pairs(pieces: Seq<Seq<char>>) -> Result<Seq<(Seq<char>, Seq<char>)>, Seq<char>>
    decreases pieces.len(),
{
    if pieces.len() == 0 {
        Ok(seq![])
    } else {
        match args_pairs(pieces.drop_last()) {
            Err(p) => Err(p),
            Ok(v) => {
                let p = pieces.last();
                let i = first_of(p, '=');
                if i < 0 {
                    Err(p)
                } else {
                    Ok(v.push((p.subrange(0, i), p.subrange(i + 1, p.len() as int))))
                }
            },
        }
    }
}

/// Whether `c` is white space (the Unicode `White_Space` property, as
/// `char::is_whitespace` has it).
pub open spec fn is_white(c: char) -> bool {
    let u = c as u32;
    (0x9 <= u <= 0xd) || u == 0x20 || u == 0x85 || u == 0xa0 || u == 0x1680 || (0x2000 <= u
        <= 0x200a) || u == 0x2028 || u == 0x2029 || u == 0x202f || u == 0x205f || u == 0x3000
}

/// Whether `s` holds white space only.
pub open spec fn blank(s: Seq<char>) -> bool {
    forall|i: int| 0 <= i < s.len() ==> is_white(#[trigger] s[i])
}

fn is_white_exec(c: char) -> (r: bool)
    ensures
        r == is_white(c),
{
    let u = c as u32;
    (0x9 <= u && u <= 0xd) || u == 0x20 || u == 0x85 || u == 0xa0 || u == 0x1680 || (0x2000 <= u
        && u <= 0x200a) || u == 0x2028 || u == 0x2029 || u == 0x202f || u == 0x205f || u == 0x3000
}

fn is_blank(s: &str) -> (r: bool)
    ensures
        r == blank(s@),
{
    let n = char_len(s);
    let mut i: usize = 0;
    while i < n
        invariant
            n == s@.len(),
            i <= n,
            forall|j: int| 0 <= j < i ==> is_white(#[trigger] s@[j]),
        decreases n - i,
    {
        if !is_white_exec(char_at(s, i)) {
            return false;
        }
        i = i + 1;
    }
    true
}

/// Splits the `CNI_ARGS` text into its `key=value` pairs: no text, or
/// blank text, means no arguments (`None`); a piece without `=` is refused
/// with the message `ARGS: missing value in '<piece>'`.
pub fn split_cni_args(args: Option<&str>) -> (r: Result<Option<Vec<(String, String)>>, CniError>)
    ensures
        match args {
            None => r == Ok::<Option<Vec<(String, String)>>, CniError>(None),
            Some(s) => if blank(s@) {
                r == Ok::<Option<Vec<(String, String)>>, CniError>(None)
            } else {
                match args_pairs(split_on(s@, ';')) {
                    Err(p) => r matches Err(CniError::InvalidNetworkConfig(m)) && m@
                        == "ARGS: missing value in '"@ + p + "'"@,
                    Ok(v) => r matches Ok(Some(x)) && x@.len() == v.len() && forall|i: int|
                        0 <= i < v.len() ==> (#[trigger] x@[i]).0@ == v[i].0 && x@[i].1@ == v[i].1,
                }
            },
        },
{
    let s = match args {
        None => return Ok(None),
        Some(s) => s,
    };
    if is_blank(s) {
        return Ok(None);
    }
    let pieces = split_on_char(s, ';');
    let ghost ps = strings_view(pieces@);
    let mut out: Vec<(String, String)> = Vec::new();
    let mut k: usize = 0;
    proof {
        assert(ps.take(0) =~= Seq::<Seq<char>>::empty());
    }
    while k < pieces.len()
        invariant
            k <= pieces@.len(),
            args == Some(s),
            !blank(s@),
            ps == strings_view(pieces@),
            ps == split_on(s@, ';'),
            args_pairs(ps.take(k as int)) matches Ok(v) && out@.len() == v.len() && forall|i: int|
                0 <= i < v.len() ==> (#[trigger] out@[i]).0@ == v[i].0 && out@[i].1@ == v[i].1,
        decreases pieces.len() - k,
    {
        let p = pieces[k].as_str();
        proof {
            assert(ps.take(k + 1).drop_last() =~= ps.take(k as int));
            assert(ps.take(k + 1).last() == p@);
        }
        match find_char(p, '=') {
            None => {
                proof {
                    assert(ps[k as int] == p@);
                    lemma_args_pairs_prefix_err(ps, k as int);
                }
                let m = concat("ARGS: missing value in '", p);
                let m = concat(m.as_str(), "'");
                proof {
                    assert(m@ == "ARGS: missing value in '"@ + ps[k as int] + "'"@);
                }
                return Err(CniError::InvalidNetworkConfig(m));
            },
            Some(i) => {
                proof {
                    lemma_first_of(p@, '=');
                }
                let n = char_len(p);
                let key = slice_chars(p, 0, i);
                let value = slice_chars(p, i + 1, n);
                let ghost before = out@;
                out.push((key, value));
                proof {
                    let v = args_pairs(ps.take(k as int))->Ok_0;
                    let v2 = args_pairs(ps.take(k + 1))->Ok_0;
                    assert(v2 == v.push((key@, value@)));
                    assert forall|j: int| 0 <= j < v2.len() implies (#[trigger] out@[j]).0@ == v2[j].0
                        && out@[j].1@ == v2[j].1 by {
                        if j < v.len() {
                            assert(out@[j] == before[j]);
                        }
                    }
                }
            },
        }
        k = k + 1;
    }
    proof {
        assert(ps.take(k as int) =~= ps);
    }
    Ok(Some(out))
}

/// An error at a piece stays the error of every longer list of pieces.
proof fn lemma_args_pairs_prefix_err(ps: Seq<Seq<char>>, k: int)
    requires
        0 <= k < ps.len(),
        args_pairs(ps.take(k)) is Ok,
        first_of(ps[k], '=') < 0,
    ensures
        args_pairs(ps) == Err::<Seq<(Seq<char>, Seq<char>)>, Seq<char>>(ps[k]),
    decreases ps.len(),
{
    assert(ps.take(k + 1).drop_last() =~= ps.take(k));
    assert(ps.take(k + 1).last() == ps[k]);
    lemma_args_pairs_err_extends(ps, k + 1);
}

/// An error of a prefix is the error of the whole list.
proof fn lemma_args_pairs_err_extends(ps: Seq<Seq<char>>, n: int)
    requires
        0 <= n <= ps.len(),
        args_pairs(ps.take(n)) is Err,
    ensures
        args_pairs(ps) == args_pairs(ps.take(n)),
    decreases ps.len() - n,
{
    if n < ps.len() {
        assert(ps.take(n + 1).drop_last() =~= ps.take(n));
        lemma_args_pairs_err_extends(ps, n + 1);
    } else {
        assert(ps.take(n) =~= ps);
    }
}

/// An interface of a CNI result: its name, its MAC address, and the
/// sandbox it lives in (container interfaces have one).
#[derive(Debug, Clone)]
pub struct CniInterface {
    pub name: String,
    pub mac: String,
    pub sandbox: Option<String>,
}

/// An address of a CNI result, with the index of its interface in the
/// result's interface list, and the gateway.
#[derive(Debug, Clone)]
pub struct CniIpConfig {
    pub interface: Option<u32>,
    pub address: String,
    pub gateway: Option<String>,
}

/// The addresses of `ips` that belong to interface `k`, in order.
pub open spec fn ips_at(ips: Seq<CniIpConfig>, k: int) -> Seq<Seq<char>>
    decreases ips.len(),
{
    if ips.len() == 0 {
        seq![]
    } else {
        let prev = ips_at(ips.drop_last(), k);
        if ips.last().interface matches Some(i) && i as int == k {
            prev.push(ips.last().address@)
        } else {
            prev
        }
    }
}

/// The addresses a previous result gave the sandboxed interfaces named
/// `ifname`, interface by interface.
pub open spec fn wanted_addresses(ifname: Seq<char>, ifaces: Seq<CniInterface>, ips: Seq<CniIpConfig>) -> Seq<
    Seq<char>,
>
    decreases ifaces.len(),
{
    if ifaces.len() == 0 {
        seq![]
    } else {
        let prev = wanted_addresses(ifname, ifaces.drop_last(), ips);
        let f = ifaces.last();
        if f.sandbox is Some && f.name@ == ifname {
            prev + ips_at(ips, ifaces.len() - 1)
        } else {
            prev
        }
    }
}

/// Family, address and prefix length of a block.
pub open spec fn net_of(c: Cidr) -> (bool, int, nat) {
    (c.is_v6(), c.addr_value(), c.prefix())
}

/// Family, address and prefix length of parsed CIDR text.
pub open spec fn parsed_block(s: Seq<char>) -> (bool, int, nat) {
    let (v6, a, p) = parsed_net(s)->Some_0;
    (v6, a as int, p as nat)
}

/// The text of a block given by family, address and prefix length.
pub open spec fn net_text(n: (bool, int, nat)) -> Seq<char> {
    ip_text(
        if n.0 {
            IpAddress::V6(n.1 as u128)
        } else {
            IpAddress::V4(n.1 as u32)
        },
    ) + seq!['/'] + decimal(n.2)
}

/// Whether `present` has a block equal to `n`.
pub open spec fn has_net(present: Seq<Cidr>, n: (bool, int, nat)) -> bool {
    exists|i: int| 0 <= i < present.len() && net_of(#[trigger] present[i]) == n
}

/// The first wanted address (all of them parse) that `present` lacks.
pub open spec fn first_missing(w: Seq<Seq<char>>, present: Seq<Cidr>) -> Option<(bool, int, nat)>
    decreases w.len(),
{
    if w.len() == 0 {
        None
    } else if has_net(present, parsed_block(w[0])) {
        first_missing(w.drop_first(), present)
    } else {
        Some(parsed_block(w[0]))
    }
}

/// What a CHECK concludes of an interface: every wanted address must
/// parse, and then every one must be on the interface; the message names
/// what is wrong.
pub open spec fn interface_verdict(ifname: Seq<char>, w: Seq<Seq<char>>, present: Seq<Cidr>) -> Result<
    (),
    Seq<char>,
> {
    if exists|i: int| 0 <= i < w.len() && #[trigger] parsed_net(w[i]) is None {
        Err("could not parse interface address: "@ + net_parse_error_text())
    } else {
        match first_missing(w, present) {
            None => Ok(()),
            Some(n) => Err("expected ip "@ + net_text(n) + " on interface "@ + ifname),
        }
    }
}

/// The addresses a previous result gave the sandboxed interfaces named
/// `ifname`.
pub fn wanted_address_texts(ifname: &str, ifaces: &Vec<CniInterface>, ips: &Vec<CniIpConfig>) -> (r: Vec<String>)
    ensures
        strings_view(r@) == wanted_addresses(ifname@, ifaces@, ips@),
{
    let mut out: Vec<String> = Vec::new();
    let mut k: usize = 0;
    proof {
        assert(ifaces@.take(0).len() == 0);
        assert(strings_view(out@) =~= wanted_addresses(ifname@, ifaces@.take(0), ips@));
    }
    while k < ifaces.len()
        invariant
            k <= ifaces@.len(),
            strings_view(out@) == wanted_addresses(ifname@, ifaces@.take(k as int), ips@),
        decreases ifaces.len() - k,
    {
        proof {
            assert(ifaces@.take(k + 1).drop_last() =~= ifaces@.take(k as int));
            assert(ifaces@.take(k + 1).last() == ifaces@[k as int]);
        }
        if ifaces[k].sandbox.is_some() && crate::text::str_eq(ifaces[k].name.as_str(), ifname) {
            let ghost base = strings_view(out@);
            let mut j: usize = 0;
            proof {
                assert(ips@.take(0).len() == 0);
                assert(strings_view(out@) =~= base + ips_at(ips@.take(0), k as int));
            }
            while j < ips.len()
                invariant
                    j <= ips@.len(),
                    strings_view(out@) == base + ips_at(ips@.take(j as int), k as int),
                decreases ips.len() - j,
            {
                proof {
                    assert(ips@.take(j + 1).drop_last() =~= ips@.take(j as int));
                    assert(ips@.take(j + 1).last() == ips@[j as int]);
                }
                match ips[j].interface {
                    Some(i) => {
                        if i as usize == k {
                            let ghost before = out@;
                            out.push(owned(ips[j].address.as_str()));
                            proof {
                                assert(strings_view(out@) =~= strings_view(before).push(ips@[j as int].address@));
                            }
                        }
                    },
                    None => {},
                }
                j = j + 1;
            }
            proof {
                assert(ips@.take(j as int) =~= ips@);
            }
        }
        k = k + 1;
    }
    proof {
        assert(ifaces@.take(k as int) =~= ifaces@);
    }
    out
}

/// Whether `present` has a block equal to `c`.
fn has_block(present: &Vec<Cidr>, c: &Cidr) -> (r: bool)
    ensures
        r == has_net(present@, net_of(*c)),
{
    let mut i: usize = 0;
    while i < present.len()
        invariant
            i <= present@.len(),
            forall|j: int| 0 <= j < i ==> net_of(#[trigger] present@[j]) != net_of(*c),
        decreases present.len() - i,
    {
        let same = present[i].same(c);
        proof {
            present@[i as int].lemma_same(*c);
        }
        if same {
            return true;
        }
        i = i + 1;
    }
    false
}

/// Whether the interface carries every address a previous result gave it
/// (see `interface_verdict`).
pub fn check_interface_addresses(
    ifname: &str,
    ifaces: &Vec<CniInterface>,
    ips: &Vec<CniIpConfig>,
    present: &Vec<Cidr>,
) -> (r: Result<(), CniError>)
    ensures
        match interface_verdict(ifname@, wanted_addresses(ifname@, ifaces@, ips@), present@) {
            Ok(()) => r is Ok,
            Err(m) => r matches Err(CniError::InvalidNetworkConfig(x)) && x@ == m,
        },
{
    let w = wanted_address_texts(ifname, ifaces, ips);
    let ghost wv = strings_view(w@);
    let mut parsed: Vec<Cidr> = Vec::new();
    let mut i: usize = 0;
    while i < w.len()
        invariant
            i <= w@.len(),
            wv == strings_view(w@),
            wv == wanted_addresses(ifname@, ifaces@, ips@),
            parsed@.len() == i,
            forall|j: int| 0 <= j < i ==> (#[trigger] parsed_net(wv[j])) is Some && parsed_block(wv[j]) == net_of(parsed@[j]),
            forall|j: int| 0 <= j < i ==> (#[trigger] parsed@[j]).wf(),
        decreases w.len() - i,
    {
        proof {
            assert(wv[i as int] == w@[i as int]@);
        }
        match Cidr::parse_or_reason(w[i].as_str()) {
            Err(reason) => {
                proof {
                    assert(parsed_net(wv[i as int]) is None);
                }
                let m = concat("could not parse interface address: ", reason.as_str());
                return Err(invalid(m.as_str()));
            },
            Ok(c) => {
                parsed.push(c);
            },
        }
        i = i + 1;
    }
    proof {
        assert forall|j: int| 0 <= j < wv.len() implies !(#[trigger] parsed_net(wv[j]) is None) by {
            assert(parsed_net(wv[j]) is Some);
        }
    }
    let mut k: usize = 0;
    proof {
        assert(wv.skip(0) =~= wv);
    }
    while k < parsed.len()
        invariant
            k <= parsed@.len(),
            parsed@.len() == wv.len(),
            wv == wanted_addresses(ifname@, ifaces@, ips@),
            forall|j: int| 0 <= j < wv.len() ==> !(#[trigger] parsed_net(wv[j]) is None),
            forall|j: int| 0 <= j < wv.len() ==> parsed_block(#[trigger] wv[j]) == net_of(parsed@[j]),
            forall|j: int| 0 <= j < wv.len() ==> (#[trigger] parsed@[j]).wf(),
            first_missing(wv, present@) == first_missing(wv.skip(k as int), present@),
        decreases parsed.len() - k,
    {
        proof {
            assert(wv.skip(k as int)[0] == wv[k as int]);
            assert(wv.skip(k as int).drop_first() =~= wv.skip(k + 1));
            assert(parsed_block(wv[k as int]) == net_of(parsed@[k as int]));
        }
        if !has_block(present, &parsed[k]) {
            let t = cidr_to_string(&parsed[k]);
            let m = concat("expected ip ", t.as_str());
            let m = concat(m.as_str(), " on interface ");
            let m = concat(m.as_str(), ifname);
            proof {
                assert(t@ == net_text(net_of(parsed@[k as int])));
            }
            return Err(CniError::InvalidNetworkConfig(m));
        }
        k = k + 1;
    }
    proof {
        assert(wv.skip(k as int).len() == 0);
    }
    Ok(())
}

/// The addresses an ADD has allocated, released again unless the ADD
/// succeeded and keeps them.
#[derive(Debug, Clone)]
pub struct IpamLease {
    pub ipv4: Option<ContainerAddressing>,
    pub ipv6: Option<ContainerAddressing>,
    pub keep: bool,
}

/// The allocations of a lease that must be released: none when the lease
/// is kept, else the IPv4 one and then the IPv6 one, where present.
pub open spec fn lease_releases(l: IpamLease) -> Seq<ContainerAddressing> {
    if l.keep {
        seq![]
    } else {
        let v4 = match l.ipv4 {
            Some(a) => seq![a],
            None => seq![],
        };
        let v6 = match l.ipv6 {
            Some(a) => seq![a],
            None => seq![],
        };
        v4 + v6
    }
}

impl IpamLease {
    /// A lease of the given allocations, not yet kept.
    pub fn new(ipv4: Option<ContainerAddressing>, ipv6: Option<ContainerAddressing>) -> (r: Self)
        ensures
            r.ipv4 == ipv4 && r.ipv6 == ipv6 && !r.keep,
    {
        IpamLease { ipv4, ipv6, keep: false }
    }

    /// What ending the lease releases, in order (see `lease_releases`).
    pub fn into_releases(self) -> (r: Vec<ContainerAddressing>)
        ensures
            r@ == lease_releases(self),
    {
        let mut r: Vec<ContainerAddressing> = Vec::new();
        if self.keep {
            proof {
                assert(r@ =~= lease_releases(self));
            }
            return r;
        }
        let ghost l = self;
        match self.ipv4 {
            Some(a) => r.push(a),
            None => {},
        }
        match self.ipv6 {
            Some(a) => r.push(a),
            None => {},
        }
        proof {
            assert(r@ =~= lease_releases(l));
        }
        r
    }
}

/// The pieces joined with `sep` between them.
pub open spec fn join_with(pieces: Seq<Seq<char>>, sep: char) -> Seq<char>
    decreases pieces.len(),
{
    if pieces.len() == 0 {
        seq![]
    } else if pieces.len() == 1 {
        pieces[0]
    } else {
        join_with(pieces.drop_last(), sep) + seq![sep] + pieces.last()
    }
}

proof fn lemma_join_push_char(v: Seq<Seq<char>>, x: Seq<char>, c: char, sep: char)
    ensures
        join_with(v.push(x.push(c)), sep) == join_with(v.push(x), sep).push(c),
{
    assert(v.push(x.push(c)).drop_last() =~= v);
    assert(v.push(x).drop_last() =~= v);
    if v.len() == 0 {
        assert(join_with(v.push(x.push(c)), sep) == x.push(c));
        assert(join_with(v.push(x), sep) == x);
    } else {
        assert(join_with(v.push(x.push(c)), sep) =~= join_with(v.push(x), sep).push(c));
    }
}

proof fn lemma_split_state_join(s: Seq<char>, sep: char, n: nat)
    requires
        n <= s.len(),
    ensures
        join_with(split_state(s, sep, n).0.push(split_state(s, sep, n).1), sep) == s.take(n as int),
    decreases n,
{
    if n == 0 {
        assert(split_state(s, sep, 0).0.push(split_state(s, sep, 0).1) =~= seq![seq![]]);
        assert(s.take(0) =~= Seq::<char>::empty());
    } else {
        let m = (n - 1) as nat;
        lemma_split_state_join(s, sep, m);
        let (done, cur) = split_state(s, sep, m);
        assert(s.take(n as int) =~= s.take(m as int).push(s[m as int]));
        if s[m as int] == sep {
            let v = done.push(cur).push(seq![]);
            assert(v.drop_last() =~= done.push(cur));
            assert(join_with(v, sep) =~= s.take(m as int) + seq![sep]);
        } else {
            lemma_join_push_char(done, cur, s[m as int], sep);
        }
    }
}

/// Joining the pieces of a split with the separator gives back the text.
pub proof fn law_split_join(s: Seq<char>, sep: char)
    ensures
        join_with(split_on(s, sep), sep) == s,
{
    lemma_split_state_join(s, sep, s.len());
    assert(s.take(s.len() as int) =~= s);
}

/// The Kubernetes arguments of a CNI request (from `CNI_ARGS`).
#[derive(Debug, Clone, Default, PartialEq, Eq)]
pub struct ArgsSpec {
    pub k8s_pod_name: String,
    pub k8s_pod_namespace: String,
    pub k8s_pod_uid: String,
}

/// The plugin the container runtime invokes.
#[derive(Debug, Clone, Copy, Default)]
pub struct SarenaPlugin;

impl SarenaPlugin {
    /// Garbage collection has nothing to clean up.
    pub fn gc(&self) -> (r: Result<(), CniError>)
        ensures
            r is Ok,
    {
        Ok(())
    }
}

/// The id of an endpoint: `<container id>:<interface name>`.
pub fn endpoint_id(container_id: &str, ifname: &str) -> (r: String)
    ensures
        r@ == container_id@ + seq![':'] + ifname@,
{
    let r = concat(container_id, ":");
    proof {
        reveal_strlit(":");
    }
    concat(r.as_str(), ifname)
}

/// A route to install in a container: the destination block, the MTU and
/// the next hop, if any.
#[derive(Debug, Clone, Copy)]
pub struct RouteSpec {
    pub prefix: Cidr,
    pub mtu: Option<u32>,
    pub nexthop: Option<IpAddress>,
}

/// A route as a CNI result reports it.
#[derive(Debug, Clone, PartialEq, Eq)]
pub struct CniRoute {
    pub dst: String,
    pub mtu: Option<u32>,
    pub gw: Option<String>,
}

/// The CNI form of routes: the destination and next hop as text, the MTU
/// as it is, in the same order.
pub fn convert_to_cni_routes(routes: &Vec<RouteSpec>) -> (r: Vec<CniRoute>)
    requires
        forall|i: int| 0 <= i < routes@.len() ==> (#[trigger] routes@[i]).prefix.wf(),
    ensures
        r@.len() == routes@.len(),
        forall|i: int|
            0 <= i < routes@.len() ==> {
                &&& (#[trigger] r@[i]).dst@ == cidr_text(routes@[i].prefix)
                &&& r@[i].mtu == routes@[i].mtu
                &&& match routes@[i].nexthop {
                    Some(h) => r@[i].gw matches Some(g) && g@ == ip_text(h),
                    None => r@[i].gw is None,
                }
            },
{
    let mut out: Vec<CniRoute> = Vec::new();
    let mut i: usize = 0;
    while i < routes.len()
        invariant
            i <= routes@.len(),
            out@.len() == i,
            forall|j: int| 0 <= j < routes@.len() ==> (#[trigger] routes@[j]).prefix.wf(),
            forall|j: int|
                0 <= j < i ==> {
                    &&& (#[trigger] out@[j]).dst@ == cidr_text(routes@[j].prefix)
                    &&& out@[j].mtu == routes@[j].mtu
                    &&& match routes@[j].nexthop {
                        Some(h) => out@[j].gw matches Some(g) && g@ == ip_text(h),
                        None => out@[j].gw is None,
                    }
                },
        decreases routes.len() - i,
    {
        let route = routes[i];
        let dst = cidr_to_string(&route.prefix);
        let gw = match route.nexthop {
            Some(h) => Some(crate::ip::ip_to_string(h)),
            None => None,
        };
        out.push(CniRoute { dst, mtu: route.mtu, gw });
        i = i + 1;
    }
    out
}

/// What an ADD reports: the interfaces, the addresses and the routes.
#[derive(Debug, Clone)]
pub struct CniResult {
    pub interfaces: Vec<CniInterface>,
    pub ips: Vec<CniIpConfig>,
    pub routes: Vec<CniRoute>,
}

/// An address of the container interface, which is the second interface
/// of the result (index 1), with its gateway.
pub fn container_ip_config(address: &str, gateway: &str) -> (r: CniIpConfig)
    ensures
        r.interface == Some(1u32),
        r.address@ == address@,
        r.gateway matches Some(g) && g@ == gateway@,
{
    CniIpConfig { interface: Some(1), address: owned(address), gateway: Some(owned(gateway)) }
}

/// The result of an ADD: the host side of the veth pair first (outside
/// any sandbox), then the container interface in its namespace, with the
/// given addresses and routes.
pub fn add_result(
    host_ifname: &str,
    host_mac: &str,
    ifname: &str,
    pod_mac: &str,
    netns: &str,
    ips: Vec<CniIpConfig>,
    routes: Vec<CniRoute>,
) -> (r: CniResult)
    ensures
        r.interfaces@.len() == 2,
        r.interfaces@[0].name@ == host_ifname@,
        r.interfaces@[0].mac@ == host_mac@,
        r.interfaces@[0].sandbox is None,
        r.interfaces@[1].name@ == ifname@,
        r.interfaces@[1].mac@ == pod_mac@,
        r.interfaces@[1].sandbox matches Some(n) && n@ == netns@,
        r.ips@ == ips@,
        r.routes@ == routes@,
{
    let host = CniInterface { name: owned(host_ifname), mac: owned(host_mac), sandbox: None };
    let pod = CniInterface { name: owned(ifname), mac: owned(pod_mac), sandbox: Some(owned(netns)) };
    let mut interfaces = Vec::new();
    interfaces.push(host);
    interfaces.push(pod);
    CniResult { interfaces, ips, routes }
}

/// The address texts of `ips`, in order.
pub open spec fn address_texts(ips: Seq<CniIpConfig>) -> Seq<Seq<char>> {
    ips.map_values(|c: CniIpConfig| c.address@)
}

proof fn lemma_ips_at_all(ips: Seq<CniIpConfig>)
    requires
        forall|i: int| 0 <= i < ips.len() ==> (#[trigger] ips[i]).interface == Some(1u32),
    ensures
        ips_at(ips, 1) == address_texts(ips),
    decreases ips.len(),
{
    if ips.len() > 0 {
        let d = ips.drop_last();
        assert forall|i: int| 0 <= i < d.len() implies (#[trigger] d[i]).interface == Some(1u32) by {
            assert(d[i] == ips[i]);
        }
        lemma_ips_at_all(d);
        assert(address_texts(ips) =~= address_texts(d).push(ips.last().address@));
    } else {
        assert(address_texts(ips) =~= Seq::<Seq<char>>::empty());
    }
}

/// What CHECK verifies of an ADD's result is exactly its addresses: with
/// the host interface outside any sandbox and every address on the
/// container interface, the addresses CHECK wants on the container
/// interface are all of them, in order.
pub proof fn law_check_wants_every_added_address(
    ifname: Seq<char>,
    ifaces: Seq<CniInterface>,
    ips: Seq<CniIpConfig>,
)
    requires
        ifaces.len() == 2,
        ifaces[0].sandbox is None,
        ifaces[1].sandbox is Some,
        ifaces[1].name@ == ifname,
        forall|i: int| 0 <= i < ips.len() ==> (#[trigger] ips[i]).interface == Some(1u32),
    ensures
        wanted_addresses(ifname, ifaces, ips) == address_texts(ips),
{
    let first = ifaces.drop_last();
    assert(first.drop_last().len() == 0);
    assert(wanted_addresses(ifname, first.drop_last(), ips) == Seq::<Seq<char>>::empty());
    assert(first.last() == ifaces[0]);
    assert(wanted_addresses(ifname, first, ips) == Seq::<Seq<char>>::empty());
    assert(ifaces.last() == ifaces[1]);
    lemma_ips_at_all(ips);
    assert(wanted_addresses(ifname, ifaces, ips) =~= address_texts(ips));
}

/// The steps of ADD that act on the system or the agent, in the order they
/// run.
#[derive(Debug, Clone, Copy, PartialEq, Eq, Structural)]
pub enum AddStage {
    OpenNetns,
    DeleteStaleLink,
    ConnectDaemon,
    ReadConfig,
    Allocate,
    CheckHostAddressing,
    SetupVeth,
    ConfigureIface,
    CreateEndpoint,
}

/// What ADD does after a step.
#[derive(Debug, Clone, Copy, PartialEq, Eq, Structural)]
pub enum AddAction {
    /// Run this step next.
    Run(AddStage),
    /// Every step succeeded: keep the addresses and answer with the result.
    Finish,
    /// A step failed: answer with its error, first releasing the addresses
    /// (IPv4, then IPv6) when they were allocated.
    Abort { release_lease: bool },
}

/// The position of a step in ADD.
pub open spec fn add_stage_index(s: AddStage) -> int {
    match s {
        AddStage::OpenNetns => 0,
        AddStage::DeleteStaleLink => 1,
        AddStage::ConnectDaemon => 2,
        AddStage::ReadConfig => 3,
        AddStage::Allocate => 4,
        AddStage::CheckHostAddressing => 5,
        AddStage::SetupVeth => 6,
        AddStage::ConfigureIface => 7,
        AddStage::CreateEndpoint => 8,
    }
}

/// What follows step `s` once it is over: the next step, or the end, when
/// it succeeded; else an abort, which releases the lease exactly when the
/// addresses had been allocated (a step after `Allocate` failed).
pub open spec fn add_next_spec(s: AddStage, succeeded: bool) -> AddAction {
    if !succeeded {
        AddAction::Abort { release_lease: add_stage_index(s) > add_stage_index(AddStage::Allocate) }
    } else {
        match s {
            AddStage::OpenNetns => AddAction::Run(AddStage::DeleteStaleLink),
            AddStage::DeleteStaleLink => AddAction::Run(AddStage::ConnectDaemon),
            AddStage::ConnectDaemon => AddAction::Run(AddStage::ReadConfig),
            AddStage::ReadConfig => AddAction::Run(AddStage::Allocate),
            AddStage::Allocate => AddAction::Run(AddStage::CheckHostAddressing),
            AddStage::CheckHostAddressing => AddAction::Run(AddStage::SetupVeth),
            AddStage::SetupVeth => AddAction::Run(AddStage::ConfigureIface),
            AddStage::ConfigureIface => AddAction::Run(AddStage::CreateEndpoint),
            AddStage::CreateEndpoint => AddAction::Finish,
        }
    }
}

/// How ADD begins: a refused request (see `add_error`) is answered with
/// its refusal and no step runs at all; an accepted one starts at
/// `OpenNetns`, for the interface it names.
pub fn add_start(req: &CniRequest) -> (r: Result<(CniTarget, AddStage), CniError>)
    ensures
        target_outcome(
            *req,
            add_error(*req),
            match r {
                Ok((t, _)) => Ok(t),
                Err(e) => Err(e),
            },
        ),
        r is Err <==> add_error(*req) is Some,
        r matches Ok((_, s)) ==> s == AddStage::OpenNetns,
{
    match add_target(req) {
        Ok(t) => Ok((t, AddStage::OpenNetns)),
        Err(e) => Err(e),
    }
}

/// The decision after step `stage` of ADD, given whether it succeeded.
pub fn add_next(stage: AddStage, succeeded: bool) -> (r: AddAction)
    ensures
        r == add_next_spec(stage, succeeded),
{
    if !succeeded {
        let release_lease = match stage {
            AddStage::CheckHostAddressing | AddStage::SetupVeth | AddStage::ConfigureIface
            | AddStage::CreateEndpoint => true,
            _ => false,
        };
        return AddAction::Abort { release_lease };
    }
    match stage {
        AddStage::OpenNetns => AddAction::Run(AddStage::DeleteStaleLink),
        AddStage::DeleteStaleLink => AddAction::Run(AddStage::ConnectDaemon),
        AddStage::ConnectDaemon => AddAction::Run(AddStage::ReadConfig),
        AddStage::ReadConfig => AddAction::Run(AddStage::Allocate),
        AddStage::Allocate => AddAction::Run(AddStage::CheckHostAddressing),
        AddStage::CheckHostAddressing => AddAction::Run(AddStage::SetupVeth),
        AddStage::SetupVeth => AddAction::Run(AddStage::ConfigureIface),
        AddStage::ConfigureIface => AddAction::Run(AddStage::CreateEndpoint),
        AddStage::CreateEndpoint => AddAction::Finish,
    }
}

/// Each step is followed by the one after it, so ADD runs its steps once
/// each, in order; it keeps the addresses only when the endpoint was
/// created, and when it aborts after allocating it releases them.
pub proof fn law_add_steps_in_order(s: AddStage, t: AddStage)
    ensures
        add_next_spec(s, true) == AddAction::Run(t) ==> add_stage_index(t) == add_stage_index(s) + 1,
        add_next_spec(s, true) == AddAction::Finish <==> s == AddStage::CreateEndpoint,
        add_next_spec(s, false) == (AddAction::Abort {
            release_lease: add_stage_index(s) > add_stage_index(AddStage::Allocate),
        }),
{
}

/// What ending a lease after ADD's last action releases: nothing when ADD
/// finished, else (when the lease was taken) the IPv4 then the IPv6
/// address.
pub fn end_lease(lease: IpamLease, last: AddAction) -> (r: Vec<ContainerAddressing>)
    ensures
        r@ == match last {
            AddAction::Finish => Seq::empty(),
            _ => lease_releases(IpamLease { keep: false, ..lease }),
        },
{
    let l = IpamLease { keep: matches!(last, AddAction::Finish), ..lease };
    l.into_releases()
}

} // verus!
