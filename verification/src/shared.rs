//! Types shared with the in-kernel programs: map keys and values, and
//! their printable forms.
use vstd::prelude::*;
use vstd::string::StringExecFns;
use vstd::endian::{endianness, Endian};

use crate::ip::{decimal, decimal_string, IpAddress};
use crate::text::push_char;

verus! {

/// An IPv4 address as the kernel programs key it: the four wire octets
/// stored verbatim.
pub type Ipv4Key = u32;

/// Observation point of forwarded container traffic.
pub const OBS_POINT_CONTAINER_FORWARD: u8 = 0;

/// Observation point of forwarded host traffic.
pub const OBS_POINT_HOST_FORWARD: u8 = 1;

/// Per-endpoint configuration read by the kernel programs.
#[derive(Clone, Copy, Debug)]
pub struct EndpointConfig {
    pub mac: [u8; 6],
    /// The container's IPv4 address, as a number.
    pub ipv4: u32,
}

/// What the kernel programs know of a local endpoint.
#[derive(Clone, Copy, Debug)]
pub struct EndpointInfo {
    /// The host-side interface index, valid in the node's namespace.
    pub if_index: u32,
    /// The container-side MAC address.
    pub container_mac: [u8; 6],
    pub host_mac: [u8; 6],
}

/// Key of the metrics map.
#[derive(Clone, Copy, Debug)]
pub struct MetricsKey {
    pub obs_point: u8,
    pub pad: [u8; 7],
}

/// Value of the metrics map.
#[derive(Clone, Copy, Debug, PartialEq, Eq, Structural)]
pub struct MetricsValue {
    pub packets: u64,
    pub bytes: u64,
}

/// `a + b`, or the largest `u64` when that overflows.
pub open spec fn sat_add(a: u64, b: u64) -> u64 {
    if a + b > u64::MAX {
        u64::MAX
    } else {
        (a + b) as u64
    }
}

/// The per-CPU values folded into one, saturating.
pub open spec fn sum_values(v: Seq<MetricsValue>) -> MetricsValue
    decreases v.len(),
{
    if v.len() == 0 {
        MetricsValue { packets: 0, bytes: 0 }
    } else {
        let s = sum_values(v.drop_last());
        MetricsValue {
            packets: sat_add(s.packets, v.last().packets),
            bytes: sat_add(s.bytes, v.last().bytes),
        }
    }
}

impl MetricsValue {
    /// Sums the per-CPU values of one metric, saturating at the largest
    /// `u64`.
    pub fn sum_per_cpu(values: &Vec<MetricsValue>) -> (r: MetricsValue)
        ensures
            r == sum_values(values@),
    {
        let mut acc = MetricsValue { packets: 0, bytes: 0 };
        let mut i: usize = 0;
        while i < values.len()
            invariant
                i <= values@.len(),
                acc == sum_values(values@.subrange(0, i as int)),
            decreases values@.len() - i,
        {
            proof {
                assert(values@.subrange(0, i + 1).drop_last() =~= values@.subrange(0, i as int));
            }
            let cpu = values[i];
            acc = MetricsValue {
                packets: acc.packets.saturating_add(cpu.packets),
                bytes: acc.bytes.saturating_add(cpu.bytes),
            };
            i = i + 1;
        }
        proof {
            assert(values@.subrange(0, values@.len() as int) =~= values@);
        }
        acc
    }
}

/// The label of an observation point.
pub open spec fn obs_point_text(p: u8) -> Seq<char> {
    if p == OBS_POINT_CONTAINER_FORWARD {
        "CONT FWD"@
    } else if p == OBS_POINT_HOST_FORWARD {
        "HOST FWD"@
    } else {
        "UNKNOWN"@
    }
}

/// The label of an observation point.
pub fn write_obs_point(obs_point: u8) -> (r: &'static str)
    ensures
        r@ == obs_point_text(obs_point),
{
    if obs_point == OBS_POINT_CONTAINER_FORWARD {
        "CONT FWD"
    } else if obs_point == OBS_POINT_HOST_FORWARD {
        "HOST FWD"
    } else {
        "UNKNOWN"
    }
}

/// The lowercase hexadecimal digit for `d < 16`.
pub open spec fn hex_digit(d: nat) -> char {
    if d < 10 {
        (('0' as nat) + d) as char
    } else {
        (('a' as nat) + (d - 10)) as char
    }
}

/// A byte as two lowercase hexadecimal digits.
pub open spec fn hex_byte(b: u8) -> Seq<char> {
    seq![hex_digit(b as nat / 16), hex_digit(b as nat % 16)]
}

/// A MAC address as six colon-separated two-digit hexadecimal bytes.
pub open spec fn mac_text(mac: Seq<u8>) -> Seq<char>
    decreases mac.len(),
{
    if mac.len() <= 1 {
        if mac.len() == 0 {
            Seq::empty()
        } else {
            hex_byte(mac[0])
        }
    } else {
        mac_text(mac.drop_last()) + seq![':'] + hex_byte(mac.last())
    }
}

pub(crate) fn push_hex_digit(s: &mut String, d: u8)
    requires
        d < 16,
    ensures
        final(s)@ == old(s)@.push(hex_digit(d as nat)),
{
    let c = if d < 10 {
        ('0' as u8 + d) as char
    } else {
        ('a' as u8 + (d - 10)) as char
    };
    push_char(s, c);
}

/// Prints a MAC address, e.g. `0a:1b:2c:3d:4e:5f`.
pub fn write_mac(mac: [u8; 6]) -> (r: String)
    ensures
        r@ == mac_text(mac@),
{
    let mut out = String::new();
    let mut i: usize = 0;
    while i < 6
        invariant
            i <= 6,
            mac@.len() == 6,
            out@ == mac_text(mac@.subrange(0, i as int)),
        decreases 6 - i,
    {
        let ghost before = out@;
        if i != 0 {
            push_char(&mut out, ':');
        }
        let b = mac[i];
        push_hex_digit(&mut out, b / 16);
        push_hex_digit(&mut out, b % 16);
        proof {
            let s = mac@.subrange(0, i + 1);
            assert(s.drop_last() =~= mac@.subrange(0, i as int));
            if i == 0 {
                assert(out@ =~= hex_byte(b));
            } else {
                assert(out@ =~= before + seq![':'] + hex_byte(b));
            }
        }
        i = i + 1;
    }
    proof {
        assert(mac@.subrange(0, 6) =~= mac@);
    }
    out
}

impl EndpointInfo {
    /// `if_index=<n> container_mac=<mac> host_mac=<mac>`.
    pub fn to_text(&self) -> (r: String)
        ensures
            r@ == "if_index="@ + decimal(self.if_index as nat) + " container_mac="@ + mac_text(
                self.container_mac@,
            ) + " host_mac="@ + mac_text(self.host_mac@),
    {
        let mut out = String::new();
        out.append("if_index=");
        let n = decimal_string(self.if_index as u128);
        out.append(n.as_str());
        out.append(" container_mac=");
        let c = write_mac(self.container_mac);
        out.append(c.as_str());
        out.append(" host_mac=");
        let h = write_mac(self.host_mac);
        out.append(h.as_str());
        out
    }
}

/// The four bytes of `k` in little-endian order.
pub open spec fn le_octets(k: u32) -> Seq<u8> {
    seq![(k % 256) as u8, ((k / 256) % 256) as u8, ((k / 0x1_0000) % 256) as u8, (k / 0x100_0000) as u8]
}

/// The four bytes of `k` in big-endian order.
pub open spec fn be_octets(k: u32) -> Seq<u8> {
    seq![(k / 0x100_0000) as u8, ((k / 0x1_0000) % 256) as u8, ((k / 256) % 256) as u8, (k % 256) as u8]
}

/// The number four bytes denote in big-endian order.
pub open spec fn be_value(o: Seq<u8>) -> u32 {
    (o[0] * 0x100_0000 + o[1] * 0x1_0000 + o[2] * 0x100 + o[3]) as u32
}

/// The bytes of `k` in the byte order of the machine the code runs on.
pub open spec fn ne_octets(k: u32) -> Seq<u8> {
    match endianness() {
        Endian::Little => le_octets(k),
        Endian::Big => be_octets(k),
    }
}

/// The bytes of `k` in the machine's byte order.
///
/// Calls `u32::to_ne_bytes`: the bytes of `k` in the byte order that
/// `vstd::endian::endianness` stands for.
#[verifier::external_body]
fn u32_ne_octets(k: u32) -> (r: [u8; 4])
    ensures
        r@ == ne_octets(k),
{
    k.to_ne_bytes()
}

/// The number four bytes denote in the machine's byte order.
///
/// Calls `u32::from_ne_bytes`: the number whose bytes, in the byte order
/// that `vstd::endian::endianness` stands for, are `o`.
#[verifier::external_body]
fn u32_from_ne_octets(o: [u8; 4]) -> (r: u32)
    ensures
        ne_octets(r) == o@,
{
    u32::from_ne_bytes(o)
}

/// Conversions between an `Ipv4Key` and the address it holds.
pub trait Ipv4KeyExt: Sized {
    /// The four wire octets, in address order.
    fn octets(self) -> [u8; 4];

    /// The inverse of `octets`.
    fn from_octets(octets: [u8; 4]) -> Self;

    /// The address the key holds.
    fn to_addr(self) -> IpAddress;

    /// The key that holds the IPv4 address `addr`.
    fn from_addr(addr: IpAddress) -> Self
        requires
            addr is V4,
    ;
}

impl Ipv4KeyExt for Ipv4Key {
    /// The key's bytes in the machine's byte order (which are the wire
    /// octets, the key holding them verbatim).
    fn octets(self) -> (r: [u8; 4])
        ensures
            r@ == ne_octets(self),
    {
        u32_ne_octets(self)
    }

    /// The key whose bytes in the machine's byte order are `octets`.
    fn from_octets(octets: [u8; 4]) -> (r: Self)
        ensures
            ne_octets(r) == octets@,
    {
        u32_from_ne_octets(octets)
    }

    /// The address whose octets, in address order, are the key's bytes.
    fn to_addr(self) -> (r: IpAddress)
        ensures
            r == IpAddress::V4(be_value(ne_octets(self))),
    {
        let o = u32_ne_octets(self);
        IpAddress::V4(
            (o[0] as u32) * 0x100_0000 + (o[1] as u32) * 0x1_0000 + (o[2] as u32) * 0x100 + (
            o[3] as u32),
        )
    }

    /// The key whose bytes, in the machine's byte order, are the address's
    /// octets in address order.
    fn from_addr(addr: IpAddress) -> (r: Self)
        ensures
            ne_octets(r) == be_octets(addr->V4_0),
    {
        let v: u32 = match addr {
            IpAddress::V4(v) => v,
            IpAddress::V6(_) => 0,
        };
        let o: [u8; 4] = [(v / 0x100_0000) as u8, ((v / 0x1_0000) % 256) as u8, ((v / 256) % 256) as u8, (v % 256) as u8];
        proof {
            assert(o@ =~= be_octets(v));
        }
        u32_from_ne_octets(o)
    }
}

proof fn lemma_le_octets_injective(a: u32, b: u32)
    requires
        le_octets(a) == le_octets(b),
    ensures
        a == b,
{
    assert(le_octets(a)[0] == le_octets(b)[0]);
    assert(le_octets(a)[1] == le_octets(b)[1]);
    assert(le_octets(a)[2] == le_octets(b)[2]);
    assert(le_octets(a)[3] == le_octets(b)[3]);
    assert(a % 256 == b % 256);
    assert((a / 256) % 256 == (b / 256) % 256);
    assert((a / 0x1_0000) % 256 == (b / 0x1_0000) % 256);
    assert(a / 0x100_0000 == b / 0x100_0000);
    assert(a == b) by (bit_vector)
        requires
            a % 256 == b % 256,
            (a / 256) % 256 == (b / 256) % 256,
            (a / 0x1_0000) % 256 == (b / 0x1_0000) % 256,
            a / 0x100_0000 == b / 0x100_0000,
    ;
}

proof fn lemma_be_octets_value(v: u32)
    ensures
        be_value(be_octets(v)) == v,
{
    let o = be_octets(v);
    assert(o[0] == v / 0x100_0000 && o[1] == (v / 0x1_0000) % 256 && o[2] == (v / 256) % 256 && o[3] == v % 256);
    assert(v == (v / 0x100_0000) * 0x100_0000 + ((v / 0x1_0000) % 256) * 0x1_0000 + ((v / 256) % 256) * 0x100 + (v % 256)) by (bit_vector);
}

/// A key's bytes read back as the key, and a key built from bytes has
/// those bytes: `from_octets` undoes `octets` and the other way round.
/// Hence the key built from an IPv4 address holds that address.
pub proof fn law_key_octets_round_trip(k: Ipv4Key, j: Ipv4Key, v: u32)
    ensures
        ne_octets(k) == ne_octets(j) ==> k == j,
        ne_octets(k).len() == 4,
        ne_octets(j) == be_octets(v) ==> IpAddress::V4(be_value(ne_octets(j))) == IpAddress::V4(v),
{
    if ne_octets(k) == ne_octets(j) {
        match endianness() {
            Endian::Little => lemma_le_octets_injective(k, j),
            Endian::Big => {
                assert(ne_octets(k)[0] == ne_octets(j)[0]);
                assert(ne_octets(k)[1] == ne_octets(j)[1]);
                assert(ne_octets(k)[2] == ne_octets(j)[2]);
                assert(ne_octets(k)[3] == ne_octets(j)[3]);
                assert(le_octets(k) =~= le_octets(j));
                lemma_le_octets_injective(k, j);
            },
        }
    }
    lemma_be_octets_value(v);
}

} // verus!
