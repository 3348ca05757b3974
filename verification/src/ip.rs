//! IP addresses and CIDR blocks as plain numbers.
use vstd::prelude::*;
use vstd::string::StringExecFns;

use crate::text::push_char;


verus! {

/// An IPv4 or IPv6 address, by its numeric value.
#[derive(Clone, Copy, Debug, PartialEq, Eq, Hash, Structural)]
pub enum IpAddress {
    V4(u32),
    V6(u128),
}

impl IpAddress {
    /// The address as a number.
    pub open spec fn value(self) -> int {
        match self {
            IpAddress::V4(a) => a as int,
            IpAddress::V6(a) => a as int,
        }
    }

    pub open spec fn is_v6(self) -> bool {
        self is V6
    }

    /// The address as a number (IPv4 addresses are zero-extended).
    pub fn to_u128(self) -> (r: u128)
        ensures
            r == self.value(),
    {
        match self {
            IpAddress::V4(a) => a as u128,
            IpAddress::V6(a) => a,
        }
    }
}

/// `2^n`.
pub open spec fn two_pow(n: nat) -> nat
    decreases n,
{
    if n == 0 {
        1
    } else {
        2 * two_pow((n - 1) as nat)
    }
}

pub proof fn lemma_two_pow_pos(n: nat)
    ensures
        two_pow(n) >= 1,
    decreases n,
{
    if n > 0 {
        lemma_two_pow_pos((n - 1) as nat);
    }
}

pub proof fn lemma_two_pow_adds(a: nat, b: nat)
    ensures
        two_pow(a + b) == two_pow(a) * two_pow(b),
    decreases a,
{
    if a == 0 {
        assert(two_pow(a) == 1);
        assert(a + b == b);
    } else {
        lemma_two_pow_adds((a - 1) as nat, b);
        assert(((a + b) - 1) as nat == ((a - 1) as nat + b));
        assert(two_pow(a + b) == 2 * two_pow(((a + b) - 1) as nat));
        assert(two_pow(a) * two_pow(b) == 2 * (two_pow((a - 1) as nat) * two_pow(b))) by (
        nonlinear_arith)
            requires
                two_pow(a) == 2 * two_pow((a - 1) as nat),
        ;
    }
}

pub proof fn lemma_two_pow_mono(a: nat, b: nat)
    requires
        a <= b,
    ensures
        two_pow(a) <= two_pow(b),
    decreases b,
{
    if a < b {
        lemma_two_pow_mono(a, (b - 1) as nat);
        lemma_two_pow_pos((b - 1) as nat);
    }
}

pub proof fn lemma_two_pow_values()
    ensures
        two_pow(16) == 0x10000,
        two_pow(32) == 0x1_0000_0000,
        two_pow(127) == 0x8000_0000_0000_0000_0000_0000_0000_0000,
        two_pow(128) == 0x1_0000_0000_0000_0000_0000_0000_0000_0000,
{
    assert(two_pow(16) == 0x10000) by {
        reveal_with_fuel(two_pow, 17);
    }
    lemma_two_pow_adds(16, 16);
    assert(two_pow(32) == 0x1_0000_0000);
    lemma_two_pow_adds(32, 32);
    assert(two_pow(64) == 0x1_0000_0000_0000_0000);
    lemma_two_pow_adds(63, 64);
    assert(two_pow(63) * 2 == two_pow(64));
    assert(two_pow(63) == 0x8000_0000_0000_0000);
    assert(two_pow(127) == 0x8000_0000_0000_0000 * 0x1_0000_0000_0000_0000);
    assert(two_pow(128) == 2 * two_pow(127));
}

/// `2^n` as a machine number, for `n < 128`.
pub fn two_pow_u128(n: u32) -> (r: u128)
    requires
        n < 128,
    ensures
        r == two_pow(n as nat),
{
    let mut m: u128 = 1;
    let mut i: u32 = 0;
    while i < n
        invariant
            i <= n < 128,
            m == two_pow(i as nat),
        decreases n - i,
    {
        proof {
            lemma_two_pow_mono((i + 1) as nat, 127);
            lemma_two_pow_values();
        }
        m = m * 2;
        i = i + 1;
    }
    m
}

/// A CIDR block: an address and the length of its network prefix. The
/// address keeps its host bits, as written.
#[derive(Clone, Copy, Debug)]
pub struct Cidr {
    v6: bool,
    addr: u128,
    prefix_len: u8,
}

/// The prefix length of a whole address of the family.
pub open spec fn max_prefix_of(v6: bool) -> nat {
    if v6 {
        128
    } else {
        32
    }
}

/// Whether (family, address, prefix length) describes a CIDR block.
pub open spec fn cidr_ok(v6: bool, addr: int, prefix_len: int) -> bool {
    &&& 0 <= prefix_len <= max_prefix_of(v6)
    &&& 0 <= addr < two_pow(max_prefix_of(v6))
}

impl Cidr {
    /// The block is well formed: the prefix fits the family and so does the
    /// address.
    pub closed spec fn wf(self) -> bool {
        cidr_ok(self.v6, self.addr as int, self.prefix_len as int)
    }

    pub closed spec fn is_v6(self) -> bool {
        self.v6
    }

    pub closed spec fn addr_value(self) -> int {
        self.addr as int
    }

    pub closed spec fn prefix(self) -> nat {
        self.prefix_len as nat
    }

    pub open spec fn max_prefix(self) -> nat {
        max_prefix_of(self.is_v6())
    }

    /// Number of host bits.
    pub open spec fn host_bits(self) -> nat {
        (self.max_prefix() - self.prefix()) as nat
    }

    /// Number of addresses in the block.
    pub open spec fn block_size(self) -> nat {
        two_pow(self.host_bits())
    }

    /// The first address of the block.
    pub open spec fn network_value(self) -> int {
        self.addr_value() - self.addr_value() % (self.block_size() as int)
    }

    /// The last address of the block.
    pub open spec fn broadcast_value(self) -> int {
        self.network_value() + self.block_size() - 1
    }

    /// Whether `ip` lies in the block.
    pub open spec fn contains_spec(self, ip: IpAddress) -> bool {
        &&& ip.is_v6() == self.is_v6()
        &&& self.network_value() <= ip.value() <= self.broadcast_value()
    }

    pub proof fn lemma_wf(self)
        requires
            self.wf(),
        ensures
            cidr_ok(self.is_v6(), self.addr_value(), self.prefix() as int),
    {
    }

    /// The block `ip/prefix_len`; `None` when the prefix is longer than the
    /// address.
    pub fn new(ip: IpAddress, prefix_len: u8) -> (r: Option<Cidr>)
        ensures
            r is Some <==> prefix_len <= max_prefix_of(ip.is_v6()),
            r matches Some(c) ==> c.wf() && c.is_v6() == ip.is_v6() && c.addr_value()
                == ip.value() && c.prefix() == prefix_len,
    {
        proof {
            lemma_two_pow_values();
        }
        match ip {
            IpAddress::V4(a) => {
                if prefix_len > 32 {
                    None
                } else {
                    Some(Cidr { v6: false, addr: a as u128, prefix_len })
                }
            },
            IpAddress::V6(a) => {
                if prefix_len > 128 {
                    None
                } else {
                    Some(Cidr { v6: true, addr: a, prefix_len })
                }
            },
        }
    }

    /// Parses `<address>/<prefix length>` notation.
    pub fn parse(s: &str) -> (r: Option<Cidr>)
        ensures
            match parsed_net(s@) {
                None => r is None,
                Some((v6, addr, prefix_len)) => r matches Some(c) && c.wf() && c.is_v6() == v6
                    && c.addr_value() == addr && c.prefix() == prefix_len,
            },
    {
        match Cidr::parse_or_reason(s) {
            Ok(c) => Some(c),
            Err(_) => None,
        }
    }

    /// Parses `<address>/<prefix length>` notation, or gives the reason the
    /// text is refused, as the parser words it.
    pub fn parse_or_reason(s: &str) -> (r: Result<Cidr, String>)
        ensures
            match parsed_net(s@) {
                None => r matches Err(m) && m@ == net_parse_error_text(),
                Some((v6, addr, prefix_len)) => r matches Ok(c) && c.wf() && c.is_v6() == v6
                    && c.addr_value() == addr && c.prefix() == prefix_len,
            },
    {
        match parse_net(s) {
            Err(m) => Err(m),
            Ok((v6, addr, prefix_len)) => {
                proof {
                    lemma_two_pow_values();
                }
                Ok(Cidr { v6, addr, prefix_len })
            },
        }
    }

    /// A block is determined by its family, address and prefix length.
    pub proof fn lemma_same(self, other: Cidr)
        ensures
            (self.is_v6() == other.is_v6() && self.addr_value() == other.addr_value()
                && self.prefix() == other.prefix()) ==> self == other,
    {
    }

    /// Whether two blocks have the same family, address and prefix length.
    pub fn same(&self, other: &Cidr) -> (r: bool)
        ensures
            r == (*self == *other),
    {
        self.v6 == other.v6 && self.addr == other.addr && self.prefix_len == other.prefix_len
    }

    /// The address of the block, as written.
    pub fn addr(&self) -> (r: IpAddress)
        requires
            self.wf(),
        ensures
            r.is_v6() == self.is_v6(),
            r.value() == self.addr_value(),
    {
        proof {
                        lemma_two_pow_values();
        }
        if self.v6 {
            IpAddress::V6(self.addr)
        } else {
            IpAddress::V4(self.addr as u32)
        }
    }

    pub fn is_v6_exec(&self) -> (r: bool)
        ensures
            r == self.is_v6(),
    {
        self.v6
    }

    pub fn prefix_len(&self) -> (r: u8)
        ensures
            r == self.prefix(),
    {
        self.prefix_len
    }

    pub fn max_prefix_len(&self) -> (r: u8)
        ensures
            r == self.max_prefix(),
    {
        if self.v6 {
            128
        } else {
            32
        }
    }

    /// The first address of the block, as a number.
    pub fn network_u128(&self) -> (r: u128)
        requires
            self.wf(),
        ensures
            r == self.network_value(),
            self.network_value() % (self.block_size() as int) == 0,
            self.network_value() + self.block_size() <= two_pow(self.max_prefix()),
            0 <= self.network_value() <= self.addr_value(),
    {
        proof {
                        self.lemma_block_fits();
        }
        let h: u32 = if self.v6 {
            128 - self.prefix_len as u32
        } else {
            32 - self.prefix_len as u32
        };
        if h == 128 {
            0
        } else {
            let m = two_pow_u128(h);
            self.addr - self.addr % m
        }
    }

    /// The last address of the block, as a number.
    pub fn broadcast_u128(&self) -> (r: u128)
        requires
            self.wf(),
        ensures
            r == self.broadcast_value(),
    {
        proof {
                        self.lemma_block_fits();
            lemma_two_pow_values();
        }
        let n = self.network_u128();
        let h: u32 = if self.v6 {
            128 - self.prefix_len as u32
        } else {
            32 - self.prefix_len as u32
        };
        if h == 128 {
            u128::MAX
        } else {
            let m = two_pow_u128(h);
            n + (m - 1)
        }
    }

    /// Whether `ip` is one of the block's addresses.
    pub fn contains(&self, ip: IpAddress) -> (r: bool)
        requires
            self.wf(),
        ensures
            r == self.contains_spec(ip),
    {
        let same_family = match ip {
            IpAddress::V4(_) => !self.v6,
            IpAddress::V6(_) => self.v6,
        };
        if !same_family {
            return false;
        }
        let v = ip.to_u128();
        self.network_u128() <= v && v <= self.broadcast_u128()
    }

    /// The block's network address and everything about its size that the
    /// allocator relies on.
    pub proof fn lemma_block_fits(self)
        requires
            self.wf(),
        ensures
            self.block_size() >= 1,
            self.network_value() % (self.block_size() as int) == 0,
            0 <= self.network_value() <= self.addr_value(),
            self.network_value() + self.block_size() <= two_pow(self.max_prefix()),
            self.host_bits() == 128 ==> self.network_value() == 0,
    {
                let w = self.max_prefix();
        let h = self.host_bits();
        let m = self.block_size() as int;
        let a = self.addr_value();
        lemma_two_pow_pos(h);
        lemma_two_pow_adds(h, (w - h) as nat);
        assert(two_pow(w) == m * two_pow((w - h) as nat));
        let q = a / m;
        let k = two_pow((w - h) as nat) as int;
        assert(a == m * q + a % m) by (nonlinear_arith)
            requires
                m > 0,
                q == a / m,
        ;
        assert(0 <= a % m < m) by (nonlinear_arith)
            requires
                m > 0,
        ;
        assert(self.network_value() == m * q);
        assert(q < k) by (nonlinear_arith)
            requires
                m * q <= a,
                a < m * k,
                m > 0,
        ;
        assert(m * q + m <= m * k) by (nonlinear_arith)
            requires
                q + 1 <= k,
                m > 0,
        ;
        assert((m * q) % m == 0) by (nonlinear_arith)
            requires
                m > 0,
        ;
        if h == 128 {
            assert(w == 128);
            assert(k == 1);
            assert(q == 0);
        }
    }
}

/// The reason the CIDR parser gives for refusing a text.
pub open spec fn net_parse_error_text() -> Seq<char> {
    "invalid IP address syntax"@
}

/// What `<address>/<prefix length>` text denotes: (is IPv6, address,
/// prefix length), or `None` when the text is not such notation.
pub uninterp spec fn parsed_net(s: Seq<char>) -> Option<(bool, u128, u8)>;

/// Parses CIDR notation with `ipnet`.
///
/// Calls `<ipnet::IpNet as FromStr>::from_str`. The result is named
/// `parsed_net` of the text; the contract further claims only what the
/// `ipnet` parser guarantees by construction: an IPv4 block has a 32-bit
/// address and a prefix of at most 32, an IPv6 block a prefix of at most
/// 128. A refusal is `ipnet`'s `AddrParseError`, turned into its text,
/// which its `Display` writes as `invalid IP address syntax`.
#[verifier::external_body]
fn parse_net(s: &str) -> (r: Result<(bool, u128, u8), String>)
    ensures
        match r {
            Ok(x) => parsed_net(s@) == Some(x),
            Err(m) => parsed_net(s@) is None && m@ == "invalid IP address syntax"@,
        },
        r matches Ok((v6, addr, p)) ==> (if v6 {
            p <= 128
        } else {
            p <= 32 && addr < 0x1_0000_0000
        }),
{
    match s.parse::<ipnet::IpNet>() {
        Ok(ipnet::IpNet::V4(n)) => Ok((false, u32::from(n.addr()) as u128, n.prefix_len())),
        Ok(ipnet::IpNet::V6(n)) => Ok((true, u128::from(n.addr()), n.prefix_len())),
        Err(e) => Err(e.to_string()),
    }
}

/// The decimal digit for `d < 10`.
pub open spec fn digit(d: nat) -> char {
    (('0' as nat) + d) as char
}

/// The decimal representation of `n`, without leading zeros.
pub open spec fn decimal(n: nat) -> Seq<char>
    decreases n,
{
    if n < 10 {
        seq![digit(n)]
    } else {
        decimal(n / 10).push(digit(n % 10))
    }
}

/// The text of an IPv6 address as the standard library prints it (RFC 5952
/// form).
pub uninterp spec fn ipv6_text(v: u128) -> Seq<char>;

/// The text of an address: dotted decimal for IPv4, RFC 5952 for IPv6.
pub open spec fn ip_text(ip: IpAddress) -> Seq<char> {
    match ip {
        IpAddress::V4(a) => decimal((a as nat / 0x100_0000) % 256) + seq!['.'] + decimal(
            (a as nat / 0x1_0000) % 256,
        ) + seq!['.'] + decimal((a as nat / 0x100) % 256) + seq!['.'] + decimal(a as nat % 256),
        IpAddress::V6(a) => ipv6_text(a),
    }
}

/// The text of a CIDR block: `<address>/<prefix length>`.
pub open spec fn cidr_text(c: Cidr) -> Seq<char> {
    ip_text(
        if c.is_v6() {
            IpAddress::V6(c.addr_value() as u128)
        } else {
            IpAddress::V4(c.addr_value() as u32)
        },
    ) + seq!['/'] + decimal(c.prefix())
}

/// Appends the decimal digits of `n` to `s`.
fn push_decimal(s: &mut String, n: u128)
    ensures
        final(s)@ == old(s)@ + decimal(n as nat),
    decreases n,
{
    if n >= 10 {
        push_decimal(s, n / 10);
    }
    let d: u8 = (n % 10) as u8;
    let c = ('0' as u8 + d) as char;
    proof {
        assert(c == digit((n % 10) as nat));
    }
    push_char(s, c);
    proof {
        if n >= 10 {
            assert(decimal(n as nat) == decimal((n / 10) as nat).push(digit((n % 10) as nat)));
        } else {
            assert(decimal(n as nat) == seq![digit(n as nat)]);
        }
    }
}

/// Prints a number in decimal, without leading zeros.
pub fn decimal_string(n: u128) -> (r: String)
    ensures
        r@ == decimal(n as nat),
{
    let mut s = String::new();
    push_decimal(&mut s, n);
    proof {
        assert(s@ =~= decimal(n as nat));
    }
    s
}

/// Prints an IPv6 address.
///
/// Builds the single-address `ipnet::Ipv6Net` of the address and prints its
/// address with the standard library's `Display` for IPv6 addresses. The
/// text is named `ipv6_text` of the address.
#[verifier::external_body]
fn ipv6_to_string(a: u128) -> (r: String)
    ensures
        r@ == ipv6_text(a),
{
    ipnet::Ipv6Net::new(a.into(), 128).unwrap().addr().to_string()
}

/// Prints an address: dotted decimal for IPv4, RFC 5952 text for IPv6.
pub fn ip_to_string(ip: IpAddress) -> (r: String)
    ensures
        r@ == ip_text(ip),
{
    match ip {
        IpAddress::V4(a) => {
            let mut r = decimal_string((a / 0x100_0000) as u128 % 256);
            push_char(&mut r, '.');
            let b = decimal_string((a / 0x1_0000) as u128 % 256);
            r.append(b.as_str());
            push_char(&mut r, '.');
            let c = decimal_string((a / 0x100) as u128 % 256);
            r.append(c.as_str());
            push_char(&mut r, '.');
            let d = decimal_string(a as u128 % 256);
            r.append(d.as_str());
            r
        },
        IpAddress::V6(a) => ipv6_to_string(a),
    }
}

/// Prints a CIDR block.
///
/// Calls the `Display` impl of `ipnet::IpNet`, which prints the address,
/// `/` and the prefix length in decimal.
#[verifier::external_body]
pub fn cidr_to_string(c: &Cidr) -> (r: String)
    requires
        c.wf(),
    ensures
        r@ == cidr_text(*c),
{
    let net = if c.v6 {
        ipnet::IpNet::V6(ipnet::Ipv6Net::new(c.addr.into(), c.prefix_len).unwrap())
    } else {
        ipnet::IpNet::V4(ipnet::Ipv4Net::new((c.addr as u32).into(), c.prefix_len).unwrap())
    };
    net.to_string()
}

/// The number decimal digits denote.
pub open spec fn decimal_value(s: Seq<char>) -> int
    decreases s.len(),
{
    if s.len() == 0 {
        0
    } else {
        decimal_value(s.drop_last()) * 10 + ((s.last() as int) - ('0' as int))
    }
}

/// `decimal(n)` is a non-empty run of the digits `0` to `9`, without a
/// leading zero unless `n` is zero, and it denotes `n`.
pub proof fn law_decimal(n: nat)
    ensures
        decimal(n).len() > 0,
        forall|i: int| 0 <= i < decimal(n).len() ==> ('0' as int) <= (#[trigger] decimal(n)[i] as int) <= ('9' as int),
        decimal_value(decimal(n)) == n,
        decimal(n)[0] == '0' ==> n == 0,
    decreases n,
{
    if n < 10 {
        let d = decimal(n);
        assert(d.drop_last() =~= Seq::<char>::empty());
        assert((digit(n) as int) == ('0' as int) + n);
        assert(decimal_value(d) == decimal_value(d.drop_last()) * 10 + ((d.last() as int) - ('0' as int)));
        assert(decimal_value(Seq::<char>::empty()) == 0);
    } else {
        law_decimal(n / 10);
        let p = decimal(n / 10);
        let d = decimal(n);
        assert(d.drop_last() == p);
        assert((d.last() as int) == ('0' as int) + (n % 10) as int);
        assert(n == (n / 10) * 10 + n % 10);
        assert(decimal_value(d) == decimal_value(d.drop_last()) * 10 + ((d.last() as int) - ('0' as int)));
        assert(decimal_value(p) == n / 10);
        assert(d[0] == p[0]);
        assert forall|i: int| 0 <= i < d.len() implies ('0' as int) <= (#[trigger] d[i] as int) <= ('9' as int) by {
            if i < p.len() {
                assert(d[i] == p[i]);
            }
        }
    }
}

} // verus!
