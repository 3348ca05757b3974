//! IP address management: per-family allocators, the owner of every
//! allocated address, and addresses excluded from automatic allocation.
use vstd::prelude::*;
use vstd::string::StringExecFns;

use crate::host_scope::HostScopeAllocator;
use crate::host_scope::host_count;
use crate::ip::{cidr_text, decimal, ip_text, ip_to_string, Cidr, IpAddress};
use crate::loader::{debug_quoted, quoted};
use crate::text::{concat, owned, str_eq};

verus! {

/// The pool every address of the host-scope allocators belongs to.
pub const POOL_DEFAULT: &'static str = "default";

/// Why an address operation was refused.
#[derive(Debug, Clone, PartialEq, Eq)]
pub enum IpamError {
    Ipv4Disabled,
    Ipv6Disabled,
    ExcludedError(String, String),
    PoolRequiredForAllocate(String, String),
    PoolRequiredForRelease(String),
    RangeFull,
    AlreadyAllocated,
    MismatchedNetwork,
    NotInRange { valid_range: String },
    PoolDeterminationUnavailable(String),
}

/// An address family.
#[derive(Debug, Clone, Copy, PartialEq, Eq, Structural)]
pub enum Family {
    Ipv4,
    Ipv6,
}

/// An allocated address and the pool it was allocated from.
#[derive(Debug, Clone, PartialEq, Eq)]
pub struct AllocationResult {
    pub ip: IpAddress,
    pub ip_pool_name: String,
}

/// A key of the owner tables: (pool, address).
pub type OwnerKey = (Seq<char>, IpAddress);

/// A table from (pool, address) to an owner name.
pub struct OwnerTable {
    entries: Vec<(String, IpAddress, String)>,
}

/// The table held by `entries`.
pub open spec fn table_view(entries: Seq<(String, IpAddress, String)>) -> Map<OwnerKey, Seq<char>> {
    Map::new(
        |k: OwnerKey|
            exists|i: int|
                0 <= i < entries.len() && (#[trigger] entries[i]).0@ == k.0 && entries[i].1 == k.1,
        |k: OwnerKey|
            entries[choose|i: int|
                0 <= i < entries.len() && (#[trigger] entries[i]).0@ == k.0 && entries[i].1
                    == k.1].2@,
    )
}

/// No two entries share a key.
pub open spec fn table_wf(entries: Seq<(String, IpAddress, String)>) -> bool {
    forall|i: int, j: int|
        0 <= i < entries.len() && 0 <= j < entries.len() && i != j ==> !(
        #[trigger] entries[i].0@ == #[trigger] entries[j].0@ && entries[i].1 == entries[j].1)
}

proof fn lemma_table_lookup(entries: Seq<(String, IpAddress, String)>, i: int)
    requires
        table_wf(entries),
        0 <= i < entries.len(),
    ensures
        table_view(entries).contains_key((entries[i].0@, entries[i].1)),
        table_view(entries)[(entries[i].0@, entries[i].1)] == entries[i].2@,
{
    let k = (entries[i].0@, entries[i].1);
    assert(entries[i].0@ == k.0 && entries[i].1 == k.1);
    let j = choose|j: int|
        0 <= j < entries.len() && (#[trigger] entries[j]).0@ == k.0 && entries[j].1 == k.1;
    assert(i == j);
}

impl OwnerTable {
    pub closed spec fn view(&self) -> Map<OwnerKey, Seq<char>> {
        table_view(self.entries@)
    }

    pub closed spec fn wf(&self) -> bool {
        table_wf(self.entries@)
    }

    /// An empty table.
    pub fn new() -> (r: Self)
        ensures
            r.wf(),
            r@ == Map::<OwnerKey, Seq<char>>::empty(),
    {
        let r = OwnerTable { entries: Vec::new() };
        assert(r@ =~= Map::<OwnerKey, Seq<char>>::empty());
        r
    }

    fn find(&self, pool: &str, ip: IpAddress) -> (r: Option<usize>)
        requires
            self.wf(),
        ensures
            match r {
                Some(i) => i < self.entries@.len() && self.entries@[i as int].0@ == pool@
                    && self.entries@[i as int].1 == ip,
                None => !self@.contains_key((pool@, ip)),
            },
    {
        let mut i: usize = 0;
        while i < self.entries.len()
            invariant
                i <= self.entries@.len(),
                forall|j: int|
                    0 <= j < i ==> !(#[trigger] self.entries@[j].0@ == pool@
                        && self.entries@[j].1 == ip),
            decreases self.entries@.len() - i,
        {
            if str_eq(self.entries[i].0.as_str(), pool) && self.entries[i].1 == ip {
                return Some(i);
            }
            i = i + 1;
        }
        None
    }

    /// The owner of `ip` in `pool`, if any.
    pub fn get(&self, pool: &str, ip: IpAddress) -> (r: Option<String>)
        requires
            self.wf(),
        ensures
            match r {
                Some(o) => self@.contains_key((pool@, ip)) && o@ == self@[(pool@, ip)],
                None => !self@.contains_key((pool@, ip)),
            },
    {
        match self.find(pool, ip) {
            Some(i) => {
                proof {
                    lemma_table_lookup(self.entries@, i as int);
                }
                Some(owned(self.entries[i].2.as_str()))
            },
            None => None,
        }
    }

    /// Whether some address of `pool` has an owner.
    pub fn has_pool(&self, pool: &str) -> (r: bool)
        requires
            self.wf(),
        ensures
            r == exists|ip: IpAddress| self@.contains_key((pool@, ip)),
    {
        let mut i: usize = 0;
        while i < self.entries.len()
            invariant
                self.wf(),
                i <= self.entries@.len(),
                forall|j: int| 0 <= j < i ==> #[trigger] self.entries@[j].0@ != pool@,
            decreases self.entries@.len() - i,
        {
            if str_eq(self.entries[i].0.as_str(), pool) {
                proof {
                    lemma_table_lookup(self.entries@, i as int);
                    assert(self@.contains_key((pool@, self.entries@[i as int].1)));
                }
                return true;
            }
            i = i + 1;
        }
        proof {
            if exists|ip: IpAddress| self@.contains_key((pool@, ip)) {
                let ip = choose|ip: IpAddress| self@.contains_key((pool@, ip));
                let j = choose|j: int|
                    0 <= j < self.entries@.len() && (#[trigger] self.entries@[j]).0@ == pool@
                        && self.entries@[j].1 == ip;
                assert(self.entries@[j].0@ != pool@);
            }
        }
        false
    }

    /// Records `owner` as the owner of `ip` in `pool`, replacing any
    /// previous owner.
    pub fn set(&mut self, pool: &str, ip: IpAddress, owner: &str)
        requires
            old(self).wf(),
        ensures
            final(self).wf(),
            final(self)@ == old(self)@.insert((pool@, ip), owner@),
    {
        let ghost old_map = self@;
        match self.find(pool, ip) {
            Some(i) => {
                let ghost old_entries = self.entries@;
                self.entries.set(i, (owned(pool), ip, owned(owner)));
                proof {
                    assert forall|a: int, b: int|
                        0 <= a < self.entries@.len() && 0 <= b < self.entries@.len() && a
                            != b implies !(#[trigger] self.entries@[a].0@
                        == #[trigger] self.entries@[b].0@ && self.entries@[a].1
                        == self.entries@[b].1) by {
                        assert(old_entries[i as int].0@ == pool@);
                    }
                    assert forall|k: OwnerKey| #[trigger] self@.contains_key(k) == old_map.insert(
                        (pool@, ip),
                        owner@,
                    ).contains_key(k) by {
                        if self@.contains_key(k) {
                            let j = choose|j: int|
                                0 <= j < self.entries@.len() && (#[trigger] self.entries@[j]).0@
                                    == k.0 && self.entries@[j].1 == k.1;
                            if j != i {
                                assert(old_entries[j] == self.entries@[j]);
                                assert(old_entries[j].0@ == k.0 && old_entries[j].1 == k.1);
                            }
                        }
                        if old_map.contains_key(k) && k != (pool@, ip) {
                            let j = choose|j: int|
                                0 <= j < old_entries.len() && (#[trigger] old_entries[j]).0@ == k.0
                                    && old_entries[j].1 == k.1;
                            assert(j != i);
                            assert(self.entries@[j] == old_entries[j]);
                            assert(self.entries@[j].0@ == k.0 && self.entries@[j].1 == k.1);
                        }
                        if k == (pool@, ip) {
                            assert(self.entries@[i as int].0@ == k.0);
                        }
                    }
                    assert forall|k: OwnerKey| #[trigger] self@.contains_key(k) implies self@[k]
                        == old_map.insert((pool@, ip), owner@)[k] by {
                        let j = choose|j: int|
                            0 <= j < self.entries@.len() && (#[trigger] self.entries@[j]).0@
                                == k.0 && self.entries@[j].1 == k.1;
                        lemma_table_lookup(self.entries@, j);
                        if j != i {
                            assert(old_entries[j] == self.entries@[j]);
                            lemma_table_lookup(old_entries, j);
                        }
                    }
                    assert(self@ =~= old_map.insert((pool@, ip), owner@));
                }
            },
            None => {
                let ghost old_entries = self.entries@;
                self.entries.push((owned(pool), ip, owned(owner)));
                proof {
                    let n = old_entries.len() as int;
                    assert forall|a: int, b: int|
                        0 <= a < self.entries@.len() && 0 <= b < self.entries@.len() && a
                            != b implies !(#[trigger] self.entries@[a].0@
                        == #[trigger] self.entries@[b].0@ && self.entries@[a].1
                        == self.entries@[b].1) by {
                        if a == n || b == n {
                            let o = if a == n {
                                b
                            } else {
                                a
                            };
                            if self.entries@[o].0@ == pool@ && self.entries@[o].1 == ip {
                                assert(old_entries[o].0@ == pool@ && old_entries[o].1 == ip);
                                lemma_table_lookup(old_entries, o);
                            }
                        }
                    }
                    assert forall|k: OwnerKey| #[trigger] self@.contains_key(k) == old_map.insert(
                        (pool@, ip),
                        owner@,
                    ).contains_key(k) by {
                        if self@.contains_key(k) && k != (pool@, ip) {
                            let j = choose|j: int|
                                0 <= j < self.entries@.len() && (#[trigger] self.entries@[j]).0@
                                    == k.0 && self.entries@[j].1 == k.1;
                            assert(j != n);
                            assert(old_entries[j] == self.entries@[j]);
                            assert(old_entries[j].0@ == k.0 && old_entries[j].1 == k.1);
                        }
                        if old_map.contains_key(k) {
                            let j = choose|j: int|
                                0 <= j < old_entries.len() && (#[trigger] old_entries[j]).0@ == k.0
                                    && old_entries[j].1 == k.1;
                            assert(self.entries@[j] == old_entries[j]);
                            assert(self.entries@[j].0@ == k.0 && self.entries@[j].1 == k.1);
                        }
                        if k == (pool@, ip) {
                            assert(self.entries@[n].0@ == k.0 && self.entries@[n].1 == k.1);
                        }
                    }
                    assert forall|k: OwnerKey| #[trigger] self@.contains_key(k) implies self@[k]
                        == old_map.insert((pool@, ip), owner@)[k] by {
                        let j = choose|j: int|
                            0 <= j < self.entries@.len() && (#[trigger] self.entries@[j]).0@
                                == k.0 && self.entries@[j].1 == k.1;
                        lemma_table_lookup(self.entries@, j);
                        if j != n {
                            assert(old_entries[j] == self.entries@[j]);
                            lemma_table_lookup(old_entries, j);
                        }
                    }
                    assert(self@ =~= old_map.insert((pool@, ip), owner@));
                }
            },
        }
    }

    /// Drops the owner of `ip` in `pool` and returns it, or the empty
    /// string when there was none.
    pub fn remove(&mut self, pool: &str, ip: IpAddress) -> (r: String)
        requires
            old(self).wf(),
        ensures
            final(self).wf(),
            final(self)@ == old(self)@.remove((pool@, ip)),
            r@ == if old(self)@.contains_key((pool@, ip)) {
                old(self)@[(pool@, ip)]
            } else {
                Seq::<char>::empty()
            },
    {
        let ghost old_map = self@;
        match self.find(pool, ip) {
            None => {
                assert(self@ =~= old_map.remove((pool@, ip)));
                String::new()
            },
            Some(i) => {
                proof {
                    lemma_table_lookup(self.entries@, i as int);
                }
                let ghost old_entries = self.entries@;
                let (_, _, owner) = self.entries.remove(i);
                proof {
                    assert forall|a: int, b: int|
                        0 <= a < self.entries@.len() && 0 <= b < self.entries@.len() && a
                            != b implies !(#[trigger] self.entries@[a].0@
                        == #[trigger] self.entries@[b].0@ && self.entries@[a].1
                        == self.entries@[b].1) by {
                        let a2 = if a < i {
                            a
                        } else {
                            a + 1
                        };
                        let b2 = if b < i {
                            b
                        } else {
                            b + 1
                        };
                        assert(self.entries@[a] == old_entries[a2]);
                        assert(self.entries@[b] == old_entries[b2]);
                    }
                                        assert forall|k: OwnerKey| #[trigger] self@.contains_key(k) == old_map.remove(
                        (pool@, ip),
                    ).contains_key(k) by {
                        if self@.contains_key(k) {
                            let j = choose|j: int|
                                0 <= j < self.entries@.len() && (#[trigger] self.entries@[j]).0@
                                    == k.0 && self.entries@[j].1 == k.1;
                            let j2 = if j < i {
                                j
                            } else {
                                j + 1
                            };
                            assert(self.entries@[j] == old_entries[j2]);
                            assert(old_entries[j2].0@ == k.0 && old_entries[j2].1 == k.1);
                            assert(j2 != i);
                            if k == (pool@, ip) {
                                assert(old_entries[i as int].0@ == k.0);
                            }
                        }
                        if old_map.contains_key(k) && k != (pool@, ip) {
                            let j = choose|j: int|
                                0 <= j < old_entries.len() && (#[trigger] old_entries[j]).0@ == k.0
                                    && old_entries[j].1 == k.1;
                            assert(j != i);
                            let j1 = if j < i {
                                j
                            } else {
                                j - 1
                            };
                            assert(self.entries@[j1] == old_entries[j]);
                            assert(self.entries@[j1].0@ == k.0 && self.entries@[j1].1 == k.1);
                        }
                    }
                    assert forall|k: OwnerKey| #[trigger] self@.contains_key(k) implies self@[k]
                        == old_map.remove((pool@, ip))[k] by {
                        let j = choose|j: int|
                            0 <= j < self.entries@.len() && (#[trigger] self.entries@[j]).0@
                                == k.0 && self.entries@[j].1 == k.1;
                        lemma_table_lookup(self.entries@, j);
                        let j2 = if j < i {
                            j
                        } else {
                            j + 1
                        };
                        assert(self.entries@[j] == old_entries[j2]);
                        lemma_table_lookup(old_entries, j2);
                    }
                    assert(self@ =~= old_map.remove((pool@, ip)));
                }
                owner
            },
        }
    }
}


/// The message of an IPAM error.
pub open spec fn ipam_error_text(e: IpamError) -> Seq<char> {
    match e {
        IpamError::Ipv4Disabled => "IPv4 is disabled"@,
        IpamError::Ipv6Disabled => "IPv6 is disabled"@,
        IpamError::ExcludedError(ip, owner) => "IP "@ + ip@ + " is excluded, owned by "@ + owner@,
        IpamError::PoolRequiredForAllocate(ip, owner) => "unable to restore IP "@ + ip@ + " for "@
            + debug_quoted(owner@) + ": pool name must be provided"@,
        IpamError::PoolRequiredForRelease(ip) => "no IPAM pool provided for IP release of "@ + ip@,
        IpamError::RangeFull => "range is full"@,
        IpamError::AlreadyAllocated => "provided IP is already allocated"@,
        IpamError::MismatchedNetwork => "the provided network does not match the current range"@,
        IpamError::NotInRange { valid_range } =>
            "provided IP is not in the valid range. The range of valid IPs is "@ + valid_range@,
        IpamError::PoolDeterminationUnavailable(owner) => "unable to determine IPAM pool for owner "@
            + debug_quoted(owner@) + ": automatic pool determination is not implemented"@,
    }
}

impl IpamError {
    /// The error's message.
    pub fn message(&self) -> (r: String)
        ensures
            r@ == ipam_error_text(*self),
    {
        match self {
            IpamError::Ipv4Disabled => owned("IPv4 is disabled"),
            IpamError::Ipv6Disabled => owned("IPv6 is disabled"),
            IpamError::ExcludedError(ip, owner) => {
                let r = concat("IP ", ip.as_str());
                let r = concat(r.as_str(), " is excluded, owned by ");
                concat(r.as_str(), owner.as_str())
            },
            IpamError::PoolRequiredForAllocate(ip, owner) => {
                let r = concat("unable to restore IP ", ip.as_str());
                let r = concat(r.as_str(), " for ");
                let q = quoted(owner.as_str());
                let r = concat(r.as_str(), q.as_str());
                concat(r.as_str(), ": pool name must be provided")
            },
            IpamError::PoolRequiredForRelease(ip) => concat(
                "no IPAM pool provided for IP release of ",
                ip.as_str(),
            ),
            IpamError::RangeFull => owned("range is full"),
            IpamError::AlreadyAllocated => owned("provided IP is already allocated"),
            IpamError::MismatchedNetwork => owned(
                "the provided network does not match the current range",
            ),
            IpamError::NotInRange { valid_range } => concat(
                "provided IP is not in the valid range. The range of valid IPs is ",
                valid_range.as_str(),
            ),
            IpamError::PoolDeterminationUnavailable(owner) => {
                let q = quoted(owner.as_str());
                let r = concat("unable to determine IPAM pool for owner ", q.as_str());
                concat(r.as_str(), ": automatic pool determination is not implemented")
            },
        }
    }
}

} // verus!

verus! {

/// Whether two optional allocators have the same block, range and
/// allocated offsets.
pub open spec fn same_alloc(a: Option<HostScopeAllocator>, b: Option<HostScopeAllocator>) -> bool {
    match (a, b) {
        (None, None) => true,
        (Some(x), Some(y)) => x.net() == y.net() && x.base() == y.base() && x.max() == y.max()
            && x.allocated() == y.allocated(),
        _ => false,
    }
}

/// Whether `b` is `a` with its allocated offsets replaced by `s`.
pub open spec fn alloc_with(a: Option<HostScopeAllocator>, b: Option<HostScopeAllocator>, s: Set<int>) -> bool {
    match (a, b) {
        (Some(x), Some(y)) => x.net() == y.net() && x.base() == y.base() && x.max() == y.max()
            && y.allocated() == s,
        _ => false,
    }
}

proof fn lemma_with_owner_none(owners: Map<OwnerKey, Seq<char>>, pool: Seq<char>, owner: Seq<char>)
    ensures
        with_owner(owners, pool, Set::<IpAddress>::empty(), owner) == owners,
{
    assert(with_owner(owners, pool, Set::<IpAddress>::empty(), owner) =~= owners);
}

proof fn lemma_with_owner_insert(
    owners: Map<OwnerKey, Seq<char>>,
    pool: Seq<char>,
    ips: Set<IpAddress>,
    owner: Seq<char>,
    k: OwnerKey,
    v: Seq<char>,
)
    requires
        !(k.0 == pool && ips.contains(k.1)),
    ensures
        with_owner(owners.insert(k, v), pool, ips, owner) == with_owner(owners, pool, ips, owner).insert(k, v),
{
    assert(with_owner(owners.insert(k, v), pool, ips, owner) =~= with_owner(owners, pool, ips, owner).insert(k, v));
}

/// The family of an address.
pub open spec fn family_of(ip: IpAddress) -> Family {
    match ip {
        IpAddress::V4(_) => Family::Ipv4,
        IpAddress::V6(_) => Family::Ipv6,
    }
}

/// The error for an unconfigured family.
pub open spec fn disabled_error(f: Family) -> IpamError {
    match f {
        Family::Ipv4 => IpamError::Ipv4Disabled,
        Family::Ipv6 => IpamError::Ipv6Disabled,
    }
}

/// `owners` with `owner` recorded in `pool` for every address in `ips`.
pub open spec fn with_owner(
    owners: Map<OwnerKey, Seq<char>>,
    pool: Seq<char>,
    ips: Set<IpAddress>,
    owner: Seq<char>,
) -> Map<OwnerKey, Seq<char>> {
    Map::new(
        |k: OwnerKey| owners.contains_key(k) || (k.0 == pool && ips.contains(k.1)),
        |k: OwnerKey|
            if k.0 == pool && ips.contains(k.1) {
                owner
            } else {
                owners[k]
            },
    )
}

/// The address management service: an allocator per configured family,
/// the owner of every address handed out, and excluded addresses, each
/// keyed by (pool, address).
pub struct DefaultIpamService {
    ipv4_allocator: Option<HostScopeAllocator>,
    ipv6_allocator: Option<HostScopeAllocator>,
    owner: OwnerTable,
    excluded_ips: OwnerTable,
    gateway_ip: IpAddress,
}

impl DefaultIpamService {
    pub closed spec fn v4(self) -> Option<HostScopeAllocator> {
        self.ipv4_allocator
    }

    pub closed spec fn v6(self) -> Option<HostScopeAllocator> {
        self.ipv6_allocator
    }

    /// The allocator of a family.
    pub open spec fn alloc_of(self, f: Family) -> Option<HostScopeAllocator> {
        match f {
            Family::Ipv4 => self.v4(),
            Family::Ipv6 => self.v6(),
        }
    }

    /// Owner of each (pool, address).
    pub closed spec fn owners(self) -> Map<OwnerKey, Seq<char>> {
        self.owner@
    }

    /// Excluded (pool, address) pairs, with the owner each is reserved for.
    pub closed spec fn excluded(self) -> Map<OwnerKey, Seq<char>> {
        self.excluded_ips@
    }

    pub closed spec fn gateway(self) -> IpAddress {
        self.gateway_ip
    }

    pub closed spec fn wf(self) -> bool {
        &&& self.owner.wf()
        &&& self.excluded_ips.wf()
        &&& (self.ipv4_allocator matches Some(a) ==> a.wf())
        &&& (self.ipv6_allocator matches Some(a) ==> a.wf())
    }

    /// The allocators of a well-formed service are well-formed.
    pub proof fn lemma_wf_allocators(self)
        requires
            self.wf(),
        ensures
            self.v4() matches Some(a) ==> a.wf(),
            self.v6() matches Some(b) ==> b.wf(),
    {
    }

    /// Nothing observable changed.
    pub open spec fn unchanged(self, other: Self) -> bool {
        &&& same_alloc(self.v4(), other.v4())
        &&& same_alloc(self.v6(), other.v6())
        &&& self.owners() == other.owners()
        &&& self.excluded() == other.excluded()
        &&& self.gateway() == other.gateway()
    }

    /// Some address of the family's block that is free and not excluded in
    /// `pool`.
    pub open spec fn has_usable(self, f: Family, pool: Seq<char>) -> bool {
        self.alloc_of(f) matches Some(a) && exists|o: int|
            0 <= o < a.max() && !a.allocated().contains(o) && !self.excluded().contains_key(
                (pool, #[trigger] a.ip_at(o)),
            )
    }

    /// A service with the given gateway address and, per family, the block
    /// to allocate from (`None`: the family is disabled).
    pub fn new(gateway_ip: IpAddress, ipv4: Option<Cidr>, ipv6: Option<Cidr>) -> (r: Self)
        requires
            ipv4 matches Some(c) ==> c.wf(),
            ipv6 matches Some(c) ==> c.wf(),
        ensures
            r.wf(),
            r.gateway() == gateway_ip,
            match (ipv4, r.v4()) {
                (None, None) => true,
                (Some(c), Some(a)) => a.net() == c && a.allocated() == Set::<int>::empty(),
                _ => false,
            },
            match (ipv6, r.v6()) {
                (None, None) => true,
                (Some(c), Some(a)) => a.net() == c && a.allocated() == Set::<int>::empty(),
                _ => false,
            },
            r.owners() == Map::<OwnerKey, Seq<char>>::empty(),
            r.excluded() == Map::<OwnerKey, Seq<char>>::empty(),
    {
        let ipv4_allocator = match ipv4 {
            Some(c) => Some(HostScopeAllocator::new(c)),
            None => None,
        };
        let ipv6_allocator = match ipv6 {
            Some(c) => Some(HostScopeAllocator::new(c)),
            None => None,
        };
        DefaultIpamService {
            ipv4_allocator,
            ipv6_allocator,
            owner: OwnerTable::new(),
            excluded_ips: OwnerTable::new(),
            gateway_ip,
        }
    }

    /// Excludes `ip` in `pool` from allocation, reserving it for `owner`.
    pub fn exclude_ip(&mut self, ip: IpAddress, owner: &str, pool: &str)
        requires
            old(self).wf(),
        ensures
            final(self).wf(),
            final(self).excluded() == old(self).excluded().insert((pool@, ip), owner@),
            same_alloc(final(self).v4(), old(self).v4()),
            same_alloc(final(self).v6(), old(self).v6()),
            final(self).owners() == old(self).owners(),
            final(self).gateway() == old(self).gateway(),
    {
        self.excluded_ips.set(pool, ip, owner);
    }

    /// Records `owner` as the owner of `ip` in `pool`.
    pub fn register_ip_owner(&mut self, ip: IpAddress, owner: &str, pool: &str)
        requires
            old(self).wf(),
        ensures
            final(self).wf(),
            final(self).owners() == old(self).owners().insert((pool@, ip), owner@),
            same_alloc(final(self).v4(), old(self).v4()),
            same_alloc(final(self).v6(), old(self).v6()),
            final(self).excluded() == old(self).excluded(),
            final(self).gateway() == old(self).gateway(),
    {
        self.owner.set(pool, ip, owner);
    }

    /// The owner of `ip` in `pool`, or the empty string.
    pub fn get_ip_owner(&self, ip: IpAddress, pool: &str) -> (r: String)
        requires
            self.wf(),
        ensures
            r@ == if self.owners().contains_key((pool@, ip)) {
                self.owners()[(pool@, ip)]
            } else {
                Seq::<char>::empty()
            },
    {
        match self.owner.get(pool, ip) {
            Some(o) => o,
            None => String::new(),
        }
    }

    /// Forgets the owner of `ip` in `pool` and returns it (empty when there
    /// was none).
    pub fn release_ip_owner(&mut self, ip: IpAddress, pool: &str) -> (r: String)
        requires
            old(self).wf(),
        ensures
            final(self).wf(),
            final(self).owners() == old(self).owners().remove((pool@, ip)),
            r@ == if old(self).owners().contains_key((pool@, ip)) {
                old(self).owners()[(pool@, ip)]
            } else {
                Seq::<char>::empty()
            },
            same_alloc(final(self).v4(), old(self).v4()),
            same_alloc(final(self).v6(), old(self).v6()),
            final(self).excluded() == old(self).excluded(),
            final(self).gateway() == old(self).gateway(),
    {
        self.owner.remove(pool, ip)
    }

    /// Whether any address of `pool` has an owner.
    pub fn has_pool(&self, pool: &str) -> (r: bool)
        requires
            self.wf(),
        ensures
            r == exists|ip: IpAddress| self.owners().contains_key((pool@, ip)),
    {
        let r = self.owner.has_pool(pool);
        proof {
            if r {
                let ip = choose|ip: IpAddress| self.owner@.contains_key((pool@, ip));
                assert(self.owners().contains_key((pool@, ip)));
            } else {
                assert forall|ip: IpAddress| !self.owners().contains_key((pool@, ip)) by {
                    assert(!self.owner@.contains_key((pool@, ip)));
                }
            }
        }
        r
    }

    /// Frees `ip` in its family's allocator and forgets its owner in
    /// `pool`; `Ipv4Disabled`/`Ipv6Disabled` when the family is not
    /// configured.
    pub fn release_ip_locked(&mut self, ip: IpAddress, pool: &str) -> (r: Result<(), IpamError>)
        requires
            old(self).wf(),
        ensures
            final(self).wf(),
            final(self).gateway() == old(self).gateway(),
            final(self).excluded() == old(self).excluded(),
            match old(self).alloc_of(family_of(ip)) {
                None => r == Err::<(), IpamError>(disabled_error(family_of(ip))) && final(self).unchanged(*old(self)),
                Some(a) => {
                    &&& r is Ok
                    &&& alloc_with(
                        old(self).alloc_of(family_of(ip)),
                        final(self).alloc_of(family_of(ip)),
                        match a.offset_of(ip) {
                            Some(o) => a.allocated().remove(o),
                            None => a.allocated(),
                        },
                    )
                    &&& same_alloc(
                        final(self).alloc_of(other_family(family_of(ip))),
                        old(self).alloc_of(other_family(family_of(ip))),
                    )
                    &&& final(self).owners() == old(self).owners().remove((pool@, ip))
                },
            },
    {
        match ip {
            IpAddress::V4(_) => match &mut self.ipv4_allocator {
                Some(a) => a.release(ip),
                None => return Err(IpamError::Ipv4Disabled),
            },
            IpAddress::V6(_) => match &mut self.ipv6_allocator {
                Some(a) => a.release(ip),
                None => return Err(IpamError::Ipv6Disabled),
            },
        }
        let _owner = self.release_ip_owner(ip, pool);
        Ok(())
    }

    /// Releases `ip` from `pool`; the pool name must not be empty.
    pub fn release_ip(&mut self, ip: IpAddress, pool: &str) -> (r: Result<(), IpamError>)
        requires
            old(self).wf(),
        ensures
            final(self).wf(),
            final(self).gateway() == old(self).gateway(),
            final(self).excluded() == old(self).excluded(),
            pool@.len() == 0 ==> (r matches Err(IpamError::PoolRequiredForRelease(s)) && s@
                == ip_text(ip)) && final(self).unchanged(*old(self)),
            pool@.len() > 0 ==> match old(self).alloc_of(family_of(ip)) {
                None => r == Err::<(), IpamError>(disabled_error(family_of(ip))) && final(self).unchanged(*old(self)),
                Some(a) => {
                    &&& r is Ok
                    &&& alloc_with(
                        old(self).alloc_of(family_of(ip)),
                        final(self).alloc_of(family_of(ip)),
                        match a.offset_of(ip) {
                            Some(o) => a.allocated().remove(o),
                            None => a.allocated(),
                        },
                    )
                    &&& same_alloc(
                        final(self).alloc_of(other_family(family_of(ip))),
                        old(self).alloc_of(other_family(family_of(ip))),
                    )
                    &&& final(self).owners() == old(self).owners().remove((pool@, ip))
                },
            },
    {
        if pool.is_empty() {
            return Err(IpamError::PoolRequiredForRelease(ip_to_string(ip)));
        }
        self.release_ip_locked(ip, pool)
    }

    /// Allocates the specific address `ip` to `owner` in `pool`.
    pub fn allocate_ip(&mut self, ip: IpAddress, owner: &str, pool: &str) -> (r: Result<
        AllocationResult,
        IpamError,
    >)
        requires
            old(self).wf(),
        ensures
            final(self).wf(),
            final(self).gateway() == old(self).gateway(),
            final(self).excluded() == old(self).excluded(),
            same_alloc(
                final(self).alloc_of(other_family(family_of(ip))),
                old(self).alloc_of(other_family(family_of(ip))),
            ),
            if pool@.len() == 0 {
                &&& r matches Err(IpamError::PoolRequiredForAllocate(a, b)) && a@ == ip_text(ip)
                    && b@ == owner@
                &&& final(self).unchanged(*old(self))
            } else if old(self).excluded().contains_key((pool@, ip)) {
                &&& r matches Err(IpamError::ExcludedError(a, b)) && a@ == ip_text(ip) && b@
                    == old(self).excluded()[(pool@, ip)]
                &&& final(self).unchanged(*old(self))
            } else {
                match old(self).alloc_of(family_of(ip)) {
                    None => r == Err::<AllocationResult, IpamError>(
                        disabled_error(family_of(ip)),
                    ) && final(self).unchanged(*old(self)),
                    Some(a) => match a.offset_of(ip) {
                        None => {
                            &&& r matches Err(IpamError::NotInRange { valid_range })
                                && valid_range@ == cidr_text(a.net())
                            &&& final(self).unchanged(*old(self))
                        },
                        Some(o) => if a.allocated().contains(o) {
                            &&& r == Err::<AllocationResult, IpamError>(
                                IpamError::AlreadyAllocated,
                            )
                            &&& final(self).unchanged(*old(self))
                        } else {
                            &&& r matches Ok(res) && res.ip == ip && res.ip_pool_name@
                                == POOL_DEFAULT@
                            &&& alloc_with(
                                old(self).alloc_of(family_of(ip)),
                                final(self).alloc_of(family_of(ip)),
                                a.allocated().insert(o),
                            )
                            &&& final(self).owners() == old(self).owners().insert(
                                (pool@, ip),
                                owner@,
                            )
                        },
                    },
                }
            },
    {
        if pool.is_empty() {
            return Err(IpamError::PoolRequiredForAllocate(ip_to_string(ip), owned(owner)));
        }
        if let Some(owned_by) = self.excluded_ips.get(pool, ip) {
            return Err(IpamError::ExcludedError(ip_to_string(ip), owned_by));
        }
        let allocated = match ip {
            IpAddress::V4(_) => match &mut self.ipv4_allocator {
                Some(a) => a.allocate(ip),
                None => return Err(IpamError::Ipv4Disabled),
            },
            IpAddress::V6(_) => match &mut self.ipv6_allocator {
                Some(a) => a.allocate(ip),
                None => return Err(IpamError::Ipv6Disabled),
            },
        };
        let ip = match allocated {
            Ok(ip) => ip,
            Err(e) => return Err(e),
        };
        self.register_ip_owner(ip, owner, pool);
        Ok(AllocationResult { ip, ip_pool_name: owned(POOL_DEFAULT) })
    }
}

impl DefaultIpamService {
    /// `e` is a finite set of offsets of the family's block that are free
    /// and whose addresses are excluded in `pool`.
    pub open spec fn consumed_excluded(self, f: Family, pool: Seq<char>, e: Set<int>) -> bool {
        &&& self.alloc_of(f) matches Some(a)
        &&& e.finite()
        &&& forall|o: int|
            #[trigger] e.contains(o) ==> 0 <= o < a.max() && !a.allocated().contains(o)
                && self.excluded().contains_key((pool, a.ip_at(o)))
    }

    /// The addresses at the offsets `e` of the family's block.
    pub open spec fn ips_at(self, f: Family, e: Set<int>) -> Set<IpAddress> {
        Set::new(
            |x: IpAddress| exists|o: int| #[trigger] e.contains(o) && x == self.alloc_of(f)->Some_0.ip_at(o),
        )
    }

    spec fn remaining(self, f: Family) -> int {
        match self.alloc_of(f) {
            Some(a) => a.max() - a.allocated().len(),
            None => 0,
        }
    }

    /// Allocates the next address of a family to `owner` in `pool`.
    /// Addresses that come up but are excluded in `pool` are taken out of
    /// circulation (allocated, and owned by `<owner> (excluded)`) and the
    /// search goes on; `RangeFull` when no free, non-excluded address is
    /// left.
    pub fn allocate_next_family(&mut self, family: Family, owner: &str, pool: &str) -> (r: Result<
        AllocationResult,
        IpamError,
    >)
        requires
            old(self).wf(),
        ensures
            final(self).wf(),
            final(self).gateway() == old(self).gateway(),
            final(self).excluded() == old(self).excluded(),
            same_alloc(final(self).alloc_of(other_family(family)), old(self).alloc_of(other_family(family))),
            pool@.len() == 0 ==> (r matches Err(IpamError::PoolDeterminationUnavailable(o))
                && o@ == owner@) && final(self).unchanged(*old(self)),
            pool@.len() > 0 && old(self).alloc_of(family) is None ==> r == Err::<
                AllocationResult,
                IpamError,
            >(disabled_error(family)) && final(self).unchanged(*old(self)),
            pool@.len() > 0 && old(self).alloc_of(family) is Some ==> {
                let a = old(self).alloc_of(family)->Some_0;
                let excl = owner@ + " (excluded)"@;
                &&& (r is Ok <==> old(self).has_usable(family, pool@))
                &&& r is Err ==> r == Err::<AllocationResult, IpamError>(IpamError::RangeFull)
                &&& r matches Ok(res) ==> exists|e: Set<int>, o: int|
                    #![trigger old(self).consumed_excluded(family, pool@, e), a.ip_at(o)]
                    {
                        &&& old(self).consumed_excluded(family, pool@, e)
                        &&& 0 <= o < a.max()
                        &&& !a.allocated().contains(o)
                        &&& !e.contains(o)
                        &&& !old(self).excluded().contains_key((pool@, a.ip_at(o)))
                        &&& res.ip == a.ip_at(o)
                        &&& res.ip_pool_name@ == POOL_DEFAULT@
                        &&& alloc_with(
                            old(self).alloc_of(family),
                            final(self).alloc_of(family),
                            a.allocated() + e + set![o],
                        )
                        &&& final(self).owners() == with_owner(
                            old(self).owners(),
                            pool@,
                            old(self).ips_at(family, e),
                            excl,
                        ).insert((pool@, res.ip), owner@)
                    }
                &&& r is Err ==> exists|e: Set<int>|
                    #![trigger old(self).consumed_excluded(family, pool@, e)]
                    {
                        &&& old(self).consumed_excluded(family, pool@, e)
                        &&& alloc_with(
                            old(self).alloc_of(family),
                            final(self).alloc_of(family),
                            a.allocated() + e,
                        )
                        &&& forall|o: int| 0 <= o < a.max() ==> #[trigger] (a.allocated() + e).contains(o)
                        &&& final(self).owners() == with_owner(
                            old(self).owners(),
                            pool@,
                            old(self).ips_at(family, e),
                            excl,
                        )
                    }
            },
    {
        if pool.is_empty() {
            return Err(IpamError::PoolDeterminationUnavailable(owned(owner)));
        }
        let configured = match family {
            Family::Ipv4 => self.ipv4_allocator.is_some(),
            Family::Ipv6 => self.ipv6_allocator.is_some(),
        };
        if !configured {
            return match family {
                Family::Ipv4 => Err(IpamError::Ipv4Disabled),
                Family::Ipv6 => Err(IpamError::Ipv6Disabled),
            };
        }
        let excl_owner = concat(owner, " (excluded)");
        let ghost s0 = *self;
        let ghost a0 = s0.alloc_of(family)->Some_0;
        let ghost mut e: Set<int> = Set::empty();
        proof {
            assert(s0.ips_at(family, e) =~= Set::<IpAddress>::empty());
            assert(with_owner(s0.owners(), pool@, Set::<IpAddress>::empty(), excl_owner@) =~= s0.owners());
            assert(a0.allocated() + e =~= a0.allocated());
            a0.lemma_allocated_bounded();
        }
        loop
            invariant
                self.wf(),
                pool@.len() > 0,
                excl_owner@ == owner@ + " (excluded)"@,
                s0.wf(),
                s0 == *old(self),
                s0.alloc_of(family) == Some(a0),
                a0.wf(),
                s0.consumed_excluded(family, pool@, e),
                alloc_with(s0.alloc_of(family), self.alloc_of(family), a0.allocated() + e),
                same_alloc(self.alloc_of(other_family(family)), s0.alloc_of(other_family(family))),
                self.excluded() == s0.excluded(),
                self.gateway() == s0.gateway(),
                self.owners() == with_owner(s0.owners(), pool@, s0.ips_at(family, e), excl_owner@),
            decreases self.remaining(family),
        {
            let ghost before = self.alloc_of(family)->Some_0;
            proof {
                before.lemma_allocated_bounded();
            }
            let got = match family {
                Family::Ipv4 => match &mut self.ipv4_allocator {
                    Some(a) => a.allocate_next(),
                    None => return Err(IpamError::Ipv4Disabled),
                },
                Family::Ipv6 => match &mut self.ipv6_allocator {
                    Some(a) => a.allocate_next(),
                    None => return Err(IpamError::Ipv6Disabled),
                },
            };
            let ghost after = self.alloc_of(family)->Some_0;
            let ip = match got {
                Ok(ip) => ip,
                Err(err) => {
                    proof {
                        before.lemma_full(a0.allocated() + e);
                        assert forall|o: int|
                            0 <= o < a0.max() && !a0.allocated().contains(o) implies s0.excluded().contains_key(
                            (pool@, #[trigger] a0.ip_at(o)),
                        ) by {
                            assert((a0.allocated() + e).contains(o));
                            assert(e.contains(o));
                        }
                        assert(!s0.has_usable(family, pool@));
                        assert(s0.consumed_excluded(family, pool@, e));
                    }
                    return Err(err);
                },
            };
            let ghost o = choose|o: int|
                0 <= o < before.max() && !before.allocated().contains(o) && ip
                    == #[trigger] before.ip_at(o) && after.allocated() == before.allocated().insert(
                    o,
                );
            proof {
                assert(before.ip_at(o) == a0.ip_at(o));
                assert(!a0.allocated().contains(o) && !e.contains(o));
                after.lemma_allocated_bounded();
            }
            if self.excluded_ips.get(pool, ip).is_none() {
                self.register_ip_owner(ip, owner, pool);
                proof {
                    assert(after.allocated() =~= a0.allocated() + e + set![o]);
                    assert(s0.has_usable(family, pool@));
                    assert(s0.consumed_excluded(family, pool@, e));
                }
                return Ok(AllocationResult { ip, ip_pool_name: owned(POOL_DEFAULT) });
            }
            self.register_ip_owner(ip, excl_owner.as_str(), pool);
            proof {
                let e2 = e.insert(o);
                assert(s0.consumed_excluded(family, pool@, e2));
                assert(after.allocated() =~= a0.allocated() + e2);
                assert forall|x: IpAddress| #[trigger] s0.ips_at(family, e2).contains(x) == s0.ips_at(
                    family,
                    e,
                ).insert(a0.ip_at(o)).contains(x) by {
                    if s0.ips_at(family, e2).contains(x) {
                        let w = choose|w: int| #[trigger] e2.contains(w) && x == a0.ip_at(w);
                        if w != o {
                            assert(e.contains(w));
                        }
                    }
                    if s0.ips_at(family, e).contains(x) {
                        let w = choose|w: int| #[trigger] e.contains(w) && x == a0.ip_at(w);
                        assert(e2.contains(w));
                    }
                    if x == a0.ip_at(o) {
                        assert(e2.contains(o));
                    }
                }
                assert(s0.ips_at(family, e2) =~= s0.ips_at(family, e).insert(a0.ip_at(o)));
                assert(self.owners() =~= with_owner(
                    s0.owners(),
                    pool@,
                    s0.ips_at(family, e2),
                    excl_owner@,
                ));
                e = e2;
            }
        }
    }
}

impl DefaultIpamService {
    /// Whether `family` (all families when `None`) asks for `f`.
    pub open spec fn wants(family: Option<Family>, f: Family) -> bool {
        family is None || family == Some(f)
    }

    /// Whether the family is asked for and configured.
    pub open spec fn needs(self, family: Option<Family>, f: Family) -> bool {
        Self::wants(family, f) && self.alloc_of(f) is Some
    }

    /// `res` is a fresh, non-excluded address of the family's block, now
    /// allocated in `after`.
    pub open spec fn handed_out(self, after: Self, f: Family, pool: Seq<char>, res: AllocationResult) -> bool {
        &&& res.ip_pool_name@ == POOL_DEFAULT@
        &&& self.alloc_of(f) matches Some(a)
        &&& after.alloc_of(f) matches Some(b)
        &&& exists|o: int|
            0 <= o < a.max() && !a.allocated().contains(o) && !self.excluded().contains_key(
                (pool, #[trigger] a.ip_at(o)),
            ) && res.ip == a.ip_at(o) && b.allocated().contains(o)
    }

    /// `after`'s allocator of `f` is `self`'s, apart from free addresses
    /// excluded in `pool` that were taken out of circulation: no address of
    /// the family is left handed out.
    pub open spec fn only_excluded_taken(self, after: Self, f: Family, pool: Seq<char>) -> bool {
        match self.alloc_of(f) {
            None => after.alloc_of(f) is None,
            Some(a) => exists|e: Set<int>|
                #[trigger] self.consumed_excluded(f, pool, e) && alloc_with(
                    self.alloc_of(f),
                    after.alloc_of(f),
                    a.allocated() + e,
                ),
        }
    }

    /// The IPv4 allocator holds IPv4 blocks and the IPv6 allocator IPv6
    /// blocks.
    pub open spec fn families_match(self) -> bool {
        &&& (self.v4() matches Some(a) ==> !a.net().is_v6())
        &&& (self.v6() matches Some(b) ==> b.net().is_v6())
    }

    /// `after`'s allocator of `f` is `self`'s with the free, excluded
    /// offsets `e` taken out of circulation.
    pub open spec fn excluded_taken(self, after: Self, f: Family, pool: Seq<char>, e: Set<int>) -> bool {
        match self.alloc_of(f) {
            None => after.alloc_of(f) is None && e == Set::<int>::empty(),
            Some(a) => self.consumed_excluded(f, pool, e) && alloc_with(
                self.alloc_of(f),
                after.alloc_of(f),
                a.allocated() + e,
            ),
        }
    }

    /// A failed allocation of `owner` in `pool` left `after`: the excluded
    /// offsets `e6` and `e4` are taken out of circulation (recorded as owned
    /// by `<owner> (excluded)`) and nothing else is allocated; when an IPv6
    /// address `x` had been handed out (`held`), it was released again from
    /// the default pool, which leaves `(pool, x)` owned by `owner` unless
    /// `pool` is the default pool.
    pub open spec fn rolled_back_with(
        self,
        after: Self,
        pool: Seq<char>,
        owner: Seq<char>,
        e4: Set<int>,
        e6: Set<int>,
        held: Option<IpAddress>,
    ) -> bool {
        let excl = owner + " (excluded)"@;
        let w = with_owner(
            with_owner(self.owners(), pool, self.ips_at(Family::Ipv6, e6), excl),
            pool,
            self.ips_at(Family::Ipv4, e4),
            excl,
        );
        &&& self.excluded_taken(after, Family::Ipv4, pool, e4)
        &&& self.excluded_taken(after, Family::Ipv6, pool, e6)
        &&& match held {
            None => after.owners() == w,
            Some(x) => x is V6 && after.owners() == w.insert((pool, x), owner).remove(
                (POOL_DEFAULT@, x),
            ),
        }
    }

    /// Some choice of `rolled_back_with` holds.
    pub open spec fn rolled_back(self, after: Self, pool: Seq<char>, owner: Seq<char>) -> bool {
        exists|e4: Set<int>, e6: Set<int>, held: Option<IpAddress>|
            #[trigger] self.rolled_back_with(after, pool, owner, e4, e6, held)
    }

    proof fn lemma_ips_at_empty(self, f: Family)
        ensures
            self.ips_at(f, Set::<int>::empty()) == Set::<IpAddress>::empty(),
    {
        assert(self.ips_at(f, Set::<int>::empty()) =~= Set::<IpAddress>::empty());
    }

    proof fn lemma_untouched_only_excluded(self, after: Self, f: Family, pool: Seq<char>)
        requires
            same_alloc(after.alloc_of(f), self.alloc_of(f)),
        ensures
            self.only_excluded_taken(after, f, pool),
    {
        if let Some(a) = self.alloc_of(f) {
            let e = Set::<int>::empty();
            assert(self.consumed_excluded(f, pool, e));
            assert(a.allocated() + e =~= a.allocated());
        }
    }

    proof fn lemma_only_excluded_from_same(self, mid: Self, after: Self, f: Family, pool: Seq<char>)
        requires
            same_alloc(mid.alloc_of(f), self.alloc_of(f)),
            mid.excluded() == self.excluded(),
            mid.only_excluded_taken(after, f, pool),
        ensures
            self.only_excluded_taken(after, f, pool),
    {
        if let Some(a) = self.alloc_of(f) {
            let m = mid.alloc_of(f)->Some_0;
            let e = choose|e: Set<int>|
                #[trigger] mid.consumed_excluded(f, pool, e) && alloc_with(
                    mid.alloc_of(f),
                    after.alloc_of(f),
                    m.allocated() + e,
                );
            assert forall|o: int| #[trigger] e.contains(o) implies 0 <= o < a.max()
                && !a.allocated().contains(o) && self.excluded().contains_key((pool, a.ip_at(o))) by {
                assert(m.ip_at(o) == a.ip_at(o));
            }
            assert(self.consumed_excluded(f, pool, e));
        }
    }

    proof fn lemma_only_excluded_then_same(self, mid: Self, after: Self, f: Family, pool: Seq<char>)
        requires
            self.only_excluded_taken(mid, f, pool),
            same_alloc(after.alloc_of(f), mid.alloc_of(f)),
        ensures
            self.only_excluded_taken(after, f, pool),
    {
        if let Some(a) = self.alloc_of(f) {
            let e = choose|e: Set<int>|
                #[trigger] self.consumed_excluded(f, pool, e) && alloc_with(
                    self.alloc_of(f),
                    mid.alloc_of(f),
                    a.allocated() + e,
                );
            assert(alloc_with(self.alloc_of(f), after.alloc_of(f), a.allocated() + e));
        }
    }

    proof fn lemma_has_usable_same(self, other: Self, f: Family, pool: Seq<char>)
        requires
            same_alloc(self.alloc_of(f), other.alloc_of(f)),
            self.excluded() == other.excluded(),
        ensures
            self.has_usable(f, pool) == other.has_usable(f, pool),
    {
        if self.has_usable(f, pool) {
            let a = self.alloc_of(f)->Some_0;
            let b = other.alloc_of(f)->Some_0;
            let o = choose|o: int|
                0 <= o < a.max() && !a.allocated().contains(o) && !self.excluded().contains_key(
                    (pool, #[trigger] a.ip_at(o)),
                );
            assert(b.ip_at(o) == a.ip_at(o));
        }
        if other.has_usable(f, pool) {
            let a = self.alloc_of(f)->Some_0;
            let b = other.alloc_of(f)->Some_0;
            let o = choose|o: int|
                0 <= o < b.max() && !b.allocated().contains(o) && !other.excluded().contains_key(
                    (pool, #[trigger] b.ip_at(o)),
                );
            assert(b.ip_at(o) == a.ip_at(o));
        }
    }

    /// Allocates one address of each requested family (both when `family`
    /// is `None`) that is configured; unconfigured families are skipped.
    /// IPv6 is allocated first; when IPv4 then fails, the IPv6 address is
    /// released again (from the default pool) and the IPv4 error returned.
    pub fn allocate_next(&mut self, family: Option<Family>, owner: &str, pool: &str) -> (r: Result<
        (Option<AllocationResult>, Option<AllocationResult>),
        IpamError,
    >)
        requires
            old(self).wf(),
        ensures
            final(self).wf(),
            final(self).gateway() == old(self).gateway(),
            final(self).excluded() == old(self).excluded(),
            !old(self).needs(family, Family::Ipv4) && !old(self).needs(family, Family::Ipv6) ==> r
                == Ok::<(Option<AllocationResult>, Option<AllocationResult>), IpamError>(
                (None, None),
            ) && final(self).unchanged(*old(self)),
            (old(self).needs(family, Family::Ipv4) || old(self).needs(family, Family::Ipv6))
                && pool@.len() == 0 ==> (r matches Err(IpamError::PoolDeterminationUnavailable(o))
                && o@ == owner@) && final(self).unchanged(*old(self)),
            (old(self).needs(family, Family::Ipv4) || old(self).needs(family, Family::Ipv6))
                && pool@.len() > 0 ==> {
                &&& (r is Ok <==> (old(self).needs(family, Family::Ipv6) ==> old(self).has_usable(
                    Family::Ipv6,
                    pool@,
                )) && (old(self).needs(family, Family::Ipv4) ==> old(self).has_usable(
                    Family::Ipv4,
                    pool@,
                )))
                &&& r is Err ==> r == Err::<
                    (Option<AllocationResult>, Option<AllocationResult>),
                    IpamError,
                >(IpamError::RangeFull)
                &&& r is Err && (old(self).v6() matches Some(b) ==> b.net().is_v6()) ==> old(
                    self,
                ).only_excluded_taken(*final(self), Family::Ipv4, pool@) && old(
                    self,
                ).only_excluded_taken(*final(self), Family::Ipv6, pool@)
                &&& r is Err && old(self).families_match() ==> old(self).rolled_back(
                    *final(self),
                    pool@,
                    owner@,
                )
            },
            r matches Ok((r4, r6)) ==> {
                &&& (r4 is Some <==> old(self).needs(family, Family::Ipv4))
                &&& (r6 is Some <==> old(self).needs(family, Family::Ipv6))
                &&& (r4 matches Some(x) ==> old(self).handed_out(*final(self), Family::Ipv4, pool@, x)
                    && final(self).owners().contains_key((pool@, x.ip)) && final(self).owners()[(
                    pool@,
                    x.ip,
                )] == owner@)
                &&& (r6 matches Some(x) ==> old(self).handed_out(*final(self), Family::Ipv6, pool@, x))
                &&& (r6 matches Some(x) ==> (old(self).families_match() ==> final(self).owners().contains_key((pool@, x.ip))
                    && final(self).owners()[(pool@, x.ip)] == owner@))
                &&& (r4 is None ==> same_alloc(final(self).v4(), old(self).v4()))
                &&& (r6 is None ==> same_alloc(final(self).v6(), old(self).v6()))
            },
    {
        let want_ipv6 = match family {
            None => true,
            Some(Family::Ipv6) => true,
            Some(Family::Ipv4) => false,
        };
        let want_ipv4 = match family {
            None => true,
            Some(Family::Ipv4) => true,
            Some(Family::Ipv6) => false,
        };
        let ipv6_configured = self.ipv6_allocator.is_some();
        let ipv4_configured = self.ipv4_allocator.is_some();
        let ghost s0 = *self;

        let mut ipv6_result: Option<AllocationResult> = None;
        if want_ipv6 && ipv6_configured {
            match self.allocate_next_family(Family::Ipv6, owner, pool) {
                Ok(res) => {
                    ipv6_result = Some(res);
                },
                Err(err) => {
                    proof {
                        s0.lemma_untouched_only_excluded(*self, Family::Ipv4, pool@);
                        if pool@.len() > 0 {
                            let excl = owner@ + " (excluded)"@;
                            let a = s0.alloc_of(Family::Ipv6)->Some_0;
                            let e = choose|e: Set<int>|
                                #![trigger s0.consumed_excluded(Family::Ipv6, pool@, e)]
                                {
                                    &&& s0.consumed_excluded(Family::Ipv6, pool@, e)
                                    &&& alloc_with(
                                        s0.alloc_of(Family::Ipv6),
                                        self.alloc_of(Family::Ipv6),
                                        a.allocated() + e,
                                    )
                                    &&& forall|o: int| 0 <= o < a.max() ==> #[trigger] (a.allocated() + e).contains(o)
                                    &&& self.owners() == with_owner(
                                        s0.owners(),
                                        pool@,
                                        s0.ips_at(Family::Ipv6, e),
                                        excl,
                                    )
                                };
                            s0.lemma_ips_at_empty(Family::Ipv4);
                            lemma_with_owner_none(
                                with_owner(s0.owners(), pool@, s0.ips_at(Family::Ipv6, e), excl),
                                pool@,
                                excl,
                            );
                            if let Some(a4) = s0.alloc_of(Family::Ipv4) {
                                assert(s0.consumed_excluded(Family::Ipv4, pool@, Set::<int>::empty()));
                                assert(a4.allocated() + Set::<int>::empty() =~= a4.allocated());
                            }
                            assert(s0.rolled_back_with(*self, pool@, owner@, Set::<int>::empty(), e, None));
                        }
                    }
                    return Err(err);
                },
            }
        }
        let ghost s1 = *self;
        let ghost mut e6: Set<int> = Set::empty();
        let ghost mut o6: int = 0;
        proof {
            s0.lemma_has_usable_same(s1, Family::Ipv4, pool@);
            if ipv6_result is Some {
                let x = ipv6_result->Some_0;
                let a = s0.alloc_of(Family::Ipv6)->Some_0;
                let b = s1.alloc_of(Family::Ipv6)->Some_0;
                let e = choose|e: Set<int>, o: int|
                    #![trigger s0.consumed_excluded(Family::Ipv6, pool@, e), a.ip_at(o)]
                    {
                        &&& s0.consumed_excluded(Family::Ipv6, pool@, e)
                        &&& 0 <= o < a.max()
                        &&& !a.allocated().contains(o)
                        &&& !e.contains(o)
                        &&& !s0.excluded().contains_key((pool@, a.ip_at(o)))
                        &&& x.ip == a.ip_at(o)
                        &&& x.ip_pool_name@ == POOL_DEFAULT@
                        &&& alloc_with(s0.alloc_of(Family::Ipv6), s1.alloc_of(Family::Ipv6), a.allocated() + e + set![o])
                        &&& s1.owners() == with_owner(s0.owners(), pool@, s0.ips_at(Family::Ipv6, e), owner@ + " (excluded)"@).insert((pool@, x.ip), owner@)
                    };
                assert(b.allocated().contains(e.1));
                assert(s0.handed_out(s1, Family::Ipv6, pool@, x));
                e6 = e.0;
                o6 = e.1;
                assert(s1.owners() == with_owner(s0.owners(), pool@, s0.ips_at(Family::Ipv6, e6), owner@ + " (excluded)"@).insert((pool@, x.ip), owner@));
                assert(s0.consumed_excluded(Family::Ipv6, pool@, e6));
                assert(alloc_with(s0.alloc_of(Family::Ipv6), s1.alloc_of(Family::Ipv6), a.allocated() + e6 + set![o6]));
                assert(x.ip == a.ip_at(o6) && !e6.contains(o6) && !a.allocated().contains(o6) && 0 <= o6 < a.max());
            } else {
                s0.lemma_untouched_only_excluded(s1, Family::Ipv6, pool@);
            }
        }

        let mut ipv4_result: Option<AllocationResult> = None;
        if want_ipv4 && ipv4_configured {
            match self.allocate_next_family(Family::Ipv4, owner, pool) {
                Ok(res) => {
                    ipv4_result = Some(res);
                },
                Err(err) => {
                    let ghost s2 = *self;
                    let ghost mut e4: Set<int> = Set::empty();
                    proof {
                        if pool@.len() == 0 {
                            s1.lemma_untouched_only_excluded(s2, Family::Ipv4, pool@);
                        }
                        s0.lemma_only_excluded_from_same(s1, s2, Family::Ipv4, pool@);
                        if pool@.len() > 0 {
                            let excl = owner@ + " (excluded)"@;
                            let a1 = s1.alloc_of(Family::Ipv4)->Some_0;
                            let a0 = s0.alloc_of(Family::Ipv4)->Some_0;
                            let e = choose|e: Set<int>|
                                #![trigger s1.consumed_excluded(Family::Ipv4, pool@, e)]
                                {
                                    &&& s1.consumed_excluded(Family::Ipv4, pool@, e)
                                    &&& alloc_with(
                                        s1.alloc_of(Family::Ipv4),
                                        s2.alloc_of(Family::Ipv4),
                                        a1.allocated() + e,
                                    )
                                    &&& forall|o: int| 0 <= o < a1.max() ==> #[trigger] (a1.allocated() + e).contains(o)
                                    &&& s2.owners() == with_owner(
                                        s1.owners(),
                                        pool@,
                                        s1.ips_at(Family::Ipv4, e),
                                        excl,
                                    )
                                };
                            e4 = e;
                            assert forall|o: int| #[trigger] e4.contains(o) implies 0 <= o < a0.max()
                                && !a0.allocated().contains(o) && s0.excluded().contains_key((pool@, a0.ip_at(o))) by {
                                assert(a1.ip_at(o) == a0.ip_at(o));
                            }
                            assert(s0.consumed_excluded(Family::Ipv4, pool@, e4));
                            assert(s1.ips_at(Family::Ipv4, e4) =~= s0.ips_at(Family::Ipv4, e4)) by {
                                assert forall|y: IpAddress| s1.ips_at(Family::Ipv4, e4).contains(y) == s0.ips_at(Family::Ipv4, e4).contains(y) by {
                                    if s1.ips_at(Family::Ipv4, e4).contains(y) {
                                        let w = choose|w: int| #[trigger] e4.contains(w) && y == a1.ip_at(w);
                                        assert(a0.ip_at(w) == a1.ip_at(w));
                                    }
                                    if s0.ips_at(Family::Ipv4, e4).contains(y) {
                                        let w = choose|w: int| #[trigger] e4.contains(w) && y == a0.ip_at(w);
                                        assert(a0.ip_at(w) == a1.ip_at(w));
                                    }
                                }
                            }
                            assert(s2.owners() == with_owner(s1.owners(), pool@, s0.ips_at(Family::Ipv4, e4), excl));
                            assert(s0.excluded_taken(s2, Family::Ipv4, pool@, e4));
                            if ipv6_result is None {
                                s0.lemma_ips_at_empty(Family::Ipv6);
                                lemma_with_owner_none(s0.owners(), pool@, excl);
                                if let Some(a6) = s0.alloc_of(Family::Ipv6) {
                                    assert(s0.consumed_excluded(Family::Ipv6, pool@, Set::<int>::empty()));
                                    assert(a6.allocated() + Set::<int>::empty() =~= a6.allocated());
                                }
                                assert(s0.rolled_back_with(s2, pool@, owner@, e4, Set::<int>::empty(), None));
                            }
                        }
                    }
                    if let Some(v6) = &ipv6_result {
                        let _ = self.release_ip(v6.ip, v6.ip_pool_name.as_str());
                        proof {
                            reveal_strlit("default");
                            let a = s0.alloc_of(Family::Ipv6)->Some_0;
                            let b = s2.alloc_of(Family::Ipv6)->Some_0;
                            if a.net().is_v6() {
                                b.lemma_offset_round_trip(o6);
                                assert(b.ip_at(o6) == a.ip_at(o6));
                                assert(family_of(v6.ip) == Family::Ipv6);
                                assert(b.allocated().remove(o6) =~= a.allocated() + e6);
                                assert(s0.consumed_excluded(Family::Ipv6, pool@, e6));
                                s0.lemma_only_excluded_then_same(s2, *self, Family::Ipv4, pool@);
                                if s0.families_match() && pool@.len() > 0 {
                                    let excl = owner@ + " (excluded)"@;
                                    let x = v6.ip;
                                    let w6 = with_owner(s0.owners(), pool@, s0.ips_at(Family::Ipv6, e6), excl);
                                    assert(!s0.ips_at(Family::Ipv4, e4).contains(x)) by {
                                        if s0.ips_at(Family::Ipv4, e4).contains(x) {
                                            let a0 = s0.alloc_of(Family::Ipv4)->Some_0;
                                            let w = choose|w: int| #[trigger] e4.contains(w) && x == a0.ip_at(w);
                                        }
                                    }
                                    lemma_with_owner_insert(w6, pool@, s0.ips_at(Family::Ipv4, e4), excl, (pool@, x), owner@);
                                    assert(s0.excluded_taken(*self, Family::Ipv4, pool@, e4));
                                    assert(s0.excluded_taken(*self, Family::Ipv6, pool@, e6));
                                    assert(s0.rolled_back_with(*self, pool@, owner@, e4, e6, Some(x)));
                                }
                            }
                        }
                    }
                    return Err(err);
                },
            }
        }
        proof {
            let s2 = *self;
            if ipv4_result is Some {
                let x = ipv4_result->Some_0;
                let a = s1.alloc_of(Family::Ipv4)->Some_0;
                let e = choose|e: Set<int>, o: int|
                    #![trigger s1.consumed_excluded(Family::Ipv4, pool@, e), a.ip_at(o)]
                    {
                        &&& s1.consumed_excluded(Family::Ipv4, pool@, e)
                        &&& 0 <= o < a.max()
                        &&& !a.allocated().contains(o)
                        &&& !e.contains(o)
                        &&& !s1.excluded().contains_key((pool@, a.ip_at(o)))
                        &&& x.ip == a.ip_at(o)
                        &&& x.ip_pool_name@ == POOL_DEFAULT@
                        &&& alloc_with(s1.alloc_of(Family::Ipv4), s2.alloc_of(Family::Ipv4), a.allocated() + e + set![o])
                        &&& s2.owners() == with_owner(s1.owners(), pool@, s1.ips_at(Family::Ipv4, e), owner@ + " (excluded)"@).insert((pool@, x.ip), owner@)
                    };
                let a0 = s0.alloc_of(Family::Ipv4)->Some_0;
                assert(a0.ip_at(e.1) == a.ip_at(e.1));
                assert(s0.handed_out(s2, Family::Ipv4, pool@, x));
                if ipv6_result is Some && s0.families_match() {
                    let x6 = ipv6_result->Some_0.ip;
                    let excl = owner@ + " (excluded)"@;
                    assert(x6 is V6);
                    assert(x.ip is V4);
                    assert(!s1.ips_at(Family::Ipv4, e.0).contains(x6)) by {
                        if s1.ips_at(Family::Ipv4, e.0).contains(x6) {
                            let w = choose|w: int| #[trigger] e.0.contains(w) && x6 == a.ip_at(w);
                        }
                    }
                    assert(with_owner(s1.owners(), pool@, s1.ips_at(Family::Ipv4, e.0), excl)[(pool@, x6)] == s1.owners()[(pool@, x6)]);
                }
            }
            if ipv6_result is Some {
                let x = ipv6_result->Some_0;
                let b = s1.alloc_of(Family::Ipv6)->Some_0;
                let a = s0.alloc_of(Family::Ipv6)->Some_0;
                let o = choose|o: int|
                    0 <= o < a.max() && !a.allocated().contains(o) && !s0.excluded().contains_key(
                        (pool@, #[trigger] a.ip_at(o)),
                    ) && x.ip == a.ip_at(o) && b.allocated().contains(o);
                assert(s0.handed_out(s2, Family::Ipv6, pool@, x));
            }
        }
        Ok((ipv4_result, ipv6_result))
    }
}

/// The node-side addressing returned with an allocation.
#[derive(Debug, Clone, PartialEq, Eq)]
pub struct HostAddressing {
    pub ipv4: Option<String>,
    pub ipv6: Option<String>,
}

/// An address handed to a container, with its pool.
#[derive(Debug, Clone, PartialEq, Eq)]
pub struct ContainerAddressing {
    pub ip: String,
    pub pool: Option<String>,
}

/// The answer to an allocation request.
#[derive(Debug, Clone, PartialEq, Eq)]
pub struct IpamAllocateResponse {
    pub host_addressing: HostAddressing,
    pub ipv4: Option<ContainerAddressing>,
    pub ipv6: Option<ContainerAddressing>,
}

/// The family a request names: `"ipv4"`, `"ipv6"`, or anything else (or
/// nothing) for both.
pub open spec fn requested_family(family: Option<Seq<char>>) -> Option<Family> {
    match family {
        Some(f) => if f == "ipv4"@ {
            Some(Family::Ipv4)
        } else if f == "ipv6"@ {
            Some(Family::Ipv6)
        } else {
            None
        },
        None => None,
    }
}

/// The pool a request names, `default` when it names none.
pub open spec fn pool_or_default(pool: Option<Seq<char>>) -> Seq<char> {
    match pool {
        Some(p) => p,
        None => POOL_DEFAULT@,
    }
}

/// The owner a request names, empty when it names none.
pub open spec fn owner_or_empty(owner: Option<Seq<char>>) -> Seq<char> {
    match owner {
        Some(o) => o,
        None => Seq::empty(),
    }
}

pub open spec fn opt_view(s: Option<String>) -> Option<Seq<char>> {
    match s {
        Some(x) => Some(x@),
        None => None,
    }
}

/// The dump line of one family: `<label>: <allocator status>`, or nothing
/// when the family is not configured.
pub open spec fn family_status(label: Seq<char>, a: Option<HostScopeAllocator>) -> Seq<char> {
    match a {
        None => Seq::empty(),
        Some(x) => label + ": "@ + decimal(x.allocated().len()) + "/"@ + decimal(
            host_count(x.net()) as nat,
        ) + " allocated from "@ + cidr_text(x.net()),
    }
}

/// The dump entries of one allocator: (address text, owner in the default
/// pool), one per allocated address.
pub open spec fn dump_entries_ok(
    svc: DefaultIpamService,
    a: HostScopeAllocator,
    entries: Seq<(String, String)>,
) -> bool {
    exists|ips: Seq<IpAddress>|
        #[trigger] a.lists_allocated(ips) && entries.len() == ips.len() && forall|k: int|
            0 <= k < ips.len() ==> entries[k].0@ == ip_text(#[trigger] ips[k]) && entries[k].1@
                == default_owner(svc, ips[k])
}

/// The owner of `ip` in the default pool, empty when it has none.
pub open spec fn default_owner(svc: DefaultIpamService, ip: IpAddress) -> Seq<char> {
    if svc.owners().contains_key((POOL_DEFAULT@, ip)) {
        svc.owners()[(POOL_DEFAULT@, ip)]
    } else {
        Seq::<char>::empty()
    }
}

impl DefaultIpamService {
    /// Serves an allocation request: the family, owner and pool come as
    /// optional text (both families, no owner and the default pool when
    /// absent). The answer carries the gateway address as the host's IPv4
    /// address and the allocated addresses as text.
    pub fn allocate(
        &mut self,
        family: Option<String>,
        owner: Option<String>,
        pool: Option<String>,
        _expiration: bool,
    ) -> (r: Result<IpamAllocateResponse, IpamError>)
        requires
            old(self).wf(),
        ensures
            final(self).wf(),
            final(self).gateway() == old(self).gateway(),
            final(self).excluded() == old(self).excluded(),
            ({
                let fam = requested_family(opt_view(family));
                let p = pool_or_default(opt_view(pool));
                let o = owner_or_empty(opt_view(owner));
                let need4 = old(self).needs(fam, Family::Ipv4);
                let need6 = old(self).needs(fam, Family::Ipv6);
                &&& !need4 && !need6 ==> r is Ok && final(self).unchanged(*old(self))
                &&& (need4 || need6) && p.len() == 0 ==> (r matches Err(
                    IpamError::PoolDeterminationUnavailable(e),
                ) && e@ == o) && final(self).unchanged(*old(self))
                &&& (need4 || need6) && p.len() > 0 ==> {
                    &&& (r is Ok <==> (need6 ==> old(self).has_usable(Family::Ipv6, p)) && (need4
                        ==> old(self).has_usable(Family::Ipv4, p)))
                    &&& r is Err ==> r == Err::<IpamAllocateResponse, IpamError>(
                        IpamError::RangeFull,
                    )
                    &&& r is Err && (old(self).v6() matches Some(b) ==> b.net().is_v6()) ==> old(
                        self,
                    ).only_excluded_taken(*final(self), Family::Ipv4, p) && old(
                        self,
                    ).only_excluded_taken(*final(self), Family::Ipv6, p)
                    &&& r is Err && old(self).families_match() ==> old(self).rolled_back(
                        *final(self),
                        p,
                        o,
                    )
                }
                &&& r is Ok && !need4 ==> same_alloc(final(self).v4(), old(self).v4())
                &&& r is Ok && !need6 ==> same_alloc(final(self).v6(), old(self).v6())
                &&& r matches Ok(resp) ==> {
                    &&& resp.host_addressing.ipv4 matches Some(g) && g@ == ip_text(
                        old(self).gateway(),
                    )
                    &&& resp.host_addressing.ipv6 is None
                    &&& (resp.ipv4 is Some <==> need4)
                    &&& (resp.ipv6 is Some <==> need6)
                    &&& resp.ipv4 matches Some(c) ==> c.pool matches Some(pn) && pn@ == POOL_DEFAULT@
                        && exists|x: AllocationResult|
                        old(self).handed_out(*final(self), Family::Ipv4, p, x) && c.ip@
                            == #[trigger] ip_text(x.ip)
                    &&& resp.ipv6 matches Some(c) ==> c.pool matches Some(pn) && pn@ == POOL_DEFAULT@
                        && exists|x: AllocationResult|
                        old(self).handed_out(*final(self), Family::Ipv6, p, x) && c.ip@
                            == #[trigger] ip_text(x.ip)
                }
            }),
    {
        let owner = match owner {
            Some(o) => o,
            None => String::new(),
        };
        let pool = match pool {
            Some(p) => p,
            None => owned(POOL_DEFAULT),
        };
        let family = match &family {
            Some(f) => if str_eq(f.as_str(), "ipv4") {
                Some(Family::Ipv4)
            } else if str_eq(f.as_str(), "ipv6") {
                Some(Family::Ipv6)
            } else {
                None
            },
            None => None,
        };
        let (ipv4, ipv6) = match self.allocate_next(family, owner.as_str(), pool.as_str()) {
            Ok(pair) => pair,
            Err(e) => return Err(e),
        };
        let gateway = ip_to_string(self.gateway_ip);
        let ipv4 = match ipv4 {
            Some(res) => Some(
                ContainerAddressing { ip: ip_to_string(res.ip), pool: Some(res.ip_pool_name) },
            ),
            None => None,
        };
        let ipv6 = match ipv6 {
            Some(res) => Some(
                ContainerAddressing { ip: ip_to_string(res.ip), pool: Some(res.ip_pool_name) },
            ),
            None => None,
        };
        Ok(
            IpamAllocateResponse {
                host_addressing: HostAddressing { ipv4: Some(gateway), ipv6: None },
                ipv4,
                ipv6,
            },
        )
    }

    /// Releases `ip` from `pool` (the default pool when none is named).
    pub fn release(&mut self, ip: IpAddress, pool: Option<String>) -> (r: Result<(), IpamError>)
        requires
            old(self).wf(),
        ensures
            final(self).wf(),
            final(self).gateway() == old(self).gateway(),
            final(self).excluded() == old(self).excluded(),
            ({
                let p = pool_or_default(opt_view(pool));
                &&& p.len() == 0 ==> (r matches Err(IpamError::PoolRequiredForRelease(s)) && s@
                    == ip_text(ip)) && final(self).unchanged(*old(self))
                &&& p.len() > 0 ==> match old(self).alloc_of(family_of(ip)) {
                    None => r == Err::<(), IpamError>(disabled_error(family_of(ip))) && final(
                        self).unchanged(*old(self)),
                    Some(a) => {
                        &&& r is Ok
                        &&& alloc_with(
                            old(self).alloc_of(family_of(ip)),
                            final(self).alloc_of(family_of(ip)),
                            match a.offset_of(ip) {
                                Some(o) => a.allocated().remove(o),
                                None => a.allocated(),
                            },
                        )
                        &&& same_alloc(
                            final(self).alloc_of(other_family(family_of(ip))),
                            old(self).alloc_of(other_family(family_of(ip))),
                        )
                        &&& final(self).owners() == old(self).owners().remove((p, ip))
                    },
                }
            }),
    {
        let pool = match pool {
            Some(p) => p,
            None => owned(POOL_DEFAULT),
        };
        self.release_ip(ip, pool.as_str())
    }

    fn dump_family(&self, a: &HostScopeAllocator) -> (r: Vec<(String, String)>)
        requires
            self.wf(),
            a.wf(),
        ensures
            dump_entries_ok(*self, *a, r@),
    {
        let ips = a.for_each();
        let mut out: Vec<(String, String)> = Vec::new();
        let mut i: usize = 0;
        while i < ips.len()
            invariant
                self.wf(),
                i <= ips@.len(),
                out@.len() == i,
                forall|k: int|
                    0 <= k < i ==> (#[trigger] out@[k]).0@ == ip_text(ips@[k]) && out@[k].1@
                        == default_owner(*self, ips@[k]),
            decreases ips@.len() - i,
        {
            let ip = ips[i];
            let text = ip_to_string(ip);
            let owner = self.get_ip_owner(ip, POOL_DEFAULT);
            out.push((text, owner));
            i = i + 1;
        }
        proof {
            assert(a.lists_allocated(ips@));
            assert forall|k: int| 0 <= k < ips@.len() implies out@[k].0@ == ip_text(
                #[trigger] ips@[k],
            ) && out@[k].1@ == default_owner(*self, ips@[k]) by {
                assert(out@[k].0@ == ip_text(ips@[k]));
            }
        }
        out
    }

    /// Every allocated address of each family with its owner in the default
    /// pool, and a status line `<IPv4 status>, <IPv6 status>`.
    #[verifier::spinoff_prover]
    #[verifier::rlimit(40)]
    pub fn dump(&self) -> (r: (Vec<(String, String)>, Vec<(String, String)>, String))
        requires
            self.wf(),
            self.v4() matches Some(a) ==> !(a.net().is_v6() && a.net().prefix() == 0),
            self.v6() matches Some(a) ==> !(a.net().is_v6() && a.net().prefix() == 0),
        ensures
            self.v4() matches Some(a) ==> dump_entries_ok(*self, a, r.0@),
            self.v4() is None ==> r.0@.len() == 0,
            self.v6() matches Some(a) ==> dump_entries_ok(*self, a, r.1@),
            self.v6() is None ==> r.1@.len() == 0,
            r.2@ == family_status("IPv4"@, self.v4()) + ", "@ + family_status("IPv6"@, self.v6()),
    {
        let mut st4 = String::new();
        let mut st6 = String::new();
        let mut allocv4: Vec<(String, String)> = Vec::new();
        let mut allocv6: Vec<(String, String)> = Vec::new();
        if let Some(a) = &self.ipv4_allocator {
            let (_, status) = a.dump();
            st4 = concat("IPv4: ", status.as_str());
            allocv4 = self.dump_family(a);
        }
        if let Some(a) = &self.ipv6_allocator {
            let (_, status) = a.dump();
            st6 = concat("IPv6: ", status.as_str());
            allocv6 = self.dump_family(a);
        }
        let mut status = concat(st4.as_str(), ", ");
        status.append(st6.as_str());
        proof {
            reveal_strlit("IPv4");
            reveal_strlit("IPv6");
            reveal_strlit(": ");
            reveal_strlit("IPv4: ");
            reveal_strlit("IPv6: ");
            assert("IPv4: "@ =~= "IPv4"@ + ": "@);
            assert("IPv6: "@ =~= "IPv6"@ + ": "@);
            reveal_strlit(", ");
        }
        if status.as_str().is_empty() {
            status = owned("Not running");
        }
        (allocv4, allocv6, status)
    }
}

/// The other address family.
pub open spec fn other_family(f: Family) -> Family {
    match f {
        Family::Ipv4 => Family::Ipv6,
        Family::Ipv6 => Family::Ipv4,
    }
}

/// Reading an owner back after recording it gives the recorded owner, and
/// forgetting it afterwards returns that owner and leaves none behind.
pub proof fn law_owner_read_after_write(
    owners: Map<OwnerKey, Seq<char>>,
    pool: Seq<char>,
    ip: IpAddress,
    owner: Seq<char>,
)
    ensures
        owners.insert((pool, ip), owner).contains_key((pool, ip)),
        owners.insert((pool, ip), owner)[(pool, ip)] == owner,
        !owners.insert((pool, ip), owner).remove((pool, ip)).contains_key((pool, ip)),
        owners.insert((pool, ip), owner).remove((pool, ip)) == owners.remove((pool, ip)),
{
    assert(owners.insert((pool, ip), owner).remove((pool, ip)) =~= owners.remove((pool, ip)));
}

/// Releasing an address that `allocate_ip` just handed out gives the
/// family's allocator back the allocations it had, the address has no
/// owner in the pool any more, and no allocated offset stands for it (so a
/// dump no longer lists it, and allocating it again succeeds).
pub proof fn law_release_ip_undoes_allocate_ip(
    s: DefaultIpamService,
    ip: IpAddress,
    owner: Seq<char>,
    pool: Seq<char>,
)
    requires
        s.wf(),
        s.alloc_of(family_of(ip)) is Some,
        s.alloc_of(family_of(ip))->Some_0.offset_of(ip) is Some,
        !s.alloc_of(family_of(ip))->Some_0.allocated().contains(
            s.alloc_of(family_of(ip))->Some_0.offset_of(ip)->Some_0,
        ),
    ensures
        ({
            let a = s.alloc_of(family_of(ip))->Some_0;
            let o = a.offset_of(ip)->Some_0;
            a.allocated().insert(o).remove(o) == a.allocated()
        }),
        !s.owners().insert((pool, ip), owner).remove((pool, ip)).contains_key((pool, ip)),
        forall|p: int|
            #[trigger] s.alloc_of(family_of(ip))->Some_0.allocated().contains(p) ==> s.alloc_of(
                family_of(ip),
            )->Some_0.ip_at(p) != ip,
{
    let a = s.alloc_of(family_of(ip))->Some_0;
    let o = a.offset_of(ip)->Some_0;
    assert(a.allocated().insert(o).remove(o) =~= a.allocated());
    s.lemma_wf_allocators();
    a.lemma_allocated_bounded();
    assert forall|p: int| #[trigger] a.allocated().contains(p) implies a.ip_at(p) != ip by {
        a.lemma_offset_round_trip(p);
    }
}


/// An address handed out by an allocation is allocated in the state after
/// it, at the offset it stands for; so it is never handed out again, and
/// asking `allocate_ip` for it is refused as already allocated until it
/// is released.
pub proof fn law_handed_out_address_is_taken(
    s: DefaultIpamService,
    after: DefaultIpamService,
    f: Family,
    pool: Seq<char>,
    res: AllocationResult,
)
    requires
        s.wf(),
        s.handed_out(after, f, pool, res),
        alloc_with(s.alloc_of(f), after.alloc_of(f), after.alloc_of(f)->Some_0.allocated()),
    ensures
        after.alloc_of(f) matches Some(b) && b.offset_of(res.ip) matches Some(o) && b.allocated().contains(o),
{
    let a = s.alloc_of(f)->Some_0;
    let b = after.alloc_of(f)->Some_0;
    let o = choose|o: int|
        0 <= o < a.max() && !a.allocated().contains(o) && !s.excluded().contains_key(
            (pool, #[trigger] a.ip_at(o)),
        ) && res.ip == a.ip_at(o) && b.allocated().contains(o);
    assert(a.wf());
    a.lemma_offset_round_trip(o);
    assert(b.ip_at(o) == a.ip_at(o));
    assert(b.offset_of(res.ip) == a.offset_of(res.ip));
}

/// The family a request names: exactly the text `ipv4` asks for the IPv4
/// family alone and exactly `ipv6` for the IPv6 family alone; any other
/// text, or none, asks for both. So an `ipv6` request never wants an IPv4
/// address, and the other way round.
pub proof fn law_requested_family(f: Seq<char>)
    ensures
        requested_family(Some(f)) == Some(Family::Ipv4) <==> f == "ipv4"@,
        requested_family(Some(f)) == Some(Family::Ipv6) <==> f == "ipv6"@,
        requested_family(Some(f)) is None <==> (f != "ipv4"@ && f != "ipv6"@),
        requested_family(None) is None,
        !DefaultIpamService::wants(requested_family(Some("ipv6"@)), Family::Ipv4),
        DefaultIpamService::wants(requested_family(Some("ipv6"@)), Family::Ipv6),
        !DefaultIpamService::wants(requested_family(Some("ipv4"@)), Family::Ipv6),
        DefaultIpamService::wants(requested_family(Some("ipv4"@)), Family::Ipv4),
{
    reveal_strlit("ipv4");
    reveal_strlit("ipv6");
    assert("ipv4"@ != "ipv6"@) by {
        assert("ipv4"@[3] != "ipv6"@[3]);
    }
}

} // verus!
