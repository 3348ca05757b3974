//! Allocation of the host addresses of one CIDR block.
use vstd::prelude::*;
use vstd::string::StringExecFns;

use crate::bitmap::AllocationBitmap;
use crate::ip::{
    cidr_text, cidr_to_string, decimal, decimal_string, ip_text, ip_to_string, max_prefix_of,
    two_pow, two_pow_u128, lemma_two_pow_mono, lemma_two_pow_values, Cidr, IpAddress,
};
use crate::ipam::{IpamError, POOL_DEFAULT};
use crate::text::owned;

verus! {

/// Number of addresses the allocator manages for a block with the given
/// family and prefix length: the whole block, except that blocks of fewer
/// than four IPv4 (resp. IPv6) addresses are considered empty, IPv6 blocks
/// are capped at 65536 addresses.
pub open spec fn range_size(v6: bool, prefix: nat) -> nat {
    let bits = max_prefix_of(v6);
    let h = (bits - prefix) as nat;
    if (!v6 && h >= 31) || (v6 && h >= 127) {
        0
    } else if v6 && h >= 16 {
        65536
    } else {
        two_pow(h)
    }
}

/// Number of allocatable addresses: the network and broadcast addresses are
/// left out of any range of more than two addresses.
pub open spec fn usable_size(size: nat) -> nat {
    if size > 2 {
        (size - 2) as nat
    } else {
        size
    }
}

/// Number of host addresses of a block, the network and broadcast
/// addresses left out (zero for single-address blocks), without the cap.
pub open spec fn host_count(c: Cidr) -> int {
    if c.prefix() == c.max_prefix() {
        0
    } else {
        two_pow(c.host_bits()) - 2
    }
}

/// Allocates addresses from one CIDR block, one bit per usable address.
pub struct HostScopeAllocator {
    net: Cidr,
    base: u128,
    max: usize,
    alloc: AllocationBitmap,
}

impl HostScopeAllocator {
    /// The block addresses are allocated from.
    pub closed spec fn net(self) -> Cidr {
        self.net
    }

    /// The numeric value of the first allocatable address.
    pub closed spec fn base(self) -> int {
        self.base as int
    }

    /// Number of allocatable addresses.
    pub closed spec fn max(self) -> nat {
        self.max as nat
    }

    /// The allocated offsets (address minus `base`).
    pub closed spec fn allocated(self) -> Set<int> {
        self.alloc@
    }

    pub closed spec fn wf(self) -> bool {
        &&& self.net.wf()
        &&& self.alloc.wf()
        &&& self.alloc.capacity() == self.max
        &&& self.max == usable_size(range_size(self.net.is_v6(), self.net.prefix()))
        &&& self.base == self.net.network_value() + if range_size(
            self.net.is_v6(),
            self.net.prefix(),
        ) > 2 {
            1int
        } else {
            0int
        }
    }

    /// The address at offset `o`.
    pub open spec fn ip_at(self, o: int) -> IpAddress {
        if self.net().is_v6() {
            IpAddress::V6((self.base() + o) as u128)
        } else {
            IpAddress::V4((self.base() + o) as u32)
        }
    }

    /// The offset of `ip`, when `ip` is one of the allocatable addresses.
    pub open spec fn offset_of(self, ip: IpAddress) -> Option<int> {
        if self.net().contains_spec(ip) && self.base() <= ip.value() && ip.value() - self.base()
            < self.max() {
            Some(ip.value() - self.base())
        } else {
            None
        }
    }

    /// Whether `ip` is an allocated address.
    pub open spec fn is_allocated_ip(self, ip: IpAddress) -> bool {
        exists|o: int| self.allocated().contains(o) && ip == #[trigger] self.ip_at(o)
    }

    /// `ips` lists the allocated addresses, each once, in ascending order.
    pub open spec fn lists_allocated(self, ips: Seq<IpAddress>) -> bool {
        &&& ips.len() == self.allocated().len()
        &&& forall|k: int| 0 <= k < ips.len() ==> self.is_allocated_ip(#[trigger] ips[k])
        &&& forall|o: int|
            self.allocated().contains(o) ==> exists|k: int|
                0 <= k < ips.len() && ips[k] == #[trigger] self.ip_at(o)
        &&& forall|a: int, b: int| 0 <= a < b < ips.len() ==> ips[a].value() < ips[b].value()
    }

    /// The allocatable range lies inside the block, and IPv4 values stay
    /// below 2^32.
    proof fn lemma_range_in_block(self)
        requires
            self.wf(),
        ensures
            self.base() + self.max() <= self.net().broadcast_value() + 1,
            self.net().network_value() <= self.base(),
            self.base() + self.max() <= two_pow(max_prefix_of(self.net().is_v6())),
            self.net().broadcast_value() < two_pow(max_prefix_of(self.net().is_v6())),
    {
        let c = self.net;
        c.lemma_block_fits();
        let h = c.host_bits();
        let size = range_size(c.is_v6(), c.prefix());
        lemma_two_pow_values();
        if c.is_v6() && h >= 16 && h < 127 {
            lemma_two_pow_mono(16, h);
        }
        assert(size <= c.block_size());
    }

    /// The allocatable range of a well-formed allocator: its block is
    /// well-formed; when the block's range holds more than two addresses the
    /// network address (and the broadcast address) are left out, so the
    /// range starts one above the network address and holds two addresses
    /// fewer; and the range lies inside the block.
    pub proof fn lemma_usable_range(self)
        requires
            self.wf(),
        ensures
            self.net().wf(),
            self.max() == usable_size(range_size(self.net().is_v6(), self.net().prefix())),
            self.base() == self.net().network_value() + if range_size(
                self.net().is_v6(),
                self.net().prefix(),
            ) > 2 {
                1int
            } else {
                0int
            },
            self.net().network_value() <= self.base(),
            self.base() + self.max() <= self.net().broadcast_value() + 1,
    {
        self.lemma_range_in_block();
    }

    /// Every allocatable offset maps to an address whose offset is that
    /// offset again.
    pub proof fn lemma_offset_round_trip(self, o: int)
        requires
            self.wf(),
            0 <= o < self.max(),
        ensures
            self.offset_of(self.ip_at(o)) == Some(o),
            self.net().contains_spec(self.ip_at(o)),
            self.ip_at(o).value() == self.base() + o,
    {
        self.lemma_range_in_block();
        lemma_two_pow_values();
    }

    /// The allocated offsets form a finite set within `0..max`.
    pub proof fn lemma_allocated_bounded(self)
        requires
            self.wf(),
        ensures
            self.allocated().finite(),
            self.allocated().len() <= self.max(),
            forall|o: int| #[trigger] self.allocated().contains(o) ==> 0 <= o < self.max(),
    {
        self.alloc.lemma_len_le_capacity();
        assert forall|o: int| #[trigger] self.allocated().contains(o) implies 0 <= o < self.max() by {
            self.alloc.lemma_view_in_range(o);
        }
    }

    /// When as many offsets are allocated as there are, every offset is.
    pub proof fn lemma_full(self, s: Set<int>)
        requires
            self.wf(),
            s == self.allocated(),
            s.len() >= self.max(),
        ensures
            forall|o: int| 0 <= o < self.max() ==> #[trigger] s.contains(o),
    {
        self.lemma_allocated_bounded();
        assert forall|o: int| 0 <= o < self.max() implies #[trigger] s.contains(o) by {
            if !s.contains(o) {
                vstd::set_lib::lemma_int_range(0, self.max() as int);
                let r = vstd::set_lib::set_int_range(0, self.max() as int).remove(o);
                assert(s.subset_of(r));
                vstd::set_lib::lemma_len_subset(s, r);
            }
        }
    }

    /// Number of addresses of the block the allocator manages.
    pub fn size(n: &Cidr) -> (r: u64)
        requires
            n.wf(),
        ensures
            r == range_size(n.is_v6(), n.prefix()),
    {
        proof {
            n.lemma_wf();
        }
        let ones = n.prefix_len() as u32;
        let bits = n.max_prefix_len() as u32;
        let host_bits = bits - ones;
        if (bits == 32 && host_bits >= 31) || (bits == 128 && host_bits >= 127) {
            return 0;
        }
        proof {
            lemma_two_pow_values();
            n.lemma_wf();
        }
        if bits == 128 && host_bits >= 16 {
            65536
        } else {
            proof {
                lemma_two_pow_mono(host_bits as nat, 30);
                assert(two_pow(30) == 0x4000_0000) by {
                    reveal_with_fuel(two_pow, 31);
                }
            }
            two_pow_u128(host_bits) as u64
        }
    }

    /// An allocator for the host addresses of `cidr`, all free.
    pub fn new(cidr: Cidr) -> (r: Self)
        requires
            cidr.wf(),
        ensures
            r.wf(),
            r.net() == cidr,
            r.allocated() == Set::<int>::empty(),
    {
        let mut base = cidr.network_u128();
        let size = Self::size(&cidr);
        let max = if size > 2 {
            size - 2
        } else {
            size
        };
        if size > 2 {
            proof {
                cidr.lemma_block_fits();
                lemma_two_pow_values();
                if cidr.is_v6() && cidr.host_bits() >= 16 {
                    lemma_two_pow_mono(16, cidr.host_bits());
                }
            }
            base = base + 1;
        }
        proof {
            lemma_two_pow_values();
            cidr.lemma_wf();
            if (!cidr.is_v6() && cidr.host_bits() <= 30) || (cidr.is_v6() && cidr.host_bits() < 16) {
                lemma_two_pow_mono(cidr.host_bits(), 30);
                assert(two_pow(30) == 0x4000_0000) by {
                    reveal_with_fuel(two_pow, 31);
                }
            }
            assert(max <= 0x4000_0000);
        }
        let max = max as usize;
        HostScopeAllocator { net: cidr, base, max, alloc: AllocationBitmap::new(max) }
    }

    /// The offset of `ip` when it is one of the allocatable addresses.
    fn contains(&self, ip: IpAddress) -> (r: Option<usize>)
        requires
            self.wf(),
        ensures
            match self.offset_of(ip) {
                None => r is None,
                Some(o) => r == Some(o as usize),
            },
    {
        if !self.net.contains(ip) {
            return None;
        }
        let v = ip.to_u128();
        if v < self.base {
            return None;
        }
        let offset = v - self.base;
        if offset < self.max as u128 {
            Some(offset as usize)
        } else {
            None
        }
    }

    /// The address at offset `offset`.
    fn offset_to_ip(&self, offset: usize) -> (r: IpAddress)
        requires
            self.wf(),
            offset < self.max(),
        ensures
            r == self.ip_at(offset as int),
    {
        proof {
            self.lemma_range_in_block();
            lemma_two_pow_values();
        }
        let value = self.base + offset as u128;
        if self.net.is_v6_exec() {
            IpAddress::V6(value)
        } else {
            IpAddress::V4(value as u32)
        }
    }

    /// Allocates `ip`. Fails with `NotInRange` (naming the block) when `ip`
    /// is not one of the allocatable addresses, and with `AlreadyAllocated`
    /// when it is taken; nothing changes then.
    pub fn allocate(&mut self, ip: IpAddress) -> (r: Result<IpAddress, IpamError>)
        requires
            old(self).wf(),
        ensures
            final(self).wf(),
            final(self).net() == old(self).net(),
            final(self).base() == old(self).base(),
            final(self).max() == old(self).max(),
            match old(self).offset_of(ip) {
                None => {
                    &&& r matches Err(IpamError::NotInRange { valid_range }) && valid_range@
                        == cidr_text(old(self).net())
                    &&& final(self).allocated() == old(self).allocated()
                },
                Some(o) => if old(self).allocated().contains(o) {
                    &&& r == Err::<IpAddress, IpamError>(IpamError::AlreadyAllocated)
                    &&& final(self).allocated() == old(self).allocated()
                } else {
                    &&& r == Ok::<IpAddress, IpamError>(ip)
                    &&& final(self).allocated() == old(self).allocated().insert(o)
                },
            },
    {
        let offset = match self.contains(ip) {
            Some(o) => o,
            None => {
                return Err(IpamError::NotInRange { valid_range: cidr_to_string(&self.net) });
            },
        };
        if !self.alloc.allocate(offset) {
            return Err(IpamError::AlreadyAllocated);
        }
        Ok(ip)
    }

    /// Allocates some free address; `RangeFull` when there is none.
    pub fn allocate_next(&mut self) -> (r: Result<IpAddress, IpamError>)
        requires
            old(self).wf(),
        ensures
            final(self).wf(),
            final(self).net() == old(self).net(),
            final(self).base() == old(self).base(),
            final(self).max() == old(self).max(),
            r is Err <==> old(self).allocated().len() >= old(self).max(),
            r is Err ==> r == Err::<IpAddress, IpamError>(IpamError::RangeFull)
                && final(self).allocated() == old(self).allocated(),
            r matches Ok(ip) ==> exists|o: int|
                0 <= o < old(self).max() && !old(self).allocated().contains(o) && ip
                    == #[trigger] old(self).ip_at(o) && final(self).allocated() == old(
                    self,
                ).allocated().insert(o),
    {
        let offset = match self.alloc.allocate_next() {
            Some(o) => o,
            None => return Err(IpamError::RangeFull),
        };
        let ip = self.offset_to_ip(offset);
        assert(ip == old(self).ip_at(offset as int));
        Ok(ip)
    }

    /// Frees `ip`; addresses outside the range or not allocated are left
    /// alone.
    pub fn release(&mut self, ip: IpAddress)
        requires
            old(self).wf(),
        ensures
            final(self).wf(),
            final(self).net() == old(self).net(),
            final(self).base() == old(self).base(),
            final(self).max() == old(self).max(),
            final(self).allocated() == match old(self).offset_of(ip) {
                Some(o) => old(self).allocated().remove(o),
                None => old(self).allocated(),
            },
    {
        if let Some(offset) = self.contains(ip) {
            self.alloc.release(offset);
        }
    }

    /// The allocated addresses, in ascending order.
    pub fn for_each(&self) -> (r: Vec<IpAddress>)
        requires
            self.wf(),
        ensures
            self.lists_allocated(r@),
    {
        let offsets = self.alloc.for_each();
        let mut out: Vec<IpAddress> = Vec::new();
        let mut i: usize = 0;
        while i < offsets.len()
            invariant
                self.wf(),
                i <= offsets@.len(),
                out@.len() == i,
                forall|k: int|
                    0 <= k < offsets@.len() ==> self.allocated().contains(
                        #[trigger] offsets@[k] as int,
                    ),
                forall|k: int|
                    0 <= k < i ==> out@[k] == self.ip_at(#[trigger] offsets@[k] as int)
                        && out@[k].value() == self.base() + offsets@[k],
            decreases offsets@.len() - i,
        {
            let o = offsets[i];
            proof {
                self.lemma_offsets_below_max(o as int);
                self.lemma_offset_round_trip(o as int);
            }
            let ip = self.offset_to_ip(o);
            out.push(ip);
            i = i + 1;
        }
        proof {
            assert forall|k: int| 0 <= k < out@.len() implies self.is_allocated_ip(
                #[trigger] out@[k],
            ) by {
                assert(out@[k] == self.ip_at(offsets@[k] as int));
            }
            assert forall|o: int| self.allocated().contains(o) implies exists|k: int|
                0 <= k < out@.len() && out@[k] == #[trigger] self.ip_at(o) by {
                let k = choose|k: int| 0 <= k < offsets@.len() && offsets@[k] == o;
                assert(out@[k] == self.ip_at(offsets@[k] as int));
            }
            assert forall|a: int, b: int| 0 <= a < b < out@.len() implies out@[a].value()
                < out@[b].value() by {
                assert(offsets@[a] < offsets@[b]);
            }
        }
        out
    }

    proof fn lemma_offsets_below_max(self, o: int)
        requires
            self.wf(),
            self.allocated().contains(o),
        ensures
            0 <= o < self.max(),
    {
        self.alloc.lemma_view_in_range(o);
    }

    /// The allocated addresses by pool, and a status line
    /// `<allocated>/<host count> allocated from <block>`. All addresses
    /// are in the default pool, each with an empty owner.
    pub fn dump(&self) -> (r: (Vec<(String, Vec<(String, String)>)>, String))
        requires
            self.wf(),
            !(self.net().is_v6() && self.net().prefix() == 0),
        ensures
            r.0@.len() == 1,
            r.0@[0].0@ == POOL_DEFAULT@,
            exists|ips: Seq<IpAddress>|
                #[trigger] self.lists_allocated(ips) && r.0@[0].1@.len() == ips.len() && forall|k: int|
                    0 <= k < ips.len() ==> r.0@[0].1@[k].0@ == ip_text(#[trigger] ips[k])
                        && r.0@[0].1@[k].1@ == Seq::<char>::empty(),
            r.1@ == decimal(self.allocated().len()) + "/"@ + decimal(host_count(self.net()) as nat)
                + " allocated from "@ + cidr_text(self.net()),
    {
        let ips = self.for_each();
        let texts = ip_texts(&ips);
        let status = status_line(texts.len(), count_ips_in_cidr(&self.net), &self.net);
        let mut entries: Vec<(String, String)> = Vec::new();
        let mut i: usize = 0;
        while i < texts.len()
            invariant
                i <= texts@.len(),
                entries@.len() == i,
                forall|k: int|
                    0 <= k < i ==> (#[trigger] entries@[k]).0@ == texts@[k]@ && entries@[k].1@
                        == Seq::<char>::empty(),
            decreases texts.len() - i,
        {
            let t = owned(texts[i].as_str());
            entries.push((t, String::new()));
            i = i + 1;
        }
        let mut pools: Vec<(String, Vec<(String, String)>)> = Vec::new();
        pools.push((owned(POOL_DEFAULT), entries));
        let r = (pools, status);
        proof {
            assert(self.lists_allocated(ips@));
        }
        r
    }

    /// Whether `ip` is allocated.
    pub fn has(&self, ip: IpAddress) -> (r: bool)
        requires
            self.wf(),
        ensures
            r == match self.offset_of(ip) {
                Some(o) => self.allocated().contains(o),
                None => false,
            },
    {
        match self.contains(ip) {
            Some(offset) => self.alloc.has(offset),
            None => false,
        }
    }

    /// Number of allocated addresses.
    pub fn used(&self) -> (r: usize)
        requires
            self.wf(),
        ensures
            r == self.allocated().len(),
    {
        proof {
            self.alloc.lemma_len_le_capacity();
        }
        self.max - self.free()
    }

    /// Number of free addresses.
    pub fn free(&self) -> (r: usize)
        requires
            self.wf(),
        ensures
            r == self.max() - self.allocated().len(),
    {
        self.alloc.free()
    }

    /// The numeric value of the first allocatable address.
    pub fn base_value(&self) -> (r: u128)
        ensures
            r == self.base(),
    {
        self.base
    }

    /// The number of allocatable addresses.
    pub fn range_len(&self) -> (r: usize)
        ensures
            r == self.max(),
    {
        self.max
    }

    /// Number of host addresses of the block (uncapped, unlike the
    /// allocator itself), reduced modulo 2^64.
    pub fn capacity(&self) -> (r: u64)
        requires
            self.wf(),
            !(self.net().is_v6() && self.net().prefix() == 0),
        ensures
            r == host_count(self.net()) % 0x1_0000_0000_0000_0000,
    {
        let c = count_ips_in_cidr(&self.net);
        (c % 0x1_0000_0000_0000_0000) as u64
    }
}

/// The text of each address.
fn ip_texts(ips: &Vec<IpAddress>) -> (r: Vec<String>)
    ensures
        r@.len() == ips@.len(),
        forall|k: int| 0 <= k < ips@.len() ==> r@[k]@ == ip_text(#[trigger] ips@[k]),
{
    let mut texts: Vec<String> = Vec::new();
    let mut i: usize = 0;
    while i < ips.len()
        invariant
            i <= ips@.len(),
            texts@.len() == i,
            forall|k: int| 0 <= k < i ==> texts@[k]@ == ip_text(#[trigger] ips@[k]),
        decreases ips@.len() - i,
    {
        let t = ip_to_string(ips[i]);
        texts.push(t);
        i = i + 1;
    }
    texts
}

/// `<used>/<total> allocated from <block>`.
fn status_line(used: usize, total: u128, net: &Cidr) -> (r: String)
    requires
        net.wf(),
    ensures
        r@ == decimal(used as nat) + "/"@ + decimal(total as nat) + " allocated from "@ + cidr_text(
            *net,
        ),
{
    let mut status = decimal_string(used as u128);
    status.append("/");
    let t = decimal_string(total);
    status.append(t.as_str());
    status.append(" allocated from ");
    let n = cidr_to_string(net);
    status.append(n.as_str());
    status
}

/// Number of host addresses of a block: its size minus the network and
/// broadcast addresses, zero for a single address. Not defined for the
/// whole IPv6 space (`::/0`), whose size does not fit 128 bits.
pub fn count_ips_in_cidr(n: &Cidr) -> (r: u128)
    requires
        n.wf(),
        !(n.is_v6() && n.prefix() == 0),
    ensures
        r == host_count(*n),
{
    let ones = n.prefix_len() as u32;
    let bits = n.max_prefix_len() as u32;
    if ones == bits {
        return 0;
    }
    proof {
        n.lemma_wf();
        lemma_two_pow_values();
        lemma_two_pow_mono(1, (bits - ones) as nat);
        assert(two_pow(1) == 2) by {
            reveal_with_fuel(two_pow, 2);
        }
    }
    two_pow_u128(bits - ones) - 2
}

/// Releasing an address right after allocating it gives back the
/// allocations as they were, and every allocated offset stands for an
/// address of the block that maps back to it.
pub proof fn law_host_release_undoes_allocate(a: HostScopeAllocator, ip: IpAddress, o: int)
    requires
        a.wf(),
        a.offset_of(ip) == Some(o),
        !a.allocated().contains(o),
    ensures
        a.allocated().insert(o).remove(o) == a.allocated(),
        forall|p: int| #[trigger] a.allocated().insert(o).contains(p) ==> a.net().contains_spec(a.ip_at(p)) && a.offset_of(a.ip_at(p)) == Some(p),
{
    assert(a.allocated().insert(o).remove(o) =~= a.allocated());
    a.lemma_allocated_bounded();
    assert forall|p: int| #[trigger] a.allocated().insert(o).contains(p) implies a.net().contains_spec(a.ip_at(p)) && a.offset_of(a.ip_at(p)) == Some(p) by {
        if p != o {
            assert(a.allocated().contains(p));
        }
        a.lemma_offset_round_trip(p);
    }
}

} // verus!
