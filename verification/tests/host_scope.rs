use sarena::host_scope::{HostScopeAllocator, count_ips_in_cidr};
use sarena::ip::{Cidr, IpAddress};
use sarena::ipam::IpamError;

fn cidr(s: &str) -> Cidr {
    Cidr::parse(s).unwrap()
}

fn ip(s: &str) -> IpAddress {
    let full = if s.contains(':') { format!("{s}/128") } else { format!("{s}/32") };
    cidr(&full).addr()
}

fn v4(prefix_len: u8) -> Cidr {
    Cidr::new(IpAddress::V4(0), prefix_len).unwrap()
}

fn v6(prefix_len: u8) -> Cidr {
    Cidr::new(IpAddress::V6(0), prefix_len).unwrap()
}

#[test]
fn ipv4_typical_prefixes() {
    assert_eq!(HostScopeAllocator::size(&v4(24)), 256);
    assert_eq!(HostScopeAllocator::size(&v4(16)), 65536);
    assert_eq!(HostScopeAllocator::size(&v4(8)), 16_777_216);
    assert_eq!(HostScopeAllocator::size(&v4(32)), 1);
    assert_eq!(HostScopeAllocator::size(&v4(30)), 4);
}

#[test]
fn ipv4_smallest_ranges_are_zero() {
    assert_eq!(HostScopeAllocator::size(&v4(1)), 0);
    assert_eq!(HostScopeAllocator::size(&v4(0)), 0);
}

#[test]
fn ipv6_is_capped_at_65536() {
    assert_eq!(HostScopeAllocator::size(&v6(112)), 65536);
    assert_eq!(HostScopeAllocator::size(&v6(64)), 65536);
    assert_eq!(HostScopeAllocator::size(&v6(128)), 1);
}

#[test]
fn ipv6_smallest_ranges_are_zero() {
    assert_eq!(HostScopeAllocator::size(&v6(1)), 0);
    assert_eq!(HostScopeAllocator::size(&v6(0)), 0);
}

#[test]
fn new_excludes_network_and_broadcast_for_slash_24() {
    let mut r = HostScopeAllocator::new(cidr("10.0.0.0/24"));
    assert_eq!(r.free(), 254);
    assert_eq!(r.used(), 0);
    assert!(!r.has(ip("10.0.0.0")));
    assert!(!r.has(ip("10.0.0.255")));
    assert!(r.allocate(ip("10.0.0.0")).is_err(), "network address should be out of range");
    assert!(r.allocate(ip("10.0.0.255")).is_err(), "broadcast address should be out of range");
}

#[test]
fn slash_31_keeps_both_addresses() {
    let mut r = HostScopeAllocator::new(cidr("10.0.0.0/31"));
    assert_eq!(r.free(), 2);
    assert!(r.allocate(ip("10.0.0.0")).is_ok());
    assert!(r.allocate(ip("10.0.0.1")).is_ok());
}

#[test]
fn allocate_specific_ip_then_reject_reallocation() {
    let mut r = HostScopeAllocator::new(cidr("10.0.0.0/24"));
    let a = ip("10.0.0.5");
    assert!(r.allocate(a).is_ok());
    assert!(r.has(a));
    assert_eq!(r.used(), 1);
    assert_eq!(r.allocate(a), Err(IpamError::AlreadyAllocated));
}

#[test]
fn allocate_out_of_range_ip_fails() {
    let mut r = HostScopeAllocator::new(cidr("10.0.0.0/24"));
    let outside = ip("10.0.1.5");
    assert!(matches!(r.allocate(outside), Err(IpamError::NotInRange { .. })));
}

#[test]
fn allocate_next_returns_addresses_in_cidr_and_reports_full() {
    let net = cidr("10.0.0.0/30");
    let mut r = HostScopeAllocator::new(net);
    let a = r.allocate_next().unwrap();
    let b = r.allocate_next().unwrap();
    assert_ne!(a, b);
    assert!(net.contains(a) && net.contains(b));
    assert_eq!(r.allocate_next(), Err(IpamError::RangeFull));
}

#[test]
fn release_then_reuse() {
    let mut r = HostScopeAllocator::new(cidr("10.0.0.0/30"));
    let a = r.allocate_next().unwrap();
    r.release(a);
    assert_eq!(r.free(), 2);
    assert!(!r.has(a));
}

#[test]
fn release_unallocated_ip_is_a_noop() {
    let mut r = HostScopeAllocator::new(cidr("10.0.0.0/24"));
    r.release(ip("10.0.0.5"));
    assert_eq!(r.used(), 0);
}

#[test]
fn for_each_visits_all_allocated_ips() {
    let mut r = HostScopeAllocator::new(cidr("10.0.0.0/29"));
    let a = r.allocate_next().unwrap();
    let b = r.allocate_next().unwrap();

    let mut seen: Vec<u128> = r.for_each().into_iter().map(|x| x.to_u128()).collect();
    seen.sort();
    let mut want = [a.to_u128(), b.to_u128()];
    want.sort();
    assert_eq!(seen, want);
}

#[test]
fn ipv6_range_allocates() {
    let mut r = HostScopeAllocator::new(cidr("fd00::/120"));
    let a = r.allocate_next().unwrap();
    assert!(matches!(a, IpAddress::V6(_)));
    assert!(r.has(a));
}

#[test]
fn new_cidr_range_base_and_max_match_reference_cases() {
    let cases: &[(&str, &str, usize)] = &[
        ("192.168.0.1/27", "192.168.0.1", 30),
        ("192.168.0.1/31", "192.168.0.0", 2),
        ("192.168.0.1/32", "192.168.0.1", 1),
        ("2001:db8::1/64", "2001:db8::1", 65534),
        ("2001:db8::1/120", "2001:db8::1", 254),
        ("2001:db8::1/127", "2001:db8::0", 2),
        ("2001:db8::1/128", "2001:db8::1", 1),
    ];

    for (net, want_base, want_max) in cases {
        let r = HostScopeAllocator::new(cidr(net));
        assert_eq!(r.base_value(), ip(want_base).to_u128(), "base for {net}");
        assert_eq!(r.range_len(), *want_max, "max for {net}");
    }
}

#[test]
fn range_size_reference_cases() {
    let cases: &[(&str, u64)] = &[
        ("192.168.0.0/27", 32),
        ("192.168.0.0/32", 1),
        ("2001:db8::/64", 65536),
        ("2001:db8::/120", 256),
        ("2001:db8::/128", 1),
    ];

    for (net, want) in cases {
        assert_eq!(HostScopeAllocator::size(&cidr(net)), *want, "size for {net}");
    }
}

#[test]
fn allocate_specific_ip() {
    let mut a = HostScopeAllocator::new(cidr("10.0.0.0/24"));
    let x = ip("10.0.0.5");
    let result = a.allocate(x).unwrap();
    assert_eq!(result, x);
    assert_eq!(a.allocate(x), Err(IpamError::AlreadyAllocated));
}

#[test]
fn allocate_next_then_release_then_reuse() {
    let mut a = HostScopeAllocator::new(cidr("10.0.0.0/30"));

    let first = a.allocate_next().unwrap();
    let second = a.allocate_next().unwrap();
    assert_ne!(first, second);
    assert_eq!(a.allocate_next(), Err(IpamError::RangeFull));

    a.release(first);
    let reused = a.allocate_next().unwrap();
    assert_eq!(reused, first);
}

#[test]
fn allocate_without_sync_upstream_behaves_like_allocate() {
    let mut a = HostScopeAllocator::new(cidr("10.0.0.0/24"));
    let x = ip("10.0.0.5");
    let result = a.allocate(x).unwrap();
    assert_eq!(result, x);
}

#[test]
fn allocate_next_without_sync_upstream_behaves_like_allocate_next() {
    let mut a = HostScopeAllocator::new(cidr("10.0.0.0/30"));
    let result = a.allocate_next().unwrap();
    assert!(a.has(result));
}

#[test]
fn dump_reports_allocated_ips_under_the_default_pool() {
    let mut a = HostScopeAllocator::new(cidr("10.0.0.0/29"));
    let first = a.allocate_next().unwrap();
    let second = a.allocate_next().unwrap();

    let (by_pool, status) = a.dump();
    assert_eq!(by_pool.len(), 1);
    assert_eq!(by_pool[0].0, "default");
    let default_pool_alloc = &by_pool[0].1;
    assert_eq!(default_pool_alloc.len(), 2);
    let text = |x: IpAddress| sarena::ip::ip_to_string(x);
    assert!(default_pool_alloc.contains(&(text(first), String::new())));
    assert!(default_pool_alloc.contains(&(text(second), String::new())));
    assert_eq!(status, "2/6 allocated from 10.0.0.0/29");
}

#[test]
fn count_ips_in_cidr_reference_cases() {
    let cases: &[(&str, u128)] = &[
        ("10.0.0.0/24", 254),
        ("10.0.0.0/29", 6),
        ("10.0.0.0/31", 0),
        ("10.0.0.0/32", 0),
        ("2001:db8::/64", 18_446_744_073_709_551_614),
        ("2001:db8::/120", 254),
        ("2001:db8::/128", 0),
    ];

    for (net, want) in cases {
        assert_eq!(count_ips_in_cidr(&cidr(net)), *want, "count_ips_in_cidr for {net}");
    }
}

#[test]
fn capacity_matches_the_allocators_usable_size_for_typical_ipv4_cidrs() {
    let a = HostScopeAllocator::new(cidr("10.0.0.0/24"));
    assert_eq!(a.capacity(), 254);
    assert_eq!(a.free() as u64, a.capacity());
}

#[test]
fn capacity_uncapped_diverges_from_the_allocators_65536_ipv6_bitmap_cap() {
    let a = HostScopeAllocator::new(cidr("2001:db8::/64"));
    assert_eq!(a.free(), 65534);
    assert_eq!(a.capacity(), 18_446_744_073_709_551_614);
}

#[test]
fn capacity_is_zero_for_a_single_address_cidr_even_though_its_allocatable() {
    let a = HostScopeAllocator::new(cidr("10.0.0.0/32"));
    assert_eq!(a.capacity(), 0);
    assert_eq!(a.free(), 1);
}

#[test]
fn ipv6_dump_prints_compressed_addresses() {
    let mut a = HostScopeAllocator::new(cidr("fd00::/126"));
    a.allocate(ip("fd00::2")).unwrap();
    let (by_pool, status) = a.dump();
    assert_eq!(by_pool, vec![("default".to_string(), vec![("fd00::2".to_string(), String::new())])]);
    assert_eq!(status, "1/2 allocated from fd00::/126");
}
