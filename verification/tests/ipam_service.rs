use sarena::ip::{Cidr, IpAddress, ip_to_string};
use sarena::ipam::{DefaultIpamService, Family, IpamError, POOL_DEFAULT};

fn cidr(s: &str) -> Cidr {
    Cidr::parse(s).unwrap()
}

fn ip(s: &str) -> IpAddress {
    let full = if s.contains(':') { format!("{s}/128") } else { format!("{s}/32") };
    cidr(&full).addr()
}

fn gateway_ip() -> IpAddress {
    ip("10.0.0.5")
}

fn state_with_ipv4(net: &str) -> DefaultIpamService {
    DefaultIpamService::new(gateway_ip(), Some(cidr(net)), None)
}

fn state_none() -> DefaultIpamService {
    DefaultIpamService::new(gateway_ip(), None, None)
}

fn lookup<'a>(entries: &'a [(String, String)], key: &str) -> Option<&'a String> {
    entries.iter().find(|(k, _)| k == key).map(|(_, v)| v)
}

#[test]
fn state_register_then_get_ip_owner() {
    let mut state = state_with_ipv4("10.0.0.0/29");
    state.register_ip_owner(ip("10.0.0.1"), "pod-a", "default");
    assert_eq!(state.get_ip_owner(ip("10.0.0.1"), "default"), "pod-a");
}

#[test]
fn state_get_ip_owner_unregistered_is_empty() {
    let state = state_with_ipv4("10.0.0.0/29");
    assert_eq!(state.get_ip_owner(ip("10.0.0.1"), "default"), "");
}

#[test]
fn state_release_ip_owner_removes_entry_and_returns_previous_owner() {
    let mut state = state_with_ipv4("10.0.0.0/29");
    let a = ip("10.0.0.1");
    state.register_ip_owner(a, "pod-a", "default");

    assert_eq!(state.release_ip_owner(a, "default"), "pod-a");
    assert_eq!(state.get_ip_owner(ip("10.0.0.1"), "default"), "");
    assert!(!state.has_pool("default"));
}

#[test]
fn state_release_ip_owner_unregistered_returns_empty_and_does_not_panic() {
    let mut state = state_with_ipv4("10.0.0.0/29");
    assert_eq!(state.release_ip_owner(ip("10.0.0.1"), "default"), "");
}

#[test]
fn state_release_ip_owner_keeps_pool_entry_if_other_ips_remain() {
    let mut state = state_with_ipv4("10.0.0.0/29");
    state.register_ip_owner(ip("10.0.0.1"), "pod-a", "default");
    state.register_ip_owner(ip("10.0.0.2"), "pod-b", "default");

    state.release_ip_owner(ip("10.0.0.1"), "default");
    assert!(state.has_pool("default"));
    assert_eq!(state.get_ip_owner(ip("10.0.0.2"), "default"), "pod-b");
}

#[test]
fn state_release_ip_locked_returns_disabled_error_when_family_unconfigured() {
    let mut state = state_none();
    assert_eq!(
        state.release_ip_locked(ip("10.0.0.1"), "default"),
        Err(IpamError::Ipv4Disabled)
    );
    assert_eq!(
        state.release_ip_locked(ip("fd00::1"), "default"),
        Err(IpamError::Ipv6Disabled)
    );
}

#[test]
fn state_release_ip_locked_frees_allocator_and_clears_owner() {
    let mut state = state_with_ipv4("10.0.0.0/29");
    let a = ip("10.0.0.1");
    state.allocate_ip(a, "pod-a", "default").unwrap();

    state.release_ip_locked(a, "default").unwrap();

    assert_eq!(state.get_ip_owner(a, "default"), "");
    state.allocate_ip(a, "pod-b", "default").unwrap();
}

#[test]
fn allocate_ip_specific_address_then_reject_reallocation() {
    let mut svc = DefaultIpamService::new(gateway_ip(), Some(cidr("10.0.0.0/29")), None);
    let a = ip("10.0.0.1");

    let result = svc.allocate_ip(a, "pod-a", "default").unwrap();
    assert_eq!(result.ip, a);
    assert_eq!(result.ip_pool_name, POOL_DEFAULT);
    assert_eq!(svc.allocate_ip(a, "pod-b", "default"), Err(IpamError::AlreadyAllocated));
}

#[test]
fn allocate_ip_requires_non_empty_pool() {
    let mut svc = DefaultIpamService::new(gateway_ip(), Some(cidr("10.0.0.0/29")), None);
    let a = ip("10.0.0.1");
    assert_eq!(
        svc.allocate_ip(a, "pod-a", ""),
        Err(IpamError::PoolRequiredForAllocate(ip_to_string(a), "pod-a".to_string()))
    );
}

#[test]
fn allocate_ip_ipv4_disabled_when_not_configured() {
    let mut svc = DefaultIpamService::new(gateway_ip(), None, Some(cidr("fd00::/125")));
    assert_eq!(
        svc.allocate_ip(ip("10.0.0.1"), "pod-a", "default"),
        Err(IpamError::Ipv4Disabled)
    );
}

#[test]
fn allocate_ip_ipv6_disabled_when_not_configured() {
    let mut svc = DefaultIpamService::new(gateway_ip(), Some(cidr("10.0.0.0/29")), None);
    assert_eq!(
        svc.allocate_ip(ip("fd00::1"), "pod-a", "default"),
        Err(IpamError::Ipv6Disabled)
    );
}

#[test]
fn allocate_ip_excluded_ip_is_rejected() {
    let mut svc = DefaultIpamService::new(gateway_ip(), Some(cidr("10.0.0.0/29")), None);
    let a = ip("10.0.0.1");
    svc.exclude_ip(a, "reserved-owner", "default");

    assert_eq!(
        svc.allocate_ip(a, "pod-a", "default"),
        Err(IpamError::ExcludedError(ip_to_string(a), "reserved-owner".to_string()))
    );
}

#[test]
fn allocate_next_defaults_to_both_families_when_none_requested() {
    let mut svc = DefaultIpamService::new(
        gateway_ip(),
        Some(cidr("10.0.0.0/29")),
        Some(cidr("fd00::/125")),
    );
    let (v4, v6) = svc.allocate_next(None, "pod-a", "default").unwrap();
    assert!(v4.is_some());
    assert!(v6.is_some());
}

#[test]
fn allocate_next_family_ipv4_only() {
    let mut svc = DefaultIpamService::new(
        gateway_ip(),
        Some(cidr("10.0.0.0/29")),
        Some(cidr("fd00::/125")),
    );
    let (v4, v6) = svc.allocate_next(Some(Family::Ipv4), "pod-a", "default").unwrap();
    assert!(v4.is_some());
    assert!(v6.is_none());
}

#[test]
fn allocate_next_family_ipv6_only() {
    let mut svc = DefaultIpamService::new(
        gateway_ip(),
        Some(cidr("10.0.0.0/29")),
        Some(cidr("fd00::/125")),
    );
    let (v4, v6) = svc.allocate_next(Some(Family::Ipv6), "pod-a", "default").unwrap();
    assert!(v4.is_none());
    assert!(v6.is_some());
}

#[test]
fn allocate_next_silently_skips_explicitly_requested_but_unconfigured_family() {
    let mut svc = DefaultIpamService::new(gateway_ip(), None, Some(cidr("fd00::/125")));
    assert_eq!(
        svc.allocate_next(Some(Family::Ipv4), "pod-a", "default"),
        Ok((None, None))
    );
}

#[test]
fn allocate_next_silently_skips_unconfigured_family_when_none_requested() {
    let mut svc = DefaultIpamService::new(gateway_ip(), Some(cidr("10.0.0.0/29")), None);
    let (v4, v6) = svc.allocate_next(None, "pod-a", "default").unwrap();
    assert!(v4.is_some());
    assert!(v6.is_none());
}

#[test]
fn allocate_next_rolls_back_ipv6_when_ipv4_allocation_fails() {
    let mut svc = DefaultIpamService::new(
        gateway_ip(),
        Some(cidr("10.0.0.1/32")),
        Some(cidr("fd00::/125")),
    );
    svc.allocate_ip(ip("10.0.0.1"), "pod-pre", "default").unwrap();

    let result = svc.allocate_next(None, "pod-a", "default");
    assert_eq!(result, Err(IpamError::RangeFull));

    let (allocv4, allocv6, _status) = svc.dump();
    assert_eq!(allocv4.len(), 1);
    assert!(allocv6.is_empty());
}

#[test]
fn allocate_next_skips_excluded_ip_and_consumes_it() {
    let mut svc = DefaultIpamService::new(gateway_ip(), Some(cidr("10.0.0.0/30")), None);
    svc.exclude_ip(ip("10.0.0.1"), "reserved", "default");
    let (v4, _) = svc.allocate_next(Some(Family::Ipv4), "pod-a", "default").unwrap();
    assert_eq!(v4.unwrap().ip, ip("10.0.0.2"));
    assert_eq!(
        svc.allocate_next(Some(Family::Ipv4), "pod-b", "default"),
        Err(IpamError::RangeFull)
    );
}

#[test]
fn release_ip_requires_non_empty_pool() {
    let mut svc = DefaultIpamService::new(gateway_ip(), Some(cidr("10.0.0.0/29")), None);
    let a = ip("10.0.0.1");
    assert_eq!(
        svc.release_ip(a, ""),
        Err(IpamError::PoolRequiredForRelease(ip_to_string(a)))
    );
}

#[test]
fn release_ip_frees_capacity_and_clears_owner() {
    let mut svc = DefaultIpamService::new(gateway_ip(), Some(cidr("10.0.0.0/29")), None);
    let a = ip("10.0.0.1");
    svc.allocate_ip(a, "pod-a", "default").unwrap();
    svc.release_ip(a, "default").unwrap();
    let (allocv4, _, _) = svc.dump();
    assert!(allocv4.is_empty());
    svc.allocate_ip(a, "pod-b", "default").unwrap();
}

#[test]
fn release_ip_disabled_family() {
    let mut svc = DefaultIpamService::new(gateway_ip(), None, None);
    assert_eq!(svc.release_ip(ip("10.0.0.1"), "default"), Err(IpamError::Ipv4Disabled));
    assert_eq!(svc.release_ip(ip("fd00::1"), "default"), Err(IpamError::Ipv6Disabled));
}

#[test]
fn dump_reports_dead_branch_status_when_nothing_configured() {
    let svc = DefaultIpamService::new(gateway_ip(), None, None);
    let (allocv4, allocv6, status) = svc.dump();
    assert!(allocv4.is_empty());
    assert!(allocv6.is_empty());
    assert_eq!(status, ", ");
}

#[test]
fn dump_reports_allocated_ip_with_owner_under_default_pool() {
    let mut svc = DefaultIpamService::new(gateway_ip(), Some(cidr("10.0.0.0/29")), None);
    svc.allocate_ip(ip("10.0.0.1"), "pod-a", "default").unwrap();

    let (allocv4, allocv6, status) = svc.dump();
    assert_eq!(lookup(&allocv4, "10.0.0.1"), Some(&"pod-a".to_string()));
    assert!(allocv6.is_empty());
    assert_eq!(status, "IPv4: 1/6 allocated from 10.0.0.0/29, ");
}

#[test]
fn dump_owner_lookup_misses_for_non_default_pool_with_hostscope_allocator() {
    let mut svc = DefaultIpamService::new(gateway_ip(), Some(cidr("10.0.0.0/29")), None);
    svc.allocate_ip(ip("10.0.0.1"), "pod-a", "custom-pool").unwrap();

    let (allocv4, _, _) = svc.dump();
    assert_eq!(lookup(&allocv4, "10.0.0.1"), Some(&String::new()));
}

#[test]
fn allocate_by_family_text_answers_with_gateway_and_pool() {
    let mut svc = DefaultIpamService::new(gateway_ip(), Some(cidr("10.0.0.0/30")), None);
    let resp = svc
        .allocate(Some("ipv4".to_string()), Some("pod-a".to_string()), None, false)
        .unwrap();
    assert_eq!(resp.host_addressing.ipv4, Some("10.0.0.5".to_string()));
    assert_eq!(resp.host_addressing.ipv6, None);
    let c = resp.ipv4.unwrap();
    assert!(c.ip == "10.0.0.1" || c.ip == "10.0.0.2");
    assert_eq!(c.pool, Some(POOL_DEFAULT.to_string()));
    assert!(resp.ipv6.is_none());
}

#[test]
fn allocate_with_an_empty_pool_cannot_determine_the_pool() {
    let mut svc = DefaultIpamService::new(gateway_ip(), Some(cidr("10.0.0.0/30")), None);
    let e = svc
        .allocate(None, Some("pod-a".to_string()), Some(String::new()), false)
        .unwrap_err();
    assert_eq!(e, IpamError::PoolDeterminationUnavailable("pod-a".to_string()));
    assert_eq!(
        e.message(),
        "unable to determine IPAM pool for owner \"pod-a\": automatic pool determination is not implemented"
    );
}

#[test]
fn release_without_pool_uses_the_default_pool() {
    let mut svc = DefaultIpamService::new(gateway_ip(), Some(cidr("10.0.0.0/29")), None);
    let a = ip("10.0.0.3");
    svc.allocate_ip(a, "pod-a", "default").unwrap();
    svc.release(a, None).unwrap();
    assert_eq!(svc.get_ip_owner(a, "default"), "");
}

#[test]
fn ipam_error_messages() {
    assert_eq!(IpamError::RangeFull.message(), "range is full");
    assert_eq!(
        IpamError::ExcludedError("10.0.0.1".into(), "x".into()).message(),
        "IP 10.0.0.1 is excluded, owned by x"
    );
    assert_eq!(
        IpamError::NotInRange { valid_range: "10.0.0.0/24".into() }.message(),
        "provided IP is not in the valid range. The range of valid IPs is 10.0.0.0/24"
    );
}

#[test]
fn handed_out_address_cannot_be_allocated_again() {
    let mut svc = DefaultIpamService::new(gateway_ip(), Some(cidr("10.0.0.0/29")), None);
    let (v4, _) = svc.allocate_next(Some(Family::Ipv4), "pod-a", "default").unwrap();
    let got = v4.unwrap().ip;
    assert_eq!(svc.allocate_ip(got, "pod-b", "default"), Err(IpamError::AlreadyAllocated));
    assert_eq!(svc.get_ip_owner(got, "default"), "pod-a");
    svc.release_ip(got, "default").unwrap();
    assert!(svc.allocate_ip(got, "pod-b", "default").is_ok());
}

#[test]
fn remaining_ipam_error_messages() {
    assert_eq!(IpamError::Ipv4Disabled.message(), "IPv4 is disabled");
    assert_eq!(IpamError::Ipv6Disabled.message(), "IPv6 is disabled");
    assert_eq!(
        IpamError::PoolRequiredForAllocate("10.0.0.1".into(), "pod".into()).message(),
        "unable to restore IP 10.0.0.1 for \"pod\": pool name must be provided"
    );
    assert_eq!(
        IpamError::PoolRequiredForRelease("10.0.0.1".into()).message(),
        "no IPAM pool provided for IP release of 10.0.0.1"
    );
    assert_eq!(IpamError::AlreadyAllocated.message(), "provided IP is already allocated");
    assert_eq!(
        IpamError::MismatchedNetwork.message(),
        "the provided network does not match the current range"
    );
}
