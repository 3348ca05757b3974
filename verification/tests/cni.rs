use sarena::cni::{
    AddAction, AddStage, add_next, add_start, end_lease,
    CniError, CniInterface, CniIpConfig, CniRequest, CniRoute, IpamLease, RouteSpec, add_target,
    add_result, container_ip_config, convert_to_cni_routes, endpoint_id,
    check_interface_addresses, check_host_addressing, check_target, configured_families,
    health_verdict, netconf_loaded, pod_name, request_target, split_cni_args,
};
use sarena::ip::Cidr;
use sarena::ipam::{ContainerAddressing, HostAddressing, IpamAllocateResponse};
use sarena::services::EndpointHealthStatus;

fn req(netns: bool, ifname: bool, cid: bool, config: bool, prev: bool) -> CniRequest {
    CniRequest {
        netns: if netns { Some("/var/run/netns/x".to_string()) } else { None },
        ifname: if ifname { Some("eth0".to_string()) } else { None },
        container_id: if cid { Some("c1".to_string()) } else { None },
        has_config: config,
        has_prev_result: prev,
    }
}

fn invalid(m: &str) -> CniError {
    CniError::InvalidNetworkConfig(m.to_string())
}

#[test]
fn requests_need_namespace_interface_and_container() {
    assert_eq!(request_target(&req(false, true, true, true, false)).unwrap_err(), invalid("missing CNI_NETNS"));
    assert_eq!(request_target(&req(true, false, true, true, false)).unwrap_err(), invalid("missing CNI_IFNAME"));
    assert_eq!(
        request_target(&req(true, true, false, true, false)).unwrap_err(),
        invalid("missing CNI_CONTAINERID")
    );
    let t = request_target(&req(true, true, true, true, false)).unwrap();
    assert_eq!(t.ifname, "eth0");
    assert_eq!(t.container_id, "c1");
    assert_eq!(t.netns, "/var/run/netns/x");
}

#[test]
fn add_refuses_chaining_and_check_needs_a_previous_result() {
    assert_eq!(
        add_target(&req(true, true, true, true, true)).unwrap_err(),
        invalid("chaining is currently not supported")
    );
    assert!(add_target(&req(true, true, true, true, false)).is_ok());
    assert_eq!(check_target(&req(true, true, true, false, false)).unwrap_err(), invalid("missing NetConf"));
    assert_eq!(
        check_target(&req(true, true, true, true, false)).unwrap_err(),
        invalid("NetConf does not have a prev_result")
    );
    assert!(check_target(&req(true, true, true, true, true)).is_ok());
    assert_eq!(netconf_loaded(&req(true, true, true, false, false)).unwrap_err(), invalid("failed to load netconf"));
}

#[test]
fn cni_args_split_into_pairs() {
    assert_eq!(split_cni_args(None), Ok(None));
    assert_eq!(split_cni_args(Some("  \t")), Ok(None));
    assert_eq!(
        split_cni_args(Some("IgnoreUnknown=1;K8S_POD_NAME=web=1")),
        Ok(Some(vec![
            ("IgnoreUnknown".to_string(), "1".to_string()),
            ("K8S_POD_NAME".to_string(), "web=1".to_string())
        ]))
    );
    assert_eq!(
        split_cni_args(Some("a=1;")),
        Err(invalid("ARGS: missing value in ''"))
    );
    assert_eq!(split_cni_args(Some("a=1;b")), Err(invalid("ARGS: missing value in 'b'")));
}

#[test]
fn pod_names_and_allocation_answers() {
    assert_eq!(pod_name("kube-system", "coredns"), "kube-system/coredns");
    let resp = IpamAllocateResponse {
        host_addressing: HostAddressing { ipv4: None, ipv6: None },
        ipv4: Some(ContainerAddressing { ip: "10.0.0.2".into(), pool: None }),
        ipv6: None,
    };
    assert_eq!(
        check_host_addressing(&resp),
        Err(CniError::PluginNotAvailable("ipam should return valid host addressing".into()))
    );
    assert_eq!(configured_families(&resp), (false, false));
    let resp = IpamAllocateResponse {
        host_addressing: HostAddressing { ipv4: Some("10.0.0.1".into()), ipv6: Some("fd00::1".into()) },
        ..resp
    };
    assert!(check_host_addressing(&resp).is_ok());
    assert_eq!(configured_families(&resp), (true, false));
}

#[test]
fn unhealthy_endpoints_fail_the_check() {
    assert!(health_verdict(EndpointHealthStatus::Healthy).is_ok());
    assert_eq!(
        health_verdict(EndpointHealthStatus::Failure),
        Err(CniError::Custom(100, "unhealthy".into(), "container is unhealthy in agent".into()))
    );
}

#[test]
fn interface_must_carry_every_previous_address() {
    let ifaces = vec![
        CniInterface { name: "lxc1".into(), mac: String::new(), sandbox: None },
        CniInterface { name: "eth0".into(), mac: String::new(), sandbox: Some("/var/run/netns/x".into()) },
    ];
    let ips = vec![
        CniIpConfig { interface: Some(1), address: "10.0.0.2/32".into(), gateway: None },
        CniIpConfig { interface: Some(0), address: "10.0.0.9/32".into(), gateway: None },
    ];
    let present = vec![Cidr::parse("10.0.0.2/32").unwrap()];
    assert!(check_interface_addresses("eth0", &ifaces, &ips, &present).is_ok());
    assert_eq!(
        check_interface_addresses("eth0", &ifaces, &ips, &[].to_vec()),
        Err(invalid("expected ip 10.0.0.2/32 on interface eth0"))
    );
    let bad = vec![CniIpConfig { interface: Some(1), address: "nonsense".into(), gateway: None }];
    assert_eq!(
        check_interface_addresses("eth0", &ifaces, &bad, &present),
        Err(invalid("could not parse interface address: invalid IP address syntax"))
    );
    assert!(check_interface_addresses("eth1", &ifaces, &bad, &present).is_ok());
}

#[test]
fn failed_adds_release_their_lease() {
    let a = ContainerAddressing { ip: "10.0.0.2".into(), pool: Some("default".into()) };
    let b = ContainerAddressing { ip: "fd00::2".into(), pool: None };
    let lease = IpamLease::new(Some(a.clone()), Some(b.clone()));
    assert_eq!(lease.into_releases(), vec![a.clone(), b]);
    let mut kept = IpamLease::new(Some(a), None);
    kept.keep = true;
    assert!(kept.into_releases().is_empty());
}

#[test]
fn garbage_collection_has_nothing_to_do() {
    assert!(sarena::cni::SarenaPlugin.gc().is_ok());
    assert_eq!(sarena::cni::ArgsSpec::default().k8s_pod_name, "");
}

#[test]
fn routes_and_endpoint_ids_in_cni_form() {
    assert_eq!(endpoint_id("abc", "eth0"), "abc:eth0");
    let routes = vec![
        RouteSpec {
            prefix: Cidr::parse("10.0.0.1/32").unwrap(),
            mtu: Some(1500),
            nexthop: None,
        },
        RouteSpec {
            prefix: Cidr::parse("0.0.0.0/0").unwrap(),
            mtu: None,
            nexthop: Some(sarena::ip::IpAddress::V4(0x0a00_0001)),
        },
    ];
    assert_eq!(
        convert_to_cni_routes(&routes),
        vec![
            CniRoute { dst: "10.0.0.1/32".into(), mtu: Some(1500), gw: None },
            CniRoute { dst: "0.0.0.0/0".into(), mtu: None, gw: Some("10.0.0.1".into()) },
        ]
    );
}

#[test]
fn an_added_result_passes_its_own_check() {
    let ip = container_ip_config("10.0.0.2/32", "10.0.0.1");
    assert_eq!(ip.interface, Some(1));
    let r = add_result("lxcabc", "0a:00:00:00:00:01", "eth0", "0a:00:00:00:00:02", "/var/run/netns/x", vec![ip], vec![]);
    assert_eq!(r.interfaces.len(), 2);
    assert_eq!(r.interfaces[1].sandbox.as_deref(), Some("/var/run/netns/x"));
    let present = vec![Cidr::parse("10.0.0.2/32").unwrap()];
    assert!(check_interface_addresses("eth0", &r.interfaces, &r.ips, &present).is_ok());
    assert!(check_interface_addresses("eth0", &r.interfaces, &r.ips, &vec![]).is_err());
}

#[test]
fn add_runs_its_steps_in_order_and_releases_only_after_allocating() {
    let order = [
        AddStage::OpenNetns,
        AddStage::DeleteStaleLink,
        AddStage::ConnectDaemon,
        AddStage::ReadConfig,
        AddStage::Allocate,
        AddStage::CheckHostAddressing,
        AddStage::SetupVeth,
        AddStage::ConfigureIface,
        AddStage::CreateEndpoint,
    ];
    for w in order.windows(2) {
        assert_eq!(add_next(w[0], true), AddAction::Run(w[1]));
    }
    assert_eq!(add_next(AddStage::CreateEndpoint, true), AddAction::Finish);
    assert_eq!(add_next(AddStage::Allocate, false), AddAction::Abort { release_lease: false });
    assert_eq!(add_next(AddStage::ReadConfig, false), AddAction::Abort { release_lease: false });
    assert_eq!(add_next(AddStage::SetupVeth, false), AddAction::Abort { release_lease: true });
    assert_eq!(add_next(AddStage::CreateEndpoint, false), AddAction::Abort { release_lease: true });
}

#[test]
fn a_lease_is_kept_only_when_add_finishes() {
    let v4 = ContainerAddressing { ip: "10.0.0.2".to_string(), pool: Some("default".to_string()) };
    let v6 = ContainerAddressing { ip: "fd00::2".to_string(), pool: Some("default".to_string()) };
    let lease = IpamLease::new(Some(v4.clone()), Some(v6.clone()));
    assert!(end_lease(lease, AddAction::Finish).is_empty());
    let lease = IpamLease::new(Some(v4.clone()), Some(v6.clone()));
    assert_eq!(end_lease(lease, AddAction::Abort { release_lease: true }), vec![v4, v6]);
}

#[test]
fn a_refused_add_runs_no_step() {
    assert_eq!(add_start(&req(false, true, true, true, false)).unwrap_err(), invalid("missing CNI_NETNS"));
    assert_eq!(
        add_start(&req(true, true, true, true, true)).unwrap_err(),
        invalid("chaining is currently not supported")
    );
    let (t, stage) = add_start(&req(true, true, true, false, false)).unwrap();
    assert_eq!(stage, AddStage::OpenNetns);
    assert_eq!(t.ifname, "eth0");
}
