use sarena::services::{
    DaemonConfigurationResponse, DaemonService, DefaultDaemonService, EndpointCreateRequest,
    EndpointHealthStatus, EndpointService, MockDaemonService, MockEndpointService,
    MockIpamService,
};

#[test]
fn default_daemon_uses_standard_mtus() {
    let svc = DefaultDaemonService::new();
    assert_eq!(
        svc.config().unwrap(),
        DaemonConfigurationResponse { device_mtu: 1500, route_mtu: 1500 }
    );
    assert!(svc.health().is_ok());
}

#[test]
fn mock_daemon_uses_jumbo_mtus() {
    let svc = MockDaemonService;
    assert_eq!(
        svc.config().unwrap(),
        DaemonConfigurationResponse { device_mtu: 9000, route_mtu: 9000 }
    );
    assert!(svc.health().is_ok());
}

#[test]
fn mock_endpoint_service_accepts_everything() {
    let svc = MockEndpointService;
    let req = EndpointCreateRequest {
        k8s_namespace: "ns".into(),
        k8s_pod_name: "pod".into(),
        k8s_uid: "uid".into(),
        container_id: "c1".into(),
        container_iface_name: "eth0".into(),
        container_mac: "0a:00:00:00:00:01".into(),
        host_mac: "0a:00:00:00:00:02".into(),
        host_iface_index: 7,
        host_iface_name: "lxc1".into(),
        ipv4: None,
        ipv6: None,
    };
    assert!(svc.create("c1:eth0".into(), req).is_ok());
    assert!(svc.delete("c1:eth0".into()).is_ok());
    assert_eq!(svc.health("c1:eth0".into()).unwrap().heatlh, EndpointHealthStatus::Healthy);
}

#[test]
fn mock_ipam_service_hands_out_fixed_addresses() {
    let svc = MockIpamService;
    let resp = svc.allocate(None, None, None, false).unwrap();
    assert_eq!(resp.host_addressing.ipv4, Some("10.0.0.1".to_string()));
    assert_eq!(resp.host_addressing.ipv6, None);
    let v4 = resp.ipv4.unwrap();
    assert_eq!(v4.ip, "10.0.0.2");
    assert_eq!(v4.pool, None);
    assert!(resp.ipv6.is_none());
    let (a, o, status) = svc.dump().unwrap();
    assert!(a.is_empty() && o.is_empty());
    assert_eq!(status, "Not running");
    assert!(svc.allocate_ip(sarena::ip::IpAddress::V4(1), None, None).is_ok());
    assert!(svc.release(sarena::ip::IpAddress::V4(1), None).is_ok());
}
