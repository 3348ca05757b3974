use sarena::shared::{
    EndpointInfo, Ipv4KeyExt, Ipv4Key, MetricsValue, OBS_POINT_CONTAINER_FORWARD,
    OBS_POINT_HOST_FORWARD, write_mac, write_obs_point,
};

#[test]
fn obs_points_have_names() {
    assert_eq!(write_obs_point(OBS_POINT_CONTAINER_FORWARD), "CONT FWD");
    assert_eq!(write_obs_point(OBS_POINT_HOST_FORWARD), "HOST FWD");
    assert_eq!(write_obs_point(9), "UNKNOWN");
}

#[test]
fn macs_print_as_colon_separated_hex() {
    assert_eq!(write_mac([0x0a, 0x1b, 0x2c, 0x3d, 0x4e, 0xff]), "0a:1b:2c:3d:4e:ff");
    let info = EndpointInfo {
        if_index: 12,
        container_mac: [1, 2, 3, 4, 5, 6],
        host_mac: [0xaa; 6],
    };
    assert_eq!(
        info.to_text(),
        "if_index=12 container_mac=01:02:03:04:05:06 host_mac=aa:aa:aa:aa:aa:aa"
    );
}

#[test]
fn per_cpu_metrics_add_up_saturating() {
    let v = vec![
        MetricsValue { packets: 1, bytes: 100 },
        MetricsValue { packets: 2, bytes: u64::MAX },
    ];
    assert_eq!(
        MetricsValue::sum_per_cpu(&v),
        MetricsValue { packets: 3, bytes: u64::MAX }
    );
    assert_eq!(MetricsValue::sum_per_cpu(&vec![]), MetricsValue { packets: 0, bytes: 0 });
}

#[test]
fn ipv4_keys_hold_the_wire_octets() {
    let k: Ipv4Key = Ipv4Key::from_octets([10, 0, 0, 7]);
    assert_eq!(k.octets(), [10, 0, 0, 7]);
    assert_eq!(k.to_addr(), sarena::ip::IpAddress::V4(0x0a00_0007));
}

#[test]
fn ipv4_keys_round_trip_through_octets_and_addresses() {
    let addr = sarena::ip::IpAddress::V4(0xc0a8_0102);
    let k: Ipv4Key = Ipv4Key::from_addr(addr);
    assert_eq!(k.octets(), [192, 168, 1, 2]);
    assert_eq!(k.to_addr(), addr);
    assert_eq!(Ipv4Key::from_octets(k.octets()), k);
    let j: Ipv4Key = 0x1234_5678;
    assert_eq!(Ipv4Key::from_octets(j.octets()), j);
}
