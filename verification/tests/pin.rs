use sarena::endpoint::EndpointKind;
use sarena::pin::{PinRoot, join_path, pin_subpath};

#[test]
fn pin_subpath_roundtrips_for_every_kind() {
    let kinds = [
        EndpointKind::Container,
        EndpointKind::Host,
        EndpointKind::NetDev,
        EndpointKind::Overlay,
        EndpointKind::Wireguard,
    ];
    for kind in kinds {
        let sub = pin_subpath(kind, "eth0");
        let (parsed_kind, parsed_link) = PinRoot::parse_pin_subpath(&sub)
            .unwrap_or_else(|| panic!("failed to parse {sub:?} back into a kind/link pair"));
        assert_eq!(kind, parsed_kind);
        assert_eq!(parsed_link, "eth0");
    }
}

#[test]
fn garbage_pin_paths_are_rejected_not_guessed() {
    assert_eq!(PinRoot::parse_pin_subpath("bogus/123"), None);
    assert_eq!(PinRoot::parse_pin_subpath(""), None);
}

#[test]
fn endpoint_link_dirs_are_scoped_per_endpoint() {
    let root = PinRoot::new("/sys/fs/bpf/test");

    assert_ne!(
        root.endpoint_link_dir(EndpointKind::Container, "lxc00001"),
        root.endpoint_link_dir(EndpointKind::Container, "lxc00002")
    );
    assert_ne!(
        root.endpoint_link_dir(EndpointKind::Container, "eth0"),
        root.endpoint_link_dir(EndpointKind::Host, "eth0"),
        "the same link name under a different kind must not collide"
    );
}

#[test]
fn per_endpoint_map_paths_do_not_collide() {
    let root = PinRoot::new("/sys/fs/bpf/test");
    assert_ne!(
        root.per_endpoint_map_dir("sarena_policy", "lxc00001"),
        root.per_endpoint_map_dir("sarena_policy", "lxc00002")
    );
}

#[test]
fn global_map_path_does_not_collide_with_per_endpoint_paths() {
    let root = PinRoot::new("/sys/fs/bpf/test");
    assert_ne!(
        root.global_map_dir("conntrack_tcp"),
        root.per_endpoint_map_dir("conntrack_tcp", "lxc00001")
    );
}

#[test]
fn pin_paths_have_the_documented_layout() {
    let root = PinRoot::new("/sys/fs/bpf/test");
    assert_eq!(root.root(), "/sys/fs/bpf/test");
    assert_eq!(root.links_dir(), "/sys/fs/bpf/test/links");
    assert_eq!(root.globals_dir(), "/sys/fs/bpf/test/globals");
    assert_eq!(
        root.endpoint_link_dir(EndpointKind::Host, "eth0"),
        "/sys/fs/bpf/test/links/host/eth0"
    );
    assert_eq!(
        root.per_endpoint_map_dir("calls_map", "veth1"),
        "/sys/fs/bpf/test/globals/calls_map_veth1"
    );
    assert_eq!(root.global_map_dir("lxc_map"), "/sys/fs/bpf/test/globals/lxc_map");
}

#[test]
fn join_path_replaces_the_base_with_an_absolute_part() {
    assert_eq!(join_path("/a", "b"), "/a/b");
    assert_eq!(join_path("/a/", "b"), "/a/b");
    assert_eq!(join_path("/a", "/b"), "/b");
    assert_eq!(join_path("", "b"), "b");
}

#[test]
fn parse_pin_subpath_skips_empty_and_dot_components() {
    assert_eq!(
        PinRoot::parse_pin_subpath("netdev//./eth1/x"),
        Some((EndpointKind::NetDev, "eth1".to_string()))
    );
    assert_eq!(PinRoot::parse_pin_subpath("host"), None);
    assert_eq!(PinRoot::parse_pin_subpath("/host/eth0"), None);
}
