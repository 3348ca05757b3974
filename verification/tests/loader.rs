use std::cell::RefCell;
use std::collections::{HashMap, HashSet};
use std::rc::Rc;

use sarena::endpoint::{EndpointKind, Hook};
use sarena::loader::{
    BpfBackend, HookFailure, Loader, LoaderCommand, LoaderError, LoaderReply, active_endpoints,
    attach_outcome, match_pin, pin_entry_of, stale_endpoints,
};
use sarena::pin::PinRoot;

#[derive(Debug, Clone, PartialEq, Eq)]
enum Call {
    ResolveLink(String),
    LoadGlobalMaps(Vec<(String, String)>),
    LoadInstance(Vec<(String, String)>),
    EnsureAttached {
        program: &'static str,
        hook: Hook,
        ifname: String,
    },
    UnpinMap(String),
    RemovePinDir(String),
}

#[derive(Default)]
struct MockState {
    calls: Vec<Call>,
    maps: HashMap<String, String>,
    links: HashSet<String>,
    call_count: usize,
    fail_at: Option<(usize, String)>,
}

/// A backend that records its calls and keeps its pins in memory; the
/// state is shared so that a test can inspect and steer it.
#[derive(Clone, Default)]
struct MockBackend {
    state: Rc<RefCell<MockState>>,
}

impl MockBackend {
    fn new() -> Self {
        Self::default()
    }

    fn next_call_index(&self) -> usize {
        self.state.borrow().call_count
    }

    fn fail_at(&self, at: Option<(usize, String)>) {
        self.state.borrow_mut().fail_at = at;
    }

    fn calls(&self) -> Vec<Call> {
        self.state.borrow().calls.clone()
    }

    fn tick(&self) -> Result<(), LoaderError> {
        let mut st = self.state.borrow_mut();
        let n = st.call_count;
        st.call_count += 1;
        if let Some((fail_n, _)) = &st.fail_at {
            if n == *fail_n {
                let (_, msg) = st.fail_at.take().unwrap();
                return Err(LoaderError::ObjectLoad(msg));
            }
        }
        Ok(())
    }

    fn insert_maps(&self, maps: &[(String, String)]) {
        let mut st = self.state.borrow_mut();
        for (name, path) in maps {
            st.maps.insert(name.clone(), path.clone());
        }
    }
}

fn under(path: &str, dir: &str) -> bool {
    path == dir || (path.starts_with(dir) && path[dir.len()..].starts_with('/'))
}

struct MockLink {
    ifname: String,
}

impl BpfBackend for MockBackend {
    type Instance = ();
    type LinkType = MockLink;

    fn resolve_link(&mut self, link: &str) -> Result<MockLink, LoaderError> {
        self.tick()?;
        self.state.borrow_mut().calls.push(Call::ResolveLink(link.to_string()));
        Ok(MockLink { ifname: link.to_string() })
    }

    fn load_global_maps(&mut self, maps: &Vec<(String, String)>) -> Result<(), LoaderError> {
        self.tick()?;
        self.state.borrow_mut().calls.push(Call::LoadGlobalMaps(maps.clone()));
        self.insert_maps(maps);
        Ok(())
    }

    fn load_instance(&mut self, _link: &str, maps: &Vec<(String, String)>) -> Result<(), LoaderError> {
        self.tick()?;
        self.state.borrow_mut().calls.push(Call::LoadInstance(maps.clone()));
        self.insert_maps(maps);
        Ok(())
    }

    fn ensure_attached(
        &mut self,
        _instance: &mut (),
        program_name: &'static str,
        hook: Hook,
        link: &MockLink,
        link_pin_dir: &str,
    ) -> Result<(), LoaderError> {
        self.tick()?;
        let mut st = self.state.borrow_mut();
        st.calls.push(Call::EnsureAttached {
            program: program_name,
            hook,
            ifname: link.ifname.clone(),
        });
        st.links.insert(format!("{link_pin_dir}/{program_name}"));
        Ok(())
    }

    fn unpin_map(&mut self, path: &str) -> Result<(), LoaderError> {
        self.tick()?;
        let mut st = self.state.borrow_mut();
        st.calls.push(Call::UnpinMap(path.to_string()));
        st.maps.retain(|_, p| p != path);
        Ok(())
    }

    fn remove_pin_dir(&mut self, dir: &str) -> Result<(), LoaderError> {
        self.tick()?;
        let mut st = self.state.borrow_mut();
        st.calls.push(Call::RemovePinDir(dir.to_string()));
        st.maps.retain(|_, p| !under(p, dir));
        st.links.retain(|p| !under(p, dir));
        Ok(())
    }

    fn list_pins(&self, prefix: &str) -> Result<Vec<String>, LoaderError> {
        let st = self.state.borrow();
        Ok(st
            .maps
            .values()
            .chain(st.links.iter())
            .filter(|p| under(p, prefix) && p.len() > prefix.len())
            .map(|p| p[prefix.len() + 1..].to_string())
            .collect())
    }

    fn stop_logging(&mut self, _link: &str) {}

    fn stop_all_logging(&mut self) {}
}

fn link(n: u16) -> String {
    format!("veth{n}")
}

fn new_loader() -> (Loader<MockBackend>, MockBackend) {
    let backend = MockBackend::new();
    (Loader::new(backend.clone(), "/sys/fs/bpf/test"), backend)
}

fn load_instance_calls(backend: &MockBackend) -> Vec<Vec<(String, String)>> {
    backend
        .calls()
        .into_iter()
        .filter_map(|c| match c {
            Call::LoadInstance(maps) => Some(maps),
            _ => None,
        })
        .collect()
}

#[test]
fn kind_str_and_from_kind_str_round_trip() {
    for kind in [
        EndpointKind::Container,
        EndpointKind::Host,
        EndpointKind::NetDev,
        EndpointKind::Overlay,
        EndpointKind::Wireguard,
    ] {
        assert_eq!(EndpointKind::from_kind_str(kind.kind_str()), Some(kind));
    }
    assert_eq!(EndpointKind::from_kind_str("bogus"), None);
}

#[test]
fn optional_hook_failure_does_not_fail_the_endpoint() {
    assert!(
        EndpointKind::Container.hooks().iter().all(|h| h.required),
        "no optional hooks defined yet - update this test when XDP lands"
    );
}

#[test]
fn add_then_remove_happy_path() {
    let (mut loader, backend) = new_loader();
    let l = link(1);

    loader.add_endpoint(EndpointKind::Container, &l).unwrap();
    assert_eq!(
        loader.list_active_endpoints().unwrap(),
        vec![(EndpointKind::Container, l.clone())]
    );

    let loaded = load_instance_calls(&backend);
    assert_eq!(loaded[0].len(), 6);

    loader.remove_endpoint(EndpointKind::Container, &l).unwrap();
    assert_eq!(loader.list_active_endpoints().unwrap(), vec![]);
}

#[test]
fn each_endpoint_gets_its_own_resolve_load_and_attach_calls() {
    let (mut loader, backend) = new_loader();
    loader.add_endpoint(EndpointKind::Container, &link(1)).unwrap();
    loader.add_endpoint(EndpointKind::Container, &link(2)).unwrap();

    let calls = backend.calls();
    let resolve_calls = calls.iter().filter(|c| matches!(c, Call::ResolveLink(_))).count();
    assert_eq!(resolve_calls, 2, "every add_endpoint call resolves its own link, never shared");

    let load_calls = calls.iter().filter(|c| matches!(c, Call::LoadInstance(_))).count();
    assert_eq!(load_calls, 2, "option A loads a fresh instance per endpoint, never shared");

    let attach_calls = calls
        .iter()
        .filter(|c| {
            matches!(
                c,
                Call::EnsureAttached {
                    program: "from_container",
                    ..
                }
            )
        })
        .count();
    assert_eq!(attach_calls, 2, "each endpoint still gets its own hook attach call");
}

#[test]
fn per_endpoint_map_path_differs_across_endpoints() {
    let (mut loader, backend) = new_loader();
    loader.add_endpoint(EndpointKind::Container, &link(1)).unwrap();
    loader.add_endpoint(EndpointKind::Container, &link(2)).unwrap();

    let load_calls = load_instance_calls(&backend);
    assert_eq!(load_calls.len(), 2);

    let per_endpoint_path = |maps: &[(String, String)]| {
        maps.iter()
            .find(|(name, _)| name == "calls_map")
            .map(|(_, path)| path.clone())
            .unwrap()
    };

    assert_ne!(
        per_endpoint_path(&load_calls[0]),
        per_endpoint_path(&load_calls[1]),
        "per-endpoint map must resolve to a distinct path per endpoint"
    );
}

#[test]
fn per_endpoint_maps_pin_with_link_suffix_globals_with_bare_names() {
    let (mut loader, backend) = new_loader();
    let l = link(1);
    loader.add_endpoint(EndpointKind::Container, &l).unwrap();

    let loaded_maps: Vec<String> = load_instance_calls(&backend)[0]
        .iter()
        .map(|(_, path)| path.clone())
        .collect();

    assert!(loaded_maps.iter().any(|p| p.ends_with(&format!("calls_map_{l}"))));
    assert!(loaded_maps.iter().any(|p| p.ends_with("globals/lxc_map")));
}

#[test]
fn load_global_maps_pins_every_global_map_once_up_front() {
    let (mut loader, backend) = new_loader();
    loader.load_global_maps().unwrap();

    let pinned: Vec<String> = backend
        .calls()
        .into_iter()
        .find_map(|c| match c {
            Call::LoadGlobalMaps(maps) => Some(maps),
            _ => None,
        })
        .unwrap()
        .iter()
        .map(|(name, _)| name.clone())
        .collect();

    assert_eq!(pinned.len(), 4);
    for name in ["lxc_map", "conntrack_tcp_buffer", "conntrack_any_buffer"] {
        assert!(pinned.iter().any(|n| n == name), "missing {name}");
    }
}

#[test]
fn add_endpoint_fails_hard_without_attempting_hooks_if_load_instance_fails() {
    let (mut loader, backend) = new_loader();
    backend.fail_at(Some((backend.next_call_index() + 1, "bad object".into())));

    let result = loader.add_endpoint(EndpointKind::Container, &link(1));
    assert!(result.is_err());
    assert!(
        !matches!(result, Err(LoaderError::Partial(_))),
        "a load_instance failure is not a partial-hook failure"
    );

    let attach_calls = backend
        .calls()
        .iter()
        .filter(|c| matches!(c, Call::EnsureAttached { .. }))
        .count();
    assert_eq!(attach_calls, 0, "no hook should be attempted if loading itself failed");
    assert_eq!(loader.list_active_endpoints().unwrap(), vec![]);
}

#[test]
fn add_endpoint_fails_hard_if_link_resolution_fails() {
    let (mut loader, backend) = new_loader();
    backend.fail_at(Some((backend.next_call_index(), "no such link".into())));

    let result = loader.add_endpoint(EndpointKind::Container, &link(1));
    assert!(result.is_err());
    assert!(!matches!(result, Err(LoaderError::Partial(_))));

    let load_calls = load_instance_calls(&backend).len();
    assert_eq!(load_calls, 0, "no load should even be attempted if resolving the link failed");
    assert_eq!(loader.list_active_endpoints().unwrap(), vec![]);
}

#[test]
fn add_endpoint_retries_only_the_hook_that_previously_failed() {
    let l = link(1);
    let (mut loader, backend) = new_loader();

    let fail_index = backend.next_call_index() + 2;
    backend.fail_at(Some((fail_index, "simulated crash during ingress attach".into())));

    let result = loader.add_endpoint(EndpointKind::Container, &l);
    assert!(result.is_err(), "ingress hook failed, so this must fail");
    assert_eq!(loader.list_active_endpoints().unwrap(), vec![]);

    backend.fail_at(None);
    loader.add_endpoint(EndpointKind::Container, &l).unwrap();
    assert_eq!(
        loader.list_active_endpoints().unwrap(),
        vec![(EndpointKind::Container, l)]
    );
}

#[test]
fn reconcile_removes_endpoints_missing_from_desired_state() {
    let (mut loader, _backend) = new_loader();
    loader.add_endpoint(EndpointKind::Container, &link(1)).unwrap();
    loader.add_endpoint(EndpointKind::Container, &link(2)).unwrap();

    let desired = vec![(EndpointKind::Container, link(1))];
    let errors = loader.reconcile(&desired).unwrap();
    assert!(errors.is_empty());

    assert_eq!(
        loader.list_active_endpoints().unwrap(),
        vec![(EndpointKind::Container, link(1))]
    );
}

#[test]
fn reconcile_repairs_half_attached_endpoints_found_on_disk() {
    let (mut loader, backend) = new_loader();
    loader.add_endpoint(EndpointKind::Container, &link(1)).unwrap();

    let fail_index = backend.next_call_index() + 2;
    backend.fail_at(Some((fail_index, "crash right after loading".into())));
    let _ = loader.add_endpoint(EndpointKind::Container, &link(2));
    backend.fail_at(None);

    assert_eq!(
        loader.list_active_endpoints().unwrap(),
        vec![(EndpointKind::Container, link(1))]
    );

    let desired = vec![
        (EndpointKind::Container, link(1)),
        (EndpointKind::Container, link(2)),
    ];
    let errors = loader.reconcile(&desired).unwrap();
    assert!(
        errors.is_empty(),
        "reconcile should finish attaching the second endpoint: {errors:?}"
    );

    let mut active = loader.list_active_endpoints().unwrap();
    active.sort_by_key(|(_, l)| l.clone());
    assert_eq!(active.len(), 2);
}

#[test]
fn remove_endpoint_cleans_up_only_its_own_per_endpoint_map() {
    let (mut loader, backend) = new_loader();
    loader.add_endpoint(EndpointKind::Container, &link(1)).unwrap();
    loader.add_endpoint(EndpointKind::Container, &link(2)).unwrap();

    loader.remove_endpoint(EndpointKind::Container, &link(1)).unwrap();

    let globals = PinRoot::new("/sys/fs/bpf/test").globals_dir();
    let remaining: HashSet<String> = backend.list_pins(&globals).unwrap().into_iter().collect();

    assert!(
        !remaining.iter().any(|p| p.contains(&format!("calls_map_{}", link(1)))),
        "the first endpoint's per-endpoint map must be gone: {remaining:?}"
    );
    assert!(
        remaining.iter().any(|p| p.contains(&format!("calls_map_{}", link(2)))),
        "the second endpoint's per-endpoint map must be untouched: {remaining:?}"
    );
}

#[test]
fn teardown_all_removes_links_and_all_maps() {
    let (mut loader, backend) = new_loader();
    loader.add_endpoint(EndpointKind::Container, &link(1)).unwrap();
    loader.add_endpoint(EndpointKind::Host, "the_host").unwrap();

    loader.teardown_all().unwrap();

    let root = PinRoot::new("/sys/fs/bpf/test");
    assert!(backend.list_pins(&root.links_dir()).unwrap().is_empty());
    assert!(backend.list_pins(&root.globals_dir()).unwrap().is_empty());
}

#[test]
fn match_pin_finds_programs_of_the_kind_only() {
    let h = match_pin(EndpointKind::Container, "to_container").unwrap();
    assert_eq!(h.program_name, "to_container");
    assert_eq!(h.hook, Hook::TcxEgress);
    assert!(match_pin(EndpointKind::Container, "from_host").is_none());
    assert!(match_pin(EndpointKind::Host, "from_host").is_some());
}

#[test]
fn active_endpoints_need_every_program_pinned() {
    let pins = vec![
        "container/veth1/from_container".to_string(),
        "container/veth1/to_container".to_string(),
        "container/veth2/from_container".to_string(),
        "host/eth0/from_host".to_string(),
        "host/eth0/to_host".to_string(),
        "host/eth0/to_host".to_string(),
        "bogus/x/from_host".to_string(),
        "nofile".to_string(),
    ];
    let active = active_endpoints(&pins);
    assert_eq!(
        active,
        vec![
            (EndpointKind::Container, "veth1".to_string()),
            (EndpointKind::Host, "eth0".to_string())
        ]
    );
}

#[test]
fn stale_endpoints_are_those_not_desired() {
    let existing = vec![
        (EndpointKind::Container, "a".to_string()),
        (EndpointKind::Container, "b".to_string()),
        (EndpointKind::Host, "a".to_string()),
    ];
    let desired = vec![(EndpointKind::Container, "a".to_string())];
    assert_eq!(
        stale_endpoints(&existing, &desired),
        vec![
            (EndpointKind::Container, "b".to_string()),
            (EndpointKind::Host, "a".to_string())
        ]
    );
}

#[test]
fn attach_outcome_reports_each_failed_required_program() {
    let hooks = EndpointKind::Container.hooks();
    let ok = vec![Ok(()), Ok(())];
    assert!(attach_outcome(&hooks, &ok).is_ok());

    let failed = vec![Err(LoaderError::ObjectLoad("boom".into())), Ok(())];
    match attach_outcome(&hooks, &failed) {
        Err(LoaderError::Partial(v)) => {
            assert_eq!(v.len(), 1);
            let HookFailure { hook_name, error } = &v[0];
            assert_eq!(*hook_name, "from_container");
            assert_eq!(error, "failed to load eBPF object: boom");
        }
        other => panic!("unexpected outcome {other:?}"),
    }
}

#[test]
fn loader_error_messages_quote_names() {
    let e = LoaderError::Attach {
        name: "from_host",
        ifname: "eth0".into(),
        src: "busy".into(),
    };
    assert_eq!(e.message(), "failed to attach program \"from_host\" to \"eth0\": busy");
    let p = LoaderError::Partial(vec![HookFailure {
        hook_name: "a",
        error: String::new(),
    }]);
    assert_eq!(p.message(), "1 required hook(s) failed to attach");
    assert_eq!(
        LoaderError::MapNotFound { name: "calls_map".into() }.message(),
        "map \"calls_map\" not found in the loaded object"
    );
}

#[test]
fn commands_are_answered_in_kind() {
    let (mut loader, _backend) = new_loader();
    match loader.handle(LoaderCommand::AddEndpoint {
        kind: EndpointKind::NetDev,
        link: "eth1".into(),
    }) {
        LoaderReply::AddEndpoint(r) => assert!(r.is_ok()),
        other => panic!("unexpected {other:?}"),
    }
    match loader.handle(LoaderCommand::ListActiveEndpoints) {
        LoaderReply::ListActiveEndpoints(Ok(v)) => {
            assert_eq!(v, vec![(EndpointKind::NetDev, "eth1".to_string())])
        }
        other => panic!("unexpected {other:?}"),
    }
    match loader.handle(LoaderCommand::TeardownAll) {
        LoaderReply::TeardownAll(r) => assert!(r.is_ok()),
        other => panic!("unexpected {other:?}"),
    }
}

#[test]
fn every_loader_error_has_its_message() {
    assert_eq!(
        LoaderError::ProgramNotFound { name: "to_host" }.message(),
        "program \"to_host\" not found in the loaded object"
    );
    assert_eq!(
        LoaderError::ProgramLoad { name: "to_host", src: "verifier".into() }.message(),
        "failed to load program \"to_host\": verifier"
    );
    assert_eq!(
        LoaderError::Unpin { path: "/a/b".into(), src: "busy".into() }.message(),
        "failed to unpin \"/a/b\": busy"
    );
    assert_eq!(
        LoaderError::LinkResolve { link: "eth9".into(), src: "gone".into() }.message(),
        "failed to resolve link \"eth9\": gone"
    );
    assert_eq!(
        LoaderError::ListPins { prefix: "/p".into(), src: "io".into() }.message(),
        "failed to list pins under \"/p\": io"
    );
    assert_eq!(LoaderError::ActorGone.message(), "loader actor is no longer running");
}

#[test]
fn pins_listed_with_a_trailing_slash_read_as_their_file() {
    let (k, l, f) = pin_entry_of("container/veth1/from_container/").unwrap();
    assert_eq!((k, l.as_str(), f.as_str()), (EndpointKind::Container, "veth1", "from_container"));
    let (k, l, f) = pin_entry_of("host/the_host/to_host").unwrap();
    assert_eq!((k, l.as_str(), f.as_str()), (EndpointKind::Host, "the_host", "to_host"));
    let pins = vec![
        "container/veth1/from_container/".to_string(),
        "container/veth1/to_container//".to_string(),
    ];
    assert_eq!(active_endpoints(&pins), vec![(EndpointKind::Container, "veth1".to_string())]);
}
