use sarena::kubernetes::{
    AddressPoolSpec, AdmissionVerdict, Diagnostics, KubernetesError, controller_exit,
    validate_address_pool,
};

#[test]
fn address_pools_need_a_valid_cidr() {
    assert_eq!(validate_address_pool(None), AdmissionVerdict::Allowed);
    let ok = AddressPoolSpec { cidr: "10.0.0.0/24".into() };
    assert_eq!(validate_address_pool(Some(&ok)), AdmissionVerdict::Allowed);
    let bad = AddressPoolSpec { cidr: "10.0.0.0".into() };
    assert_eq!(
        validate_address_pool(Some(&bad)),
        AdmissionVerdict::Denied(
            "spec.cidr \"10.0.0.0\" is not a valid CIDR: invalid IP address syntax".into()
        )
    );
}

#[test]
fn webhook_certificate_names_the_service() {
    assert_eq!(
        sarena::kubernetes::webhook_dns_names(),
        vec![
            "sarena-kubernetes-webhook.sarena-system.svc".to_string(),
            "sarena-kubernetes-webhook.sarena-system.svc.cluster.local".to_string()
        ]
    );
    assert_eq!(sarena::kubernetes::ADDRESS_POOL_VALIDATE_PATH, "/validate/addresspool");
}

#[test]
fn supervisor_treats_every_controller_exit_as_an_error() {
    assert_eq!(controller_exit(None), KubernetesError::AllControllersExited);
    assert_eq!(controller_exit(Some(Ok(()))), KubernetesError::ControllerExited);
    assert_eq!(
        controller_exit(Some(Err("boom".into()))).message(),
        "controller task panicked: boom"
    );
}

#[test]
fn diagnostics_report_as_the_component() {
    assert_eq!(Diagnostics::default().reporter, "sart");
    assert_eq!(Diagnostics::new("sarena".into()).reporter, "sarena");
}
