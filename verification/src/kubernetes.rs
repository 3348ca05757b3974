//! The cluster side: the AddressPool resource and the admission check of
//! its CIDR.
use vstd::prelude::*;

use crate::ip::{Cidr, net_parse_error_text, parsed_net};
use crate::loader::{debug_quoted, quoted};
use crate::text::{concat, owned};

verus! {

/// Namespace the webhook `Service` and TLS `Secret` live in.
pub const NAMESPACE: &'static str = "sarena-system";

/// Name of the `Service` in front of the webhook server.
pub const SERVICE_NAME: &'static str = "sarena-kubernetes-webhook";

/// Name of the `Secret` holding the webhook server's TLS certificate and
/// key.
pub const SECRET_NAME: &'static str = "sarena-kubernetes-webhook-tls";

/// Path the AddressPool validating webhook is served on.
pub const ADDRESS_POOL_VALIDATE_PATH: &'static str = "/validate/addresspool";

/// The DNS names the webhook certificate is issued for: the service's
/// short and fully qualified in-cluster names.
pub fn webhook_dns_names() -> (r: Vec<String>)
    ensures
        r@.len() == 2,
        r@[0]@ == SERVICE_NAME@ + "."@ + NAMESPACE@ + ".svc"@,
        r@[1]@ == SERVICE_NAME@ + "."@ + NAMESPACE@ + ".svc.cluster.local"@,
{
    let base = concat(SERVICE_NAME, ".");
    let base = concat(base.as_str(), NAMESPACE);
    let short = concat(base.as_str(), ".svc");
    let long = concat(base.as_str(), ".svc.cluster.local");
    let mut r = Vec::new();
    r.push(short);
    r.push(long);
    r
}

/// The desired state of an address pool: the block it hands addresses
/// from.
#[derive(Debug, Clone)]
pub struct AddressPoolSpec {
    pub cidr: String,
}

/// The observed state of an address pool (nothing is reported yet).
#[derive(Debug, Clone, Default)]
pub struct AddressPoolStatus {}

/// The controller's metrics (none are exported yet).
#[derive(Debug, Clone, Default)]
pub struct Metrics {}

/// What the admission webhook answers.
#[derive(Debug, Clone, PartialEq, Eq)]
pub enum AdmissionVerdict {
    Allowed,
    /// Denied, with the reason.
    Denied(String),
}

/// The message an address pool with an unparsable CIDR is denied with.
pub open spec fn invalid_cidr_text(cidr: Seq<char>) -> Seq<char> {
    "spec.cidr "@ + debug_quoted(cidr) + " is not a valid CIDR: "@ + net_parse_error_text()
}

/// Admits an address pool whose CIDR parses (see `Cidr::parse`); a request
/// without an object is admitted as well.
pub fn validate_address_pool(object: Option<&AddressPoolSpec>) -> (r: AdmissionVerdict)
    ensures
        match object {
            None => r == AdmissionVerdict::Allowed,
            Some(spec) => if parsed_net(spec.cidr@) is Some {
                r == AdmissionVerdict::Allowed
            } else {
                r matches AdmissionVerdict::Denied(m) && m@ == invalid_cidr_text(spec.cidr@)
            },
        },
{
    match object {
        None => AdmissionVerdict::Allowed,
        Some(spec) => match Cidr::parse_or_reason(spec.cidr.as_str()) {
            Ok(_) => AdmissionVerdict::Allowed,
            Err(reason) => {
                let q = quoted(spec.cidr.as_str());
                let m = concat("spec.cidr ", q.as_str());
                let m = concat(m.as_str(), " is not a valid CIDR: ");
                let m = concat(m.as_str(), reason.as_str());
                AdmissionVerdict::Denied(m)
            },
        },
    }
}

/// Why the cluster side stopped.
#[derive(Debug, Clone, PartialEq, Eq)]
pub enum KubernetesError {
    /// An error of the Kubernetes client, by its message.
    Kube(String),
    /// A controller task panicked, by the join error's message.
    Join(String),
    ControllerExited,
    AllControllersExited,
}

/// What the supervisor makes of the first controller task to finish
/// (`None`: no task was left): a task that returned is an error as much
/// as one that panicked.
pub fn controller_exit(joined: Option<Result<(), String>>) -> (r: KubernetesError)
    ensures
        match joined {
            None => r == KubernetesError::AllControllersExited,
            Some(Ok(())) => r == KubernetesError::ControllerExited,
            Some(Err(m)) => r == KubernetesError::Join(m),
        },
{
    match joined {
        None => KubernetesError::AllControllersExited,
        Some(Ok(())) => KubernetesError::ControllerExited,
        Some(Err(m)) => KubernetesError::Join(m),
    }
}

/// The message of an error.
pub open spec fn kubernetes_error_text(e: KubernetesError) -> Seq<char> {
    match e {
        KubernetesError::Kube(m) => "kube error: "@ + m@,
        KubernetesError::Join(m) => "controller task panicked: "@ + m@,
        KubernetesError::ControllerExited => "controller exited unexpectedly"@,
        KubernetesError::AllControllersExited => "all controllers exited unexpectedly"@,
    }
}

impl KubernetesError {
    /// The error's message.
    pub fn message(&self) -> (r: String)
        ensures
            r@ == kubernetes_error_text(*self),
    {
        match self {
            KubernetesError::Kube(m) => concat("kube error: ", m.as_str()),
            KubernetesError::Join(m) => concat("controller task panicked: ", m.as_str()),
            KubernetesError::ControllerExited => owned("controller exited unexpectedly"),
            KubernetesError::AllControllersExited => owned("all controllers exited unexpectedly"),
        }
    }
}

/// Who reports the controllers' events.
#[derive(Debug, Clone)]
pub struct Diagnostics {
    pub reporter: String,
}

impl Diagnostics {
    /// Events reported as `component`.
    pub fn new(component: String) -> (r: Self)
        ensures
            r.reporter == component,
    {
        Diagnostics { reporter: component }
    }
}

impl Default for Diagnostics {
    /// Events reported as `sart`.
    fn default() -> (r: Self)
        ensures
            r.reporter@ == "sart"@,
    {
        Diagnostics { reporter: owned("sart") }
    }
}

} // verus!
