//! The daemon, endpoint and IPAM services as the agent's API serves them,
//! with the fixed-answer stand-ins used when testing their clients.
use vstd::prelude::*;

use crate::ip::IpAddress;
use crate::ipam::{ContainerAddressing, HostAddressing, IpamAllocateResponse, IpamError};
use crate::text::owned;

verus! {

/// Errors of the daemon service: it has none, so no value of this type
/// exists.
pub type DaemonError = std::convert::Infallible;

/// The link settings the daemon hands to the CNI plugin.
#[derive(Debug, Clone, Copy, PartialEq, Eq, Structural)]
pub struct DaemonConfigurationResponse {
    pub device_mtu: u32,
    pub route_mtu: u32,
}

/// The daemon's configuration and health.
pub trait DaemonService {
    fn config(&self) -> Result<DaemonConfigurationResponse, DaemonError>;

    fn health(&self) -> Result<(), DaemonError>;
}

/// The daemon service of a running agent.
#[derive(Debug, Default, Clone, Copy)]
pub struct DefaultDaemonService;

impl DefaultDaemonService {
    pub fn new() -> (r: Self) {
        DefaultDaemonService
    }
}

impl DaemonService for DefaultDaemonService {
    /// Standard Ethernet MTUs for devices and routes.
    fn config(&self) -> (r: Result<DaemonConfigurationResponse, DaemonError>)
        ensures
            r == Ok::<DaemonConfigurationResponse, DaemonError>(
                DaemonConfigurationResponse { device_mtu: 1500, route_mtu: 1500 },
            ),
    {
        Ok(DaemonConfigurationResponse { device_mtu: 1500, route_mtu: 1500 })
    }

    fn health(&self) -> (r: Result<(), DaemonError>)
        ensures
            r is Ok,
    {
        Ok(())
    }
}

/// A daemon service that always reports jumbo-frame MTUs and good health.
#[derive(Debug, Default, Clone, Copy)]
pub struct MockDaemonService;

impl DaemonService for MockDaemonService {
    fn config(&self) -> (r: Result<DaemonConfigurationResponse, DaemonError>)
        ensures
            r == Ok::<DaemonConfigurationResponse, DaemonError>(
                DaemonConfigurationResponse { device_mtu: 9000, route_mtu: 9000 },
            ),
    {
        Ok(DaemonConfigurationResponse { device_mtu: 9000, route_mtu: 9000 })
    }

    fn health(&self) -> (r: Result<(), DaemonError>)
        ensures
            r is Ok,
    {
        Ok(())
    }
}

/// Errors of the endpoint service: it has none, so no value of this type
/// exists.
pub type EndpointError = std::convert::Infallible;

/// An address of an endpoint and the pool it came from.
#[derive(Debug, Clone)]
pub struct Addressing {
    pub ip: String,
    pub pool: Option<String>,
}

/// What the CNI plugin tells the agent about a new endpoint.
#[derive(Debug, Clone)]
pub struct EndpointCreateRequest {
    pub k8s_namespace: String,
    pub k8s_pod_name: String,
    pub k8s_uid: String,
    pub container_id: String,
    pub container_iface_name: String,
    pub container_mac: String,
    pub host_mac: String,
    pub host_iface_index: u32,
    pub host_iface_name: String,
    pub ipv4: Option<Addressing>,
    pub ipv6: Option<Addressing>,
}

/// The agent's answer to an endpoint creation.
#[derive(Debug, Clone, Copy, PartialEq, Eq, Structural)]
pub struct EndpointCreateResponse {}

/// Whether the agent considers an endpoint healthy.
#[derive(Debug, Clone, Copy, PartialEq, Eq, Structural)]
pub enum EndpointHealthStatus {
    Healthy,
    Failure,
}

/// The agent's answer to an endpoint health query.
#[derive(Debug, Clone, Copy, PartialEq, Eq, Structural)]
pub struct EndpointHealthResponse {
    pub heatlh: EndpointHealthStatus,
}

/// Creation, deletion and health of endpoints.
pub trait EndpointService {
    fn create(&self, attachment_id: String, request: EndpointCreateRequest) -> Result<
        EndpointCreateResponse,
        EndpointError,
    >;

    fn delete(&self, attachment_id: String) -> Result<(), EndpointError>;

    fn health(&self, attachment_id: String) -> Result<EndpointHealthResponse, EndpointError>;
}

/// An endpoint service that accepts everything and reports every endpoint
/// healthy.
#[derive(Debug, Default, Clone, Copy)]
pub struct MockEndpointService;

impl EndpointService for MockEndpointService {
    fn create(&self, attachment_id: String, request: EndpointCreateRequest) -> (r: Result<
        EndpointCreateResponse,
        EndpointError,
    >)
        ensures
            r == Ok::<EndpointCreateResponse, EndpointError>(EndpointCreateResponse {  }),
    {
        Ok(EndpointCreateResponse {  })
    }

    fn delete(&self, attachment_id: String) -> (r: Result<(), EndpointError>)
        ensures
            r is Ok,
    {
        Ok(())
    }

    fn health(&self, attachment_id: String) -> (r: Result<EndpointHealthResponse, EndpointError>)
        ensures
            r == Ok::<EndpointHealthResponse, EndpointError>(
                EndpointHealthResponse { heatlh: EndpointHealthStatus::Healthy },
            ),
    {
        Ok(EndpointHealthResponse { heatlh: EndpointHealthStatus::Healthy })
    }
}

/// An IPAM service that always hands out the same IPv4 addressing and
/// accepts every reservation and release.
#[derive(Debug, Default, Clone, Copy)]
pub struct MockIpamService;

impl MockIpamService {
    /// Gateway `10.0.0.1`, container address `10.0.0.2`, no pool, no IPv6.
    pub fn allocate(
        &self,
        family: Option<String>,
        owner: Option<String>,
        pool: Option<String>,
        expiration: bool,
    ) -> (r: Result<IpamAllocateResponse, IpamError>)
        ensures
            r matches Ok(resp) && {
                &&& resp.host_addressing.ipv4 matches Some(g) && g@ == "10.0.0.1"@
                &&& resp.host_addressing.ipv6 is None
                &&& resp.ipv4 matches Some(a) && a.ip@ == "10.0.0.2"@ && a.pool is None
                &&& resp.ipv6 is None
            },
    {
        Ok(
            IpamAllocateResponse {
                host_addressing: HostAddressing { ipv4: Some(owned("10.0.0.1")), ipv6: None },
                ipv4: Some(ContainerAddressing { ip: owned("10.0.0.2"), pool: None }),
                ipv6: None,
            },
        )
    }

    pub fn allocate_ip(&self, ip: IpAddress, owner: Option<String>, pool: Option<String>) -> (r:
        Result<(), IpamError>)
        ensures
            r is Ok,
    {
        Ok(())
    }

    pub fn release(&self, ip: IpAddress, pool: Option<String>) -> (r: Result<(), IpamError>)
        ensures
            r is Ok,
    {
        Ok(())
    }

    /// No allocations, no owners, status `Not running`.
    pub fn dump(&self) -> (r: Result<
        (Vec<(String, String)>, Vec<(String, String)>, String),
        IpamError,
    >)
        ensures
            r matches Ok((a, o, s)) && a@.len() == 0 && o@.len() == 0 && s@ == "Not running"@,
    {
        Ok((Vec::new(), Vec::new(), owned("Not running")))
    }
}

} // verus!
