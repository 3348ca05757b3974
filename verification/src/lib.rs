//! Verified core of the sarena networking control plane.
pub mod bitmap;
pub mod cni;
pub mod endpoint;
pub mod host_scope;
pub mod ip;
pub mod ipam;
pub mod kubernetes;
pub mod loader;
pub mod pin;
pub mod report;
pub mod runner;
pub mod services;
pub mod shared;
pub mod text;
pub mod tlv;
