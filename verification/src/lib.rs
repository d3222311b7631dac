//! Storage-provisioning core of an appliance-OS installer.
//!
//! The library discovers block devices from plain observations of the
//! sysfs tree, plans a GUID Partition Table layout for a dual-partition
//! failover boot scheme, and drives the decisions of the installation
//! workflow. All I/O (sysfs reads, disk writes, external commands) is
//! left to the surrounding program; the library computes on plain values
//! and is verified.

pub mod actions;
pub mod block;
pub mod cmdline;
pub mod ctx;
pub mod device;
pub mod errors;
pub mod guid;
pub mod plan;
pub mod rng;
pub mod steps;
pub mod strutil;

pub use errors::InstallerError;
