//! The configuration the core consumes.  Loading and parsing the
//! configuration file is I/O and lives outside the library; the
//! binary converts what it reads into these plain values.

use vstd::prelude::*;

verus! {

/// Logging settings, consumed by the logger outside the library.
#[allow(non_camel_case_types)]
#[derive(Debug, Clone)]
pub struct _Config__logging {
    pub enabled: bool,
    pub level: String,
}

/// Runtime settings: how many worker threads serve queries.
#[allow(non_camel_case_types)]
#[derive(Debug, Clone)]
pub struct _Config__server {
    pub worker_thread_count: i64,
}

/// The proxy's own settings: where to listen, where to forward,
/// which denylist sources to load, the datagram size cap, a record
/// type list reserved for later use, and the per-upstream timeout in
/// milliseconds.
#[allow(non_camel_case_types)]
#[derive(Debug, Clone)]
pub struct _Config__udp_proxy {
    pub bind: String,
    pub dns_hosts: Vec<String>,
    pub domain_block_lists: Vec<String>,
    pub packet_size: i64,
    pub record_type_block_list: Vec<i64>,
    pub timeout: i64,
}

/// Everything the server reads from its configuration file.
#[derive(Debug, Clone)]
pub struct ServerConfig {
    pub logging: _Config__logging,
    pub server: _Config__server,
    pub udp_proxy: _Config__udp_proxy,
}

} // verus!
