//! Compiled-in defaults the binary falls back to when the
//! configuration does not say otherwise.

use vstd::prelude::*;
use vstd::string::StringExecFns;

verus! {

/// The built-in defaults: the configuration file path used when none
/// is given, the datagram size cap, and the worker threads' name
/// prefix.
#[allow(non_camel_case_types)]
#[derive(Debug, Clone)]
pub struct InternalConfig {
    pub default_server_config_dir: String,
    pub max_udp_packet_size: i64,
    pub worker_thread_name: String,
}

impl InternalConfig {
    /// The defaults as compiled in.
    pub fn new() -> (r: InternalConfig)
        ensures
            r.default_server_config_dir@ == "config/server.yaml"@,
            r.max_udp_packet_size == 4096,
            r.worker_thread_name@ == "WT"@,
    {
        InternalConfig {
            default_server_config_dir: String::from_str("config/server.yaml"),
            max_udp_packet_size: 4096,
            worker_thread_name: String::from_str("WT"),
        }
    }
}

} // verus!
