//! A recursive-style UDP DNS forwarder with domain-based blocking.
//!
//! The library holds the verified core: the DNS wire-format codec
//! (header, question, record, name compression), the denylist parser
//! and matcher, and the per-query decision pipeline.  The surrounding
//! binary supplies the sockets, timers and configuration files and
//! feeds plain bytes in and out of this crate.

pub mod dns;
pub mod exchange;
pub mod filter;
pub mod internal;
pub mod name;
pub mod packet;
pub mod proxy;
pub mod server_config;
