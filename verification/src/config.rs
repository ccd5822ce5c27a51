//! Server configuration.
//!
//! The values a deployment chooses: where to listen, how the store
//! is sized and sharded, the per-connection buffer, the admission
//! cap, and how chatty the logs are.  Command-line handling and the
//! logging backend live outside this crate; this module only defines
//! the data and its defaults.

use vstd::prelude::*;

use vstd::slice::slice_to_vec;

verus! {

/// Logging verbosity, from quietest to chattiest.
#[derive(Debug, Clone, Copy, PartialEq, Eq, Structural)]
pub enum Verbosity {
    Error,
    Warn,
    Info,
    Debug,
    Trace,
}

impl Default for Verbosity {
    /// The default log level is `Info`.
    fn default() -> (r: Verbosity)
        ensures
            r == Verbosity::Info,
    {
        Verbosity::Info
    }
}

// "127.0.0.1"
pub const DEFAULT_IP: [u8; 9] = [49, 50, 55, 46, 48, 46, 48, 46, 49];

/// What the server runs with.
#[derive(Debug)]
pub struct Config {
    /// Bind address, as bytes of its textual form.
    pub ip_addr: Vec<u8>,
    /// Bind port.
    pub port: u16,
    /// Initial sizing hint for the store.
    pub capacity: usize,
    /// Number of shards; must be a power of two.
    pub shard_count: usize,
    /// Per-connection read and write buffer size in bytes.
    pub network_buffer_size: usize,
    /// Most concurrent sessions admitted at once.
    pub max_conn: usize,
    /// Log level.
    pub verbosity: Verbosity,
}

impl Default for Config {
    /// The documented defaults: loopback on the usual port, one
    /// million entries of capacity over eight shards, 8 KiB buffers,
    /// 128 concurrent sessions, `Info` logging.
    fn default() -> (r: Config)
        ensures
            r.ip_addr@ == DEFAULT_IP@,
            r.port == 6379,
            r.capacity == 1000000,
            r.shard_count == 8,
            r.network_buffer_size == 8192,
            r.max_conn == 128,
            r.verbosity == Verbosity::Info,
    {
        Config {
            ip_addr: slice_to_vec(DEFAULT_IP.as_slice()),
            port: 6379,
            capacity: 1000000,
            shard_count: 8,
            network_buffer_size: 8192,
            max_conn: 128,
            verbosity: Verbosity::Info,
        }
    }
}

} // verus!
