//! An in-memory key-value store speaking the RESP wire format.
//!
//! Three verified subsystems carry the logic.  The frame codec
//! (`frame`, `codec`, with byte-level helpers in `ascii`) decodes
//! and encodes RESP values, arrays iteratively; its round-trip and
//! incremental-decoding laws are proved in `codec`.  The command
//! layer (`command`, `parser`) turns a decoded frame into a typed
//! command or an error reply.  The sharded store (`db`, with its
//! trusted map boundary in `fxmap`) holds entries with lazy TTL
//! expiration.  `session` ties commands to store operations and
//! reply frames, `server` keeps the admission bookkeeping for
//! bounded concurrent sessions, and `config` carries the knobs a
//! deployment sets.

pub mod ascii;
pub mod codec;
pub mod command;
pub mod config;
pub mod db;
pub mod frame;
pub mod fxmap;
pub mod parser;
pub mod server;
pub mod session;
