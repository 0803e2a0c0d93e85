//! A small network key-value store speaking a RESP-style wire protocol:
//! a verified frame codec, command parser, and expiring key-value state,
//! plus the admission/shutdown bookkeeping used by the server loop.
use vstd::prelude::*;

pub mod cmd;
pub mod connection;
pub mod db;
pub mod frame;
pub mod parse;
pub mod server;
pub mod shutdown;

verus! {

/// Default port that the server listens on.
pub const DEFAULT_PORT: u16 = 6379;

} // verus!
