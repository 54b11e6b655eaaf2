//! Process-isolated authentication: the framed channel codec, the message
//! types, the client-side request multiplexer and the server-side dispatch
//! decisions, all verified.
use vstd::prelude::*;

pub mod bytes;
pub mod message;
pub mod wire;
pub mod frame;
pub mod client;
pub mod server;
pub mod supervisor;

use crate::supervisor::Config;

verus! {

/// Selects the stub engine, or the real one, for children spawned with
/// `config`; a running child keeps the mode it was given.
pub fn test_mode(config: &mut Config, enabled: bool)
    ensures
        *final(config) == (Config { stub_mode: enabled, ..*old(config) }),
{
    config.stub_mode = enabled;
}

} // verus!
