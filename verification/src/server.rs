//! Server configuration and the event-loop classification rule.
//!
//! The event loop itself multiplexes sockets and belongs to the caller;
//! what the library owns is the record of options a server is built from
//! and the rule that classifies a ready descriptor into an event.

use vstd::prelude::*;

verus! {

/// The options a server is built from: listener settings, the read-only
/// flag a follower runs with, the socket options applied to every socket,
/// and the cluster configuration.
#[derive(Debug, Clone)]
pub struct ServerOptions {
    pub backlog: i32,
    pub port: u32,
    pub read_only: bool,
    pub only_v6: bool,
    pub reuse_address: bool,
    pub reuse_port: bool,
    pub nodelay: bool,
    pub cluster_password: String,
    pub cluster_nodes: Vec<String>,
    pub cluster_connect_timeout: u64,
}

/// What a ready descriptor means to the event loop.
#[derive(Debug, PartialEq, Eq, Structural, Clone, Copy)]
pub enum ServerEvent {
    IncomingConnection,
    CloseConnection,
    IncomingCommand,
}

/// The classification rule: index 0 is the listener, so readability there
/// is a new connection; elsewhere a hang-up closes and readability is a
/// command.
pub open spec fn spec_check(index: int, readable: bool, hung_up: bool) -> Option<ServerEvent> {
    if index == 0 && readable {
        Some(ServerEvent::IncomingConnection)
    } else if hung_up {
        Some(ServerEvent::CloseConnection)
    } else if readable {
        Some(ServerEvent::IncomingCommand)
    } else {
        None
    }
}

impl ServerEvent {
    /// Classifies one polled descriptor by its index and readiness flags.
    pub fn check(index: usize, readable: bool, hung_up: bool) -> (r: Option<ServerEvent>)
        ensures
            r == spec_check(index as int, readable, hung_up),
    {
        if index == 0 && readable {
            Some(ServerEvent::IncomingConnection)
        } else if hung_up {
            Some(ServerEvent::CloseConnection)
        } else if readable {
            Some(ServerEvent::IncomingCommand)
        } else {
            None
        }
    }
}

} // verus!
