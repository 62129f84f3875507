//! The messages between the daemon and the viewer, and what the viewer makes of them.
use vstd::prelude::*;

use crate::text::str_equal;

verus! {

/// A message from the daemon: the sequence number the next log will carry, or a log with
/// its sequence number.
pub enum DaemonToClient {
    Welcome { current_seq: u64 },
    Log { seq: u64, timestamp: i64, class: String, title: String },
}

/// A message to the daemon: start or stop sending logs to the client of this id.
#[derive(PartialEq, Eq, Structural, Clone, Copy, Debug)]
pub enum ClientToDaemon {
    Subscribe { client_id: u128 },
    Unsubscribe { client_id: u128 },
}

/// What the viewer's stream client hands on: a message of the daemon, a gap it noticed,
/// or the end of the connection.
pub enum StreamEvent {
    Log { seq: u64, timestamp: i64, class: String, title: String },
    Welcome { current_seq: u64 },
    Gap { expected: u64, received: u64 },
    Disconnected,
}

/// The event a message of the daemon becomes.
pub fn event_of(msg: DaemonToClient) -> (r: StreamEvent)
    ensures
        match msg {
            DaemonToClient::Welcome { current_seq } => r == StreamEvent::Welcome { current_seq },
            DaemonToClient::Log { seq, timestamp, class, title } => r == StreamEvent::Log {
                seq,
                timestamp,
                class,
                title,
            },
        },
{
    match msg {
        DaemonToClient::Welcome { current_seq } => StreamEvent::Welcome { current_seq },
        DaemonToClient::Log { seq, timestamp, class, title } => StreamEvent::Log {
            seq,
            timestamp,
            class,
            title,
        },
    }
}

/// The event a command sent to the daemon's socket stands for: `idle` and `resume` become
/// `SYSTEM` events of those names; anything else is unknown.
pub fn command_event(cmd: &str) -> (r: Option<(&'static str, &'static str)>)
    ensures
        cmd@ == seq!['i', 'd', 'l', 'e'] ==> (r matches Some((c, t)) && c@ == seq!['S', 'Y', 'S', 'T', 'E', 'M'] && t@ == cmd@),
        cmd@ == seq!['r', 'e', 's', 'u', 'm', 'e'] ==> (r matches Some((c, t)) && c@ == seq!['S', 'Y', 'S', 'T', 'E', 'M'] && t@ == cmd@),
        cmd@ != seq!['i', 'd', 'l', 'e'] && cmd@ != seq!['r', 'e', 's', 'u', 'm', 'e'] ==> r is None,
{
    proof {
        reveal_strlit("idle");
        reveal_strlit("resume");
        reveal_strlit("SYSTEM");
        assert("idle"@ =~= seq!['i', 'd', 'l', 'e']);
        assert("resume"@ =~= seq!['r', 'e', 's', 'u', 'm', 'e']);
        assert("SYSTEM"@ =~= seq!['S', 'Y', 'S', 'T', 'E', 'M']);
    }
    if str_equal(cmd, "idle") {
        Some(("SYSTEM", "idle"))
    } else if str_equal(cmd, "resume") {
        Some(("SYSTEM", "resume"))
    } else {
        None
    }
}

} // verus!
