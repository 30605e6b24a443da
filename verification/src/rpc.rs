//! The control verbs exchanged between the command-line client and the
//! daemon, and their response shapes.

use vstd::prelude::*;

use crate::path::AbsPath;

verus! {

/// The version byte that precedes the length-delimited message stream.
pub const PROTOCOL_VERSION: u8 = 1;

/// A control request to the daemon.
#[derive(Clone, Copy, PartialEq, Eq, Structural, Debug)]
pub enum Request {
    /// Pause the watcher.
    Pause,
    /// Reload the configuration and restart the watcher.
    Reload,
    /// Restart the watcher without reloading the configuration.
    Restart,
    /// Terminate the daemon.
    Shutdown,
}

/// An error carried back to the client, already rendered as text.
#[derive(Debug)]
pub struct SerializedError {
    /// The rendered error message.
    pub message: String,
}

impl SerializedError {
    /// Wraps a rendered error message.
    pub fn from_error(message: String) -> (r: SerializedError)
        ensures
            r.message@ == message@,
    {
        SerializedError { message }
    }
}

/// The payload of a response.
#[derive(Debug)]
pub enum Body {
    /// The request succeeded.
    Empty,
    /// The request failed with the carried error.
    Error(SerializedError),
}

impl Body {
    /// Whether the response reports success.
    pub fn success(&self) -> (r: bool)
        ensures
            r == (self is Empty),
    {
        match self {
            Body::Empty => true,
            Body::Error(_) => false,
        }
    }
}

/// A response to one request: the payload and how long handling took, in
/// milliseconds.
#[derive(Debug)]
pub struct Response {
    /// How long handling the request took, in milliseconds.
    pub elapsed_millis: u64,
    /// The payload.
    pub body: Body,
}

/// The path of the daemon's socket: the explicit choice when one was given,
/// otherwise `daemon.sock` in the state directory. The caller reports
/// whether the parent directory of the resulting path exists; a missing
/// parent is an error, since nothing could be bound or connected there.
pub fn ensure_uds_path(
    maybe_uds: Option<AbsPath>,
    state_dir: AbsPath,
    parent_exists: bool,
) -> (r: Result<AbsPath, String>)
    ensures
        ({
            let chosen = match maybe_uds {
                Some(p) => p@,
                None => state_dir@.push("daemon.sock"@),
            };
            match r {
                Ok(p) => parent_exists && p@ == chosen,
                Err(_) => !parent_exists,
            }
        }),
{
    let path = match maybe_uds {
        Some(p) => p,
        None => {
            let name = "daemon.sock".to_owned();
            state_dir.join(&name)
        },
    };
    if parent_exists {
        Ok(path)
    } else {
        Err("Parent directory of socket path not found".to_owned())
    }
}

} // verus!
