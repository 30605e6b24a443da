//! The command-line surface: which subcommand was chosen and with which
//! options. The parsing itself happens outside; these are the values the
//! rest of the program works with.

use vstd::prelude::*;

use crate::path::AbsPath;
use crate::rpc::Request;

verus! {

/// The parsed command line.
pub struct Arg {
    /// The chosen subcommand.
    pub command: Command,
    /// An explicit configuration file, if given.
    pub config: Option<AbsPath>,
    /// An explicit daemon socket, if given.
    pub uds: Option<AbsPath>,
    /// Never touch the system, whatever the configuration says.
    pub dry_run: bool,
}

/// The subcommands.
pub enum Command {
    /// Start the daemon and watch the filesystem continuously.
    Daemon(DaemonArgs),
    /// Perform a full scan and apply the exclusions.
    Scan(ScanArgs),
    /// Talk to a running daemon.
    Client(ClientCommand),
}

/// The client verbs, each with its connection options.
pub enum ClientCommand {
    /// Pause the daemon.
    Pause(ClientArgs),
    /// Reload the configuration and restart the daemon.
    Reload(ClientArgs),
    /// Restart the daemon without reloading.
    Restart(ClientArgs),
    /// Shut the daemon down.
    Shutdown(ClientArgs),
}

impl ClientCommand {
    /// The connection options of the verb.
    pub fn args(&self) -> (r: &ClientArgs)
        ensures
            match self {
                ClientCommand::Pause(a) => r == a,
                ClientCommand::Reload(a) => r == a,
                ClientCommand::Restart(a) => r == a,
                ClientCommand::Shutdown(a) => r == a,
            },
    {
        match self {
            ClientCommand::Pause(a) => a,
            ClientCommand::Reload(a) => a,
            ClientCommand::Restart(a) => a,
            ClientCommand::Shutdown(a) => a,
        }
    }

}

impl<'a> From<&'a ClientCommand> for Request {
    /// The request the verb stands for.
    fn from(cmd: &'a ClientCommand) -> (r: Request) {
        match cmd {
            ClientCommand::Pause(_) => Request::Pause,
            ClientCommand::Reload(_) => Request::Reload,
            ClientCommand::Restart(_) => Request::Restart,
            ClientCommand::Shutdown(_) => Request::Shutdown,
        }
    }
}

impl<'a> vstd::std_specs::convert::FromSpecImpl<&'a ClientCommand> for Request {
    open spec fn obeys_from_spec() -> bool {
        true
    }

    open spec fn from_spec(cmd: &'a ClientCommand) -> Request {
        match cmd {
            ClientCommand::Pause(_) => Request::Pause,
            ClientCommand::Reload(_) => Request::Reload,
            ClientCommand::Restart(_) => Request::Restart,
            ClientCommand::Shutdown(_) => Request::Shutdown,
        }
    }
}

/// Options of the daemon subcommand.
pub struct DaemonArgs {
    /// Bind to this socket.
    pub uds: Option<AbsPath>,
}

/// Options shared by every client verb.
pub struct ClientArgs {
    /// Connect through this socket.
    pub uds: Option<AbsPath>,
}

/// Options of the scan subcommand.
pub struct ScanArgs {
    /// Never touch the system, whatever the configuration says.
    pub dry_run: bool,
    /// Connect to the daemon through this socket while applying.
    pub uds: Option<AbsPath>,
}

} // verus!
