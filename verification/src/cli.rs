//! The run modes of the relay: the data behind the command line, free of
//! any argument-parsing machinery, so the mode a process runs in can be
//! reasoned about.

use vstd::prelude::*;

verus! {

/// The parsed command line: which side this process plays.
pub struct Args {
    pub mode: Mode,
}

/// Which side of the tunnel this process is: the server side connects out
/// to the game server, the client side accepts game clients.
pub enum Mode {
    Server { address: String, port: u16, token: String, guild_id: u64 },
    Client { token: String, guild_id: u64 },
}

} // verus!
