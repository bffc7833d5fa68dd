//! The command-line surface: which mode to run and its settings.  The
//! argument parser itself lives outside the library and fills these
//! values in.

use vstd::prelude::*;

verus! {

/// What the process should do: serve the aggregated book, or subscribe to
/// a running server and print what it streams.
#[derive(Clone)]
pub enum Command {
    /// Runs the server.
    Server {
        /// Address for the server.
        address: String,
        /// The depth of the book.
        depth: usize,
        /// The symbol to be pulled from the websocket.
        symbol: String,
    },
    /// Runs the client.
    Client {
        /// Address of the server to connect to.
        address: String,
    },
}

/// The parsed command line.
#[derive(Clone)]
pub struct Cli {
    pub command: Command,
}

} // verus!
