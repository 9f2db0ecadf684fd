//! The arguments of the server.

use vstd::prelude::*;

verus! {

/// The arguments of the server.
#[derive(Debug)]
pub struct Args {
    /// Path where client files are located
    pub path: String,
    /// Port to listen to
    pub port: u16,
}

impl Default for Args {
    /// The arguments of a call without arguments.
    fn default() -> (args: Self)
        ensures
            args.path@ == "server_files"@,
            args.port == 3000,
    {
        Args { path: "server_files".to_string(), port: 3000 }
    }
}

} // verus!
