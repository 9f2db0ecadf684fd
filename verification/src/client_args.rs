//! The arguments of the client.

use vstd::prelude::*;

verus! {

/// What the client is asked to do.
pub enum Commands {
    /// Uploads all files to the server
    Upload {  },
    /// Request a file by name
    Request { file_name: String },
}

/// The arguments of the client.
pub struct Args {
    /// Path where client files are located
    pub files_path: String,
    /// Path where client computed merkle root is stored on disk
    pub merkle_path: String,
    /// Server IP address
    pub server_address: String,
    /// What to do; nothing when no command was given
    pub command: Option<Commands>,
}

impl Default for Args {
    /// The arguments of a call without arguments.
    fn default() -> (args: Self)
        ensures
            args.files_path@ == "client_files"@,
            args.merkle_path@ == "merkle.bin"@,
            args.server_address@ == "http://127.0.0.1:3000"@,
            args.command is None,
    {
        Args {
            files_path: "client_files".to_string(),
            merkle_path: "merkle.bin".to_string(),
            server_address: "http://127.0.0.1:3000".to_string(),
            command: None,
        }
    }
}

} // verus!
