//! The arguments of the program that builds a tree of a directory and proves
//! one of its files.

use vstd::prelude::*;

verus! {

/// The arguments of the program.
#[derive(Debug)]
pub struct Args {
    /// Path where client files are located
    pub path: String,
}

impl Default for Args {
    /// The arguments of a call without arguments.
    fn default() -> (args: Self)
        ensures
            args.path@ == "target_files"@,
    {
        Args { path: "target_files".to_string() }
    }
}

} // verus!
