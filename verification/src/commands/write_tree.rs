//! `tig write-tree`: stores the working directory as trees and blobs and
//! prints the hash of the top tree, built by `utils::tree_util::write_tree`.
use vstd::prelude::*;

use crate::commands::tig_command::TigCommand;
use crate::error::TigError;

verus! {

/// The command that writes the working directory as a tree.
pub struct WriteTree {}

impl WriteTree {
    /// The command; making it cannot fail.
    pub fn new() -> (r: Result<Self, TigError>)
        ensures
            r is Ok,
    {
        Ok(Self {})
    }
}

impl TigCommand for WriteTree {
    fn get_name(&self) -> (r: &'static str)
        ensures
            r@ == "write-tree"@,
    {
        "write-tree"
    }
}

} // verus!
