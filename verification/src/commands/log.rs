//! `tig log`: the commits of the current branch, newest first. Each commit
//! is printed by `Commit::get_print_text`, and its parent is read next.
use vstd::prelude::*;

use crate::commands::tig_command::TigCommand;

verus! {

/// The command that shows the history.
pub struct Log {}

impl Log {
    /// The command.
    pub fn new() -> (r: Self) {
        Self {}
    }
}

impl TigCommand for Log {
    fn get_name(&self) -> (r: &'static str)
        ensures
            r@ == "log"@,
    {
        "log"
    }
}

} // verus!
