//! What every command offers.
use vstd::prelude::*;

verus! {

/// A command of the `tig` program.
pub trait TigCommand {
    /// The name under which the command is invoked.
    fn get_name(&self) -> (r: &'static str);
}

} // verus!
