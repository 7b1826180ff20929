//! `tig checkout <branch>`: makes an existing branch current and restores
//! the files of its last commit.
use vstd::prelude::*;

use crate::commands::branch::branch_exists;
use crate::commands::tig_command::TigCommand;
use crate::error::TigError;
use crate::utils::repo_util::{head_text, set_head_to_branch};

verus! {

/// The command that switches branches.
pub struct Checkout {
    branch_name: String,
}

impl View for Checkout {
    type V = Seq<char>;

    closed spec fn view(&self) -> Seq<char> {
        self.branch_name@
    }
}

impl Checkout {
    /// The command, with the arguments that follow its name: the branch to
    /// switch to.
    pub fn new(args: Vec<String>) -> (r: Result<Self, TigError>)
        ensures
            args@.len() == 0 ==> r == Err::<Self, TigError>(TigError::MissingBranchName),
            args@.len() > 0 ==> (r matches Ok(c) && c@ == args@[0]@),
    {
        let mut args = args;
        if args.len() == 0 {
            return Err(TigError::MissingBranchName);
        }
        Ok(Checkout { branch_name: args.remove(0) })
    }

    /// The branch to switch to.
    pub fn branch_name(&self) -> (r: &str)
        ensures
            r@ == self@,
    {
        self.branch_name.as_str()
    }

    /// The text of the HEAD file after the switch, when the branch is one of
    /// `branches`.
    pub fn target_head(&self, branches: &[String]) -> (r: Result<String, TigError>)
        ensures
            branch_exists(branches@, self@) ==> (r matches Ok(s) && s@ == head_text(self@)),
            !branch_exists(branches@, self@) ==> (r matches Err(TigError::NoSuchBranch(n)) && n@
                == self@),
    {
        set_head_to_branch(branches, self.branch_name.as_str())
    }
}

impl TigCommand for Checkout {
    fn get_name(&self) -> (r: &'static str)
        ensures
            r@ == "checkout"@,
    {
        "checkout"
    }
}

} // verus!
