//! `tig branch [name]`: lists the branches, the current one marked, or
//! creates a branch at the current commit.
use vstd::prelude::*;

use crate::commands::tig_command::TigCommand;
use crate::error::TigError;
use crate::utils::ptl_util::{colored_lines_view, Color, ColoredLine, ColoredLineView};
use crate::utils::repo_util::has_branch;

verus! {

/// The command that lists or creates branches.
pub struct Branch {
    branch_name: Option<String>,
}

impl View for Branch {
    type V = Option<Seq<char>>;

    closed spec fn view(&self) -> Option<Seq<char>> {
        match self.branch_name {
            Some(n) => Some(n@),
            None => None,
        }
    }
}

/// Whether `name` is one of `branches`.
pub open spec fn branch_exists(branches: Seq<String>, name: Seq<char>) -> bool {
    exists|i: int| 0 <= i < branches.len() && #[trigger] branches[i]@ == name
}

/// How a branch is listed: the current one in green after `* `, the others
/// after two spaces.
pub open spec fn branch_line(branch: Seq<char>, current: Seq<char>) -> ColoredLineView {
    if branch == current {
        ColoredLineView { text: "* "@ + branch, color: Some(Color::Green) }
    } else {
        ColoredLineView { text: "  "@ + branch, color: None }
    }
}

impl Branch {
    /// The command, with the arguments that follow its name: the name of
    /// the branch to create, if any.
    pub fn new(args: Vec<String>) -> (r: Self)
        ensures
            args@.len() > 0 ==> r@ == Some(args@[0]@),
            args@.len() == 0 ==> r@ is None,
    {
        let mut args = args;
        if args.len() > 0 {
            Branch { branch_name: Some(args.remove(0)) }
        } else {
            Branch { branch_name: None }
        }
    }

    /// The name of the branch to create, if any.
    pub fn branch_name(&self) -> (r: Option<&str>)
        ensures
            match self@ {
                Some(n) => r matches Some(s) && s@ == n,
                None => r is None,
            },
    {
        match &self.branch_name {
            Some(n) => Some(n.as_str()),
            None => None,
        }
    }

    /// The commit that a new branch `name` starts at: the current branch's
    /// last commit. There is none when a branch of that name exists already,
    /// or when there is no commit yet.
    pub fn new_branch_commit(branches: &[String], name: &str, last_commit: Option<String>) -> (r:
        Result<String, TigError>)
        ensures
            branch_exists(branches@, name@) ==> (r matches Err(TigError::BranchExists(n)) && n@
                == name@),
            !branch_exists(branches@, name@) ==> match last_commit {
                Some(h) => r matches Ok(s) && s@ == h@,
                None => r == Err::<String, TigError>(TigError::NoCommits),
            },
    {
        if has_branch(branches, name) {
            return Err(TigError::BranchExists(String::from_str(name)));
        }
        match last_commit {
            Some(h) => Ok(h),
            None => Err(TigError::NoCommits),
        }
    }

    /// The listing of `branches`, in their order, with `current` marked.
    pub fn list_lines(branches: &[String], current: &str) -> (r: Vec<ColoredLine>)
        ensures
            colored_lines_view(r@) == branches@.map_values(|b: String| branch_line(b@, current@)),
    {
        let mut out: Vec<ColoredLine> = Vec::new();
        let mut i: usize = 0;
        while i < branches.len()
            invariant
                i <= branches@.len(),
                colored_lines_view(out@) == branches@.take(i as int).map_values(
                    |b: String| branch_line(b@, current@),
                ),
            decreases branches.len() - i,
        {
            let b = branches[i].as_str();
            let line = if crate::utils::text_util::str_eq(b, current) {
                let mut text = String::from_str("* ");
                text.append(b);
                ColoredLine { text, color: Some(Color::Green) }
            } else {
                let mut text = String::from_str("  ");
                text.append(b);
                ColoredLine { text, color: None }
            };
            let ghost before = colored_lines_view(out@);
            out.push(line);
            assert(colored_lines_view(out@) =~= before.push(line@));
            assert(branches@.take(i + 1) =~= branches@.take(i as int).push(branches@[i as int]));
            assert(colored_lines_view(out@) =~= branches@.take(i + 1).map_values(
                |b: String| branch_line(b@, current@),
            ));
            i = i + 1;
        }
        assert(branches@.take(branches@.len() as int) =~= branches@);
        out
    }
}

impl TigCommand for Branch {
    fn get_name(&self) -> (r: &'static str)
        ensures
            r@ == "branch"@,
    {
        "branch"
    }
}

} // verus!
