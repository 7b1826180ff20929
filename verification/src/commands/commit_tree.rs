//! `tig commit-tree <tree> [-m <message>] [-p <parent>]`: commits a stored
//! tree, printing the new commit's hash.
use vstd::prelude::*;

use crate::commands::tig_command::TigCommand;
use crate::error::TigError;
use crate::utils::text_util::{str_eq, trim, trimmed};

verus! {

/// The command that commits a tree.
pub struct CommitTree {
    tree_hash: String,
    message: String,
    parent_hash: Option<String>,
}

/// What the command holds.
pub struct CommitTreeView {
    pub tree_hash: Seq<char>,
    pub message: Seq<char>,
    pub parent_hash: Option<Seq<char>>,
}

impl View for CommitTree {
    type V = CommitTreeView;

    closed spec fn view(&self) -> CommitTreeView {
        CommitTreeView {
            tree_hash: self.tree_hash@,
            message: self.message@,
            parent_hash: match self.parent_hash {
                Some(p) => Some(p@),
                None => None,
            },
        }
    }
}

/// What the options of `commit-tree` give: a message and a parent, each
/// taken from the argument after the last `-m` or `-p` (none where that
/// option is the last argument); or the first option that is neither.
pub enum OptionScan {
    Options(Option<Seq<char>>, Option<Seq<char>>),
    Unsupported(Seq<char>),
}

/// The argument after position `i`, if any.
pub open spec fn next_arg(args: Seq<Seq<char>>, i: int) -> Option<Seq<char>> {
    if i + 1 < args.len() {
        Some(args[i + 1])
    } else {
        None
    }
}

/// Reads the options in `args` from position `i` on, with the message and
/// parent read so far.
pub open spec fn scan_options(
    args: Seq<Seq<char>>,
    i: int,
    message: Option<Seq<char>>,
    parent: Option<Seq<char>>,
) -> OptionScan
    decreases args.len() - i,
{
    if i < 0 || i >= args.len() {
        OptionScan::Options(message, parent)
    } else if args[i] == "-m"@ {
        if i + 1 < args.len() {
            scan_options(args, i + 2, Some(args[i + 1]), parent)
        } else {
            OptionScan::Options(None, parent)
        }
    } else if args[i] == "-p"@ {
        if i + 1 < args.len() {
            scan_options(args, i + 2, message, Some(args[i + 1]))
        } else {
            OptionScan::Options(message, None)
        }
    } else {
        OptionScan::Unsupported(args[i])
    }
}

/// Where the options of `commit-tree` take their values from: reading the
/// options from position `i` on, with `message` and `parent` read so far, a
/// parent that comes out is `parent` or the argument right after some `-p`
/// at or after `i`; where no `-p` stands there, the parent is `parent`. The
/// same holds of the message and `-m`.
pub proof fn law_options_come_from_their_flags(
    args: Seq<Seq<char>>,
    i: int,
    message: Option<Seq<char>>,
    parent: Option<Seq<char>>,
)
    requires
        0 <= i,
    ensures
        scan_options(args, i, message, parent) matches OptionScan::Options(m, p) ==> {
            &&& (p matches Some(v) ==> p == parent || exists|k: int|
                i <= k && k + 1 < args.len() && args[k] == "-p"@ && #[trigger] args[k + 1] == v)
            &&& (m matches Some(v) ==> m == message || exists|k: int|
                i <= k && k + 1 < args.len() && args[k] == "-m"@ && #[trigger] args[k + 1] == v)
            &&& ((forall|k: int| i <= k < args.len() ==> #[trigger] args[k] != "-p"@) ==> p
                == parent)
            &&& ((forall|k: int| i <= k < args.len() ==> #[trigger] args[k] != "-m"@) ==> m
                == message)
        },
    decreases args.len() - i,
{
    if i >= args.len() {
    } else if args[i] == "-m"@ {
        if i + 1 < args.len() {
            law_options_come_from_their_flags(args, i + 2, Some(args[i + 1]), parent);
        }
    } else if args[i] == "-p"@ {
        if i + 1 < args.len() {
            law_options_come_from_their_flags(args, i + 2, message, Some(args[i + 1]));
        }
    }
}

/// The characters of each argument.
pub open spec fn args_view(args: Seq<String>) -> Seq<Seq<char>> {
    args.map_values(|a: String| a@)
}

/// The argument after position `i`, if any.
fn next_argument(args: &Vec<String>, i: usize) -> (r: Option<String>)
    requires
        i < args@.len(),
    ensures
        match next_arg(args_view(args@), i as int) {
            Some(a) => r matches Some(s) && s@ == a,
            None => r is None,
        },
{
    if args.len() - i > 1 {
        Some(args[i + 1].clone())
    } else {
        None
    }
}

impl CommitTree {
    /// The command, with the arguments that follow its name: the tree's
    /// hash, then the options `-m <message>` and `-p <parent>`. The message
    /// must be given and not be blank.
    pub fn new(args: Vec<String>) -> (r: Result<Self, TigError>)
        ensures
            args@.len() == 0 ==> r == Err::<Self, TigError>(TigError::MissingTreeHashArgument),
            args@.len() > 0 ==> match scan_options(args_view(args@), 1, None, None) {
                OptionScan::Unsupported(k) => r matches Err(TigError::UnsupportedOption(s)) && s@
                    == k,
                OptionScan::Options(None, _) => r == Err::<Self, TigError>(
                    TigError::MissingMessage,
                ),
                OptionScan::Options(Some(m), p) => if trimmed(m).len() == 0 {
                    r == Err::<Self, TigError>(TigError::EmptyMessage)
                } else {
                    r matches Ok(c) && c@ == (CommitTreeView {
                        tree_hash: args@[0]@,
                        message: m,
                        parent_hash: p,
                    })
                },
            },
            r matches Ok(c) ==> exists|k: int|
                1 <= k && k + 1 < args@.len() && args@[k]@ == "-m"@ && #[trigger] args@[k + 1]@
                    == c@.message,
            r matches Ok(c) ==> (c@.parent_hash matches Some(p) ==> exists|k: int|
                1 <= k && k + 1 < args@.len() && args@[k]@ == "-p"@ && #[trigger] args@[k + 1]@
                    == p),
            r matches Ok(c) ==> ((forall|k: int| 1 <= k < args@.len() ==> #[trigger] args@[k]@
                != "-p"@) ==> c@.parent_hash is None),
    {
        if args.len() == 0 {
            return Err(TigError::MissingTreeHashArgument);
        }
        let ghost av = args_view(args@);
        let mut message: Option<String> = None;
        let mut parent: Option<String> = None;
        let mut i: usize = 1;
        proof {
            reveal_strlit("-m");
            reveal_strlit("-p");
        }
        while i < args.len()
            invariant
                av == args_view(args@),
                1 <= i,
                scan_options(av, 1, None, None) == scan_options(
                    av,
                    i as int,
                    match message {
                        Some(m) => Some(m@),
                        None => None,
                    },
                    match parent {
                        Some(p) => Some(p@),
                        None => None,
                    },
                ),
            decreases args.len() - i,
        {
            let key = args[i].as_str();
            assert(key@ == av[i as int]);
            if str_eq(key, "-m") {
                message = next_argument(&args, i);
            } else if str_eq(key, "-p") {
                parent = next_argument(&args, i);
            } else {
                return Err(TigError::UnsupportedOption(String::from_str(key)));
            }
            if args.len() - i <= 2 {
                i = args.len();
            } else {
                i = i + 2;
            }
        }
        let message = match message {
            Some(m) => m,
            None => return Err(TigError::MissingMessage),
        };
        if trim(message.as_str()).is_empty() {
            return Err(TigError::EmptyMessage);
        }
        proof {
            law_options_come_from_their_flags(av, 1, None, None);
            assert forall|k: int| 0 <= k < args@.len() implies av[k] == #[trigger] args@[k]@ by {}
        }
        let mut args = args;
        let tree_hash = args.remove(0);
        Ok(Self { tree_hash, message, parent_hash: parent })
    }

    /// The hash of the tree to commit.
    pub fn tree_hash(&self) -> (r: &str)
        ensures
            r@ == self@.tree_hash,
    {
        self.tree_hash.as_str()
    }

    /// The commit message.
    pub fn message(&self) -> (r: &str)
        ensures
            r@ == self@.message,
    {
        self.message.as_str()
    }

    /// The hash of the parent commit, if one was given.
    pub fn parent_hash(&self) -> (r: Option<&str>)
        ensures
            match self@.parent_hash {
                Some(p) => r matches Some(s) && s@ == p,
                None => r is None,
            },
    {
        match &self.parent_hash {
            Some(p) => Some(p.as_str()),
            None => None,
        }
    }
}

impl TigCommand for CommitTree {
    fn get_name(&self) -> (r: &'static str)
        ensures
            r@ == "commit-tree"@,
    {
        "commit-tree"
    }
}

} // verus!
