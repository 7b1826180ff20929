//! `tig commit -m <message>`: commits the working directory on the current
//! branch.
use vstd::prelude::*;
use vstd::string::StringSliceAdditionalSpecFns;
use vstd::utf8::*;

use crate::commands::tig_command::TigCommand;
use crate::error::TigError;
use crate::utils::repo_util::last_index_of;
use crate::utils::text_util::{chars_of, split_at_byte, str_eq, trim, trimmed};

verus! {

/// The command that commits the working directory.
pub struct Commit {
    message: String,
}

impl View for Commit {
    type V = Seq<char>;

    closed spec fn view(&self) -> Seq<char> {
        self.message@
    }
}

/// The last `/`-separated part of `path`.
pub open spec fn last_component(path: Seq<char>) -> Seq<char> {
    match last_index_of(path, '/') {
        Some(i) => path.skip(i + 1),
        None => path,
    }
}

/// What `commit` prints once it has committed: the branch (the last part of
/// its file's path), the first seven bytes of the commit's hash and the
/// message.
pub open spec fn commit_summary_text(
    branch_file: Seq<char>,
    commit_hash: Seq<char>,
    message: Seq<char>,
) -> Seq<char> {
    "["@ + last_component(branch_file) + " "@ + split_at_byte(commit_hash, 7).0 + "] "@ + message
}

impl Commit {
    /// The command, with the arguments that follow its name: `-m` and a
    /// message that is not blank.
    pub fn new(args: Vec<String>) -> (r: Result<Self, TigError>)
        ensures
            !(args@.len() > 0 && args@[0]@ == "-m"@) ==> r == Err::<Self, TigError>(
                TigError::MissingMessageFlag,
            ),
            args@.len() > 0 && args@[0]@ == "-m"@ ==> if args@.len() > 1 && trimmed(args@[1]@).len()
                > 0 {
                r matches Ok(c) && c@ == args@[1]@
            } else {
                r == Err::<Self, TigError>(TigError::EmptyMessage)
            },
    {
        let mut args = args;
        if args.len() == 0 || !str_eq(args[0].as_str(), "-m") {
            return Err(TigError::MissingMessageFlag);
        }
        if args.len() < 2 || trim(args[1].as_str()).is_empty() {
            return Err(TigError::EmptyMessage);
        }
        Ok(Self { message: args.remove(1) })
    }

    /// The commit message.
    pub fn message(&self) -> (r: &str)
        ensures
            r@ == self@,
    {
        self.message.as_str()
    }

    /// What to print once the commit `commit_hash` is written to the branch
    /// file `branch_file`.
    pub fn summary(&self, branch_file: &str, commit_hash: &str) -> (r: String)
        requires
            is_char_boundary(commit_hash.spec_bytes(), 7),
        ensures
            r@ == commit_summary_text(branch_file@, commit_hash@, self@),
    {
        let cs = chars_of(branch_file);
        let mut j: usize = cs.len();
        assert(branch_file@.take(j as int) =~= branch_file@);
        while j > 0 && cs[j - 1] != '/'
            invariant
                cs@ == branch_file@,
                j <= cs@.len(),
                last_index_of(branch_file@, '/') == last_index_of(branch_file@.take(j as int), '/'),
            decreases j,
        {
            assert(branch_file@.take(j as int).drop_last() =~= branch_file@.take(j - 1));
            j = j - 1;
        }
        let name = if j == 0 {
            assert(branch_file@.take(0) =~= Seq::<char>::empty());
            branch_file
        } else {
            assert(branch_file@.take(j as int).last() == '/');
            assert(branch_file@.skip(j as int) =~= branch_file@.subrange(j as int, cs@.len() as int));
            branch_file.substring_char(j, cs.len())
        };
        let (short, _) = commit_hash.split_at(7);
        proof {
            encode_utf8_decode_utf8(short@);
        }
        let mut text = String::from_str("[");
        text.append(name);
        text.append(" ");
        text.append(short);
        text.append("] ");
        text.append(self.message.as_str());
        text
    }
}

impl TigCommand for Commit {
    fn get_name(&self) -> (r: &'static str)
        ensures
            r@ == "commit"@,
    {
        "commit"
    }
}

} // verus!
