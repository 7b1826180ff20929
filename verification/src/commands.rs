//! The commands of the `tig` program: their arguments and the decisions they
//! make. Reading and writing files is left to the program that runs them.
use vstd::prelude::*;

use crate::utils::hash_util::{hex_lower, sha1_digest, sha1_hexdigest};
use crate::utils::text_util::{eq_ascii_case_insensitive, eq_ignore_ascii_case, trim, trimmed};

pub mod branch;
pub mod cat_file;
pub mod checkout;
pub mod commit;
pub mod commit_tree;
pub mod config;
pub mod diff;
pub mod hash_object;
pub mod init;
pub mod log;
pub mod status;
pub mod tig_command;
pub mod write_tree;

verus! {

/// The commands of the program.
#[derive(Clone, Copy, Debug, PartialEq, Eq, Structural)]
pub enum CommandName {
    Init,
    Log,
    HashObject,
    CatFile,
    WriteTree,
    CommitTree,
    Config,
    Commit,
    Status,
    Diff,
    Branch,
    Checkout,
}

/// The name under which each command is invoked.
pub open spec fn command_word(c: CommandName) -> Seq<char> {
    match c {
        CommandName::Init => "init"@,
        CommandName::Log => "log"@,
        CommandName::HashObject => "hash-object"@,
        CommandName::CatFile => "cat-file"@,
        CommandName::WriteTree => "write-tree"@,
        CommandName::CommitTree => "commit-tree"@,
        CommandName::Config => "config"@,
        CommandName::Commit => "commit"@,
        CommandName::Status => "status"@,
        CommandName::Diff => "diff"@,
        CommandName::Branch => "branch"@,
        CommandName::Checkout => "checkout"@,
    }
}

/// Whether the program argument `name` invokes the command `c`: the
/// argument trimmed and lowercased is the command's name (the names are
/// lowercase ASCII letters and `-`, so only characters that lowercase to one
/// ASCII character can match them).
pub open spec fn invokes(name: Seq<char>, c: CommandName) -> bool {
    eq_ignore_ascii_case(trimmed(name), command_word(c))
}

/// The command that the program argument `name` invokes, if any.
pub fn parse_command_name(name: &str) -> (r: Option<CommandName>)
    ensures
        match r {
            Some(c) => invokes(name@, c),
            None => forall|c: CommandName| !invokes(name@, c),
        },
{
    let n = trim(name);
    if eq_ascii_case_insensitive(n, "init") {
        Some(CommandName::Init)
    } else if eq_ascii_case_insensitive(n, "log") {
        Some(CommandName::Log)
    } else if eq_ascii_case_insensitive(n, "hash-object") {
        Some(CommandName::HashObject)
    } else if eq_ascii_case_insensitive(n, "cat-file") {
        Some(CommandName::CatFile)
    } else if eq_ascii_case_insensitive(n, "write-tree") {
        Some(CommandName::WriteTree)
    } else if eq_ascii_case_insensitive(n, "commit-tree") {
        Some(CommandName::CommitTree)
    } else if eq_ascii_case_insensitive(n, "config") {
        Some(CommandName::Config)
    } else if eq_ascii_case_insensitive(n, "commit") {
        Some(CommandName::Commit)
    } else if eq_ascii_case_insensitive(n, "status") {
        Some(CommandName::Status)
    } else if eq_ascii_case_insensitive(n, "diff") {
        Some(CommandName::Diff)
    } else if eq_ascii_case_insensitive(n, "branch") {
        Some(CommandName::Branch)
    } else if eq_ascii_case_insensitive(n, "checkout") {
        Some(CommandName::Checkout)
    } else {
        None
    }
}

/// The hash of `blob`: its SHA-1 digest in lowercase hexadecimal.
pub fn get_hash(blob: &[u8]) -> (r: String)
    ensures
        r@ == hex_lower(sha1_digest(blob@)),
        r@.len() == 40,
{
    sha1_hexdigest(blob)
}

} // verus!
