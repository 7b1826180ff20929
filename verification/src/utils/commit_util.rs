//! Making a commit.
use ini::Ini;
use vstd::prelude::*;

use crate::error::TigError;
use crate::models::objects::commit::{is_new_commit, new_commit_error, Commit};
use crate::models::objects::tig_object::{object_hash, TigObject};
use crate::utils::config_util::ini_entries;

verus! {

/// The characters of an optional string slice.
pub open spec fn option_str_view(s: Option<&str>) -> Option<Seq<char>> {
    match s {
        Some(p) => Some(p@),
        None => None,
    }
}

/// A new commit of `tree_hash` by the configured user, with its hash. The
/// caller stores the commit under that hash.
///
/// `tree_exists` tells whether the object of `tree_hash` is stored.
pub fn build_commit(
    tree_hash: &str,
    parent_hash: Option<&str>,
    message: &str,
    tree_exists: bool,
    config: &Ini,
) -> (r: Result<(Commit, String), TigError>)
    ensures
        match new_commit_error(tree_exists, ini_entries(*config)) {
            Some(e) => r == Err::<(Commit, String), TigError>(e),
            None => match r {
                Ok((c, h)) => is_new_commit(
                    c@,
                    tree_hash@,
                    option_str_view(parent_hash),
                    message@,
                    ini_entries(*config),
                ) && h@ == object_hash("commit"@, c.spec_content()),
                Err(e) => e == TigError::Clock,
            },
        },
{
    let parent = match parent_hash {
        Some(p) => Some(String::from_str(p)),
        None => None,
    };
    let commit = Commit::new(
        String::from_str(tree_hash),
        parent,
        String::from_str(message),
        tree_exists,
        config,
    )?;
    let hash = commit.hash();
    Ok((commit, hash))
}

} // verus!
