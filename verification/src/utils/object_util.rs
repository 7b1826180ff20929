//! Where objects and the current branch are found.
use vstd::prelude::*;
use vstd::string::StringSliceAdditionalSpecFns;
use vstd::utf8::*;

use crate::error::TigError;
use crate::utils::repo_util::branch_file_path;
use crate::utils::text_util::split_at_byte;

verus! {

/// The directory and file names of the object `hash`: its first two bytes,
/// and the rest.
pub fn get_directory_name_and_file_name(hash: &str) -> (r: (&str, &str))
    requires
        is_char_boundary(hash.spec_bytes(), 2),
    ensures
        r.0@ == split_at_byte(hash@, 2).0,
        r.1@ == split_at_byte(hash@, 2).1,
{
    let (directory_name, file_name) = hash.split_at(2);
    proof {
        encode_utf8_decode_utf8(directory_name@);
        encode_utf8_decode_utf8(file_name@);
    }
    (directory_name, file_name)
}

/// The path of the current branch's file, from the HEAD file's text `head`.
pub fn get_branch_file_path(head: &str) -> (r: Result<String, TigError>)
    ensures
        match branch_file_path(head@) {
            Ok(p) => r matches Ok(s) && s@ == p,
            Err(e) => r == Err::<String, TigError>(e),
        },
{
    crate::utils::repo_util::get_branch_file_path(head)
}

} // verus!
