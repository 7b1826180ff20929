//! Files of the working directory or of a commit: each a path relative to
//! the repository root, with the hash of its content.
use vstd::prelude::*;

use crate::utils::text_util::str_eq;

verus! {

/// The characters of each path and hash.
pub open spec fn files_view(files: Seq<(String, String)>) -> Seq<(Seq<char>, Seq<char>)> {
    files.map_values(|f: (String, String)| (f.0@, f.1@))
}

/// The hash that `files` hold for `path`: that of the last entry for it.
pub open spec fn lookup(files: Seq<(Seq<char>, Seq<char>)>, path: Seq<char>) -> Option<Seq<char>>
    decreases files.len(),
{
    if files.len() == 0 {
        None
    } else if files.last().0 == path {
        Some(files.last().1)
    } else {
        lookup(files.drop_last(), path)
    }
}

/// `files` hold a hash for exactly the paths of their entries.
pub proof fn lemma_lookup_some(files: Seq<(Seq<char>, Seq<char>)>, path: Seq<char>)
    ensures
        lookup(files, path) is Some <==> exists|i: int| 0 <= i < files.len() && #[trigger] files[i].0 == path,
    decreases files.len(),
{
    if files.len() > 0 {
        lemma_lookup_some(files.drop_last(), path);
        if lookup(files.drop_last(), path) is Some {
            let i = choose|i: int| 0 <= i < files.len() - 1 && #[trigger] files.drop_last()[i].0 == path;
            assert(files[i].0 == path);
        }
        if exists|i: int| 0 <= i < files.len() && #[trigger] files[i].0 == path {
            let i = choose|i: int| 0 <= i < files.len() && #[trigger] files[i].0 == path;
            if i < files.len() - 1 {
                assert(files.drop_last()[i].0 == path);
            }
        }
    }
}

/// The hash that `files` hold for `path`.
pub fn find_file(files: &[(String, String)], path: &str) -> (r: Option<String>)
    ensures
        match lookup(files_view(files@), path@) {
            Some(h) => r matches Some(s) && s@ == h,
            None => r is None,
        },
{
    let ghost fv = files_view(files@);
    let mut j: usize = files.len();
    assert(fv.take(j as int) =~= fv);
    while j > 0
        invariant
            fv == files_view(files@),
            j <= files@.len(),
            lookup(fv, path@) == lookup(fv.take(j as int), path@),
        decreases j,
    {
        let entry = &files[j - 1];
        assert(fv.take(j as int).last() == (entry.0@, entry.1@));
        if str_eq(entry.0.as_str(), path) {
            return Some(entry.1.clone());
        }
        assert(fv.take(j as int).drop_last() =~= fv.take(j - 1));
        j = j - 1;
    }
    None
}

/// The path of the entry `name` of the directory at `prefix`, relative to
/// the repository root (`prefix` is empty at the root).
pub open spec fn relative_path_of(prefix: Seq<char>, name: Seq<char>) -> Seq<char> {
    if prefix.len() == 0 {
        name
    } else {
        prefix + "/"@ + name
    }
}

/// The path of the entry `name` of the directory at `prefix`.
pub fn relative_path(prefix: &str, name: &str) -> (r: String)
    ensures
        r@ == relative_path_of(prefix@, name@),
{
    if prefix.is_empty() {
        String::from_str(name)
    } else {
        let mut p = String::from_str(prefix);
        p.append("/");
        p.append(name);
        p
    }
}

} // verus!
