//! Repository metadata: the HEAD file, which names the current branch by a
//! reference `ref: refs/heads/<name>`, and the branch files, which hold the
//! hash of the branch's last commit.
use vstd::prelude::*;

use crate::error::TigError;
use crate::utils::text_util::{chars_of, is_ws, str_eq, strip_prefix, strip_prefix_spec, trim, trim_end, trim_start, trimmed};

verus! {

/// The position of the last `x` in `s`.
pub open spec fn last_index_of<T>(s: Seq<T>, x: T) -> Option<int>
    decreases s.len(),
{
    if s.len() == 0 {
        None
    } else if s.last() == x {
        Some(s.len() - 1)
    } else {
        last_index_of(s.drop_last(), x)
    }
}

/// The reference that the HEAD file's text `head` names: what follows
/// `ref: `, trimmed, if that is not empty.
pub open spec fn head_ref(head: Seq<char>) -> Option<Seq<char>> {
    match strip_prefix_spec(head, "ref: "@) {
        Some(rest) => if trimmed(rest).len() > 0 {
            Some(trimmed(rest))
        } else {
            None
        },
        None => None,
    }
}

/// The path of the current branch's file, from the HEAD file's text.
pub open spec fn branch_file_path(head: Seq<char>) -> Result<Seq<char>, TigError> {
    match head_ref(head) {
        Some(r) => Ok(".tig/"@ + r),
        None => Err(TigError::InvalidHead),
    }
}

/// The current branch's name, from the HEAD file's text: the part of the
/// reference after its last `/`.
pub open spec fn current_branch_name(head: Seq<char>) -> Result<Seq<char>, TigError> {
    match head_ref(head) {
        Some(r) => match last_index_of(r, '/') {
            Some(i) => Ok(r.skip(i + 1)),
            None => Err(TigError::InvalidHeadRef),
        },
        None => Err(TigError::InvalidHead),
    }
}

/// The text of a HEAD file that names the branch `name`.
pub open spec fn head_text(name: Seq<char>) -> Seq<char> {
    "ref: refs/heads/"@ + name + "\n"@
}

/// The commit hash that a branch file's text holds: the text trimmed, if
/// that is not empty.
pub open spec fn branch_commit(content: Seq<char>) -> Option<Seq<char>> {
    if trimmed(content).len() > 0 {
        Some(trimmed(content))
    } else {
        None
    }
}

/// The reference named in the HEAD file's text `head`.
fn read_head_ref(head: &str) -> (r: Option<&str>)
    ensures
        match head_ref(head@) {
            Some(s) => r matches Some(t) && t@ == s,
            None => r is None,
        },
{
    match strip_prefix(head, "ref: ") {
        Some(rest) => {
            let t = trim(rest);
            if t.is_empty() {
                None
            } else {
                Some(t)
            }
        },
        None => None,
    }
}

/// The path of the current branch's file: `.tig/` followed by the reference
/// that the HEAD file's text `head` names.
pub fn get_branch_file_path(head: &str) -> (r: Result<String, TigError>)
    ensures
        match branch_file_path(head@) {
            Ok(p) => r matches Ok(s) && s@ == p,
            Err(e) => r == Err::<String, TigError>(e),
        },
{
    match read_head_ref(head) {
        Some(reference) => {
            let mut path = String::from_str(".tig/");
            path.append(reference);
            Ok(path)
        },
        None => Err(TigError::InvalidHead),
    }
}

/// The name of the current branch: the last `/`-separated part of the
/// reference that the HEAD file's text `head` names.
pub fn get_current_branch_name(head: &str) -> (r: Result<String, TigError>)
    ensures
        match current_branch_name(head@) {
            Ok(n) => r matches Ok(s) && s@ == n,
            Err(e) => r == Err::<String, TigError>(e),
        },
{
    let reference = match read_head_ref(head) {
        Some(t) => t,
        None => return Err(TigError::InvalidHead),
    };
    let cs = chars_of(reference);
    let mut j: usize = cs.len();
    assert(reference@.take(j as int) =~= reference@);
    while j > 0 && cs[j - 1] != '/'
        invariant
            cs@ == reference@,
            j <= cs@.len(),
            last_index_of(reference@, '/') == last_index_of(reference@.take(j as int), '/'),
        decreases j,
    {
        assert(reference@.take(j as int).drop_last() =~= reference@.take(j - 1));
        j = j - 1;
    }
    if j == 0 {
        assert(reference@.take(0) =~= Seq::<char>::empty());
        return Err(TigError::InvalidHeadRef);
    }
    assert(reference@.take(j as int).last() == '/');
    assert(reference@.skip(j as int) =~= reference@.subrange(j as int, cs@.len() as int));
    Ok(String::from_str(reference.substring_char(j, cs.len())))
}

/// The hash of the current branch's last commit, from the text of its
/// branch file (`None` where the file could not be read): the text trimmed,
/// if that is not empty.
pub fn get_last_commit_hash(branch_file: Option<&str>) -> (r: Option<String>)
    ensures
        match branch_file {
            Some(content) => match branch_commit(content@) {
                Some(h) => r matches Some(s) && s@ == h,
                None => r is None,
            },
            None => r is None,
        },
{
    match branch_file {
        Some(content) => {
            let t = trim(content);
            if t.is_empty() {
                None
            } else {
                Some(String::from_str(t))
            }
        },
        None => None,
    }
}

/// The text of a HEAD file that names the branch `name`.
pub fn head_for_branch(name: &str) -> (r: String)
    ensures
        r@ == head_text(name@),
{
    let mut head = String::from_str("ref: refs/heads/");
    head.append(name);
    head.append("\n");
    head
}

/// Whether `name` is one of `branches`.
pub fn has_branch(branches: &[String], name: &str) -> (r: bool)
    ensures
        r == exists|i: int| 0 <= i < branches@.len() && #[trigger] branches@[i]@ == name@,
{
    let mut i: usize = 0;
    while i < branches.len()
        invariant
            i <= branches@.len(),
            forall|k: int| 0 <= k < i ==> #[trigger] branches@[k]@ != name@,
        decreases branches.len() - i,
    {
        if str_eq(branches[i].as_str(), name) {
            return true;
        }
        i = i + 1;
    }
    false
}

/// The text to write to the HEAD file to make `branch_name` current, which
/// must be one of the existing `branches`.
pub fn set_head_to_branch(branches: &[String], branch_name: &str) -> (r: Result<String, TigError>)
    ensures
        (exists|i: int| 0 <= i < branches@.len() && #[trigger] branches@[i]@ == branch_name@) ==> (
        r matches Ok(s) && s@ == head_text(branch_name@)),
        !(exists|i: int| 0 <= i < branches@.len() && #[trigger] branches@[i]@ == branch_name@) ==> (
        r matches Err(TigError::NoSuchBranch(n)) && n@ == branch_name@),
{
    if !has_branch(branches, branch_name) {
        return Err(TigError::NoSuchBranch(String::from_str(branch_name)));
    }
    Ok(head_for_branch(branch_name))
}

proof fn lemma_trim_start_no_ws(s: Seq<char>)
    requires
        s.len() > 0,
        !is_ws(s[0]),
    ensures
        trim_start(s) == s,
{
}

proof fn lemma_trim_end_newline(x: Seq<char>)
    requires
        x.len() > 0,
        !is_ws(x.last()),
    ensures
        trim_end(x + seq!['\n']) == x,
{
    let s = x + seq!['\n'];
    assert(s.last() == '\n');
    assert(is_ws(s.last()));
    assert(s.drop_last() =~= x);
    assert(trim_end(s) == trim_end(s.drop_last()));
}

proof fn lemma_last_index_after(p: Seq<char>, b: Seq<char>)
    requires
        p.len() > 0,
        p.last() == '/',
        forall|k: int| 0 <= k < b.len() ==> b[k] != '/',
    ensures
        last_index_of(p + b, '/') == Some(p.len() - 1),
    decreases b.len(),
{
    if b.len() == 0 {
        assert(p + b =~= p);
    } else {
        assert((p + b).drop_last() =~= p + b.drop_last());
        lemma_last_index_after(p, b.drop_last());
    }
}

/// The HEAD text written for a branch names that branch: its file is
/// `.tig/refs/heads/<name>`, and reading the current branch back gives its
/// name where the name has no `/`, as long as the name does not end in white
/// space.
pub proof fn law_head_names_branch(name: Seq<char>)
    requires
        name.len() > 0 ==> !is_ws(name.last()),
    ensures
        branch_file_path(head_text(name)) == Ok::<Seq<char>, TigError>(
            ".tig/refs/heads/"@ + name,
        ),
        (forall|k: int| 0 <= k < name.len() ==> name[k] != '/') ==> current_branch_name(
            head_text(name),
        ) == Ok::<Seq<char>, TigError>(name),
{
    reveal_strlit("ref: refs/heads/");
    reveal_strlit("ref: ");
    reveal_strlit("refs/heads/");
    reveal_strlit("\n");
    reveal_strlit(".tig/");
    reveal_strlit(".tig/refs/heads/");
    let h = head_text(name);
    let x = "refs/heads/"@ + name;
    assert(h =~= "ref: "@ + (x + seq!['\n']));
    assert(h.take(5) =~= "ref: "@);
    assert(h.skip(5) =~= x + seq!['\n']);
    let rest = x + seq!['\n'];
    assert(rest[0] == 'r');
    lemma_trim_start_no_ws(rest);
    if name.len() > 0 {
        assert(x.last() == name.last());
    } else {
        assert(x.last() == '/');
    }
    lemma_trim_end_newline(x);
    assert(trimmed(rest) == x);
    if forall|k: int| 0 <= k < name.len() ==> name[k] != '/' {
        lemma_last_index_after("refs/heads/"@, name);
        assert(x.skip(11) =~= name);
    }
    assert(".tig/"@ + x =~= ".tig/refs/heads/"@ + name);
}

} // verus!
