//! `tig status`: how the working directory differs from the last commit.
use vstd::prelude::*;

use crate::commands::tig_command::TigCommand;
use crate::utils::working_dir_util::{files_view, find_file, lemma_lookup_some, lookup};

verus! {

/// The paths of `files`, in their order, for which `other` holds no hash.
pub open spec fn paths_missing_from(
    files: Seq<(Seq<char>, Seq<char>)>,
    other: Seq<(Seq<char>, Seq<char>)>,
) -> Seq<Seq<char>>
    decreases files.len(),
{
    if files.len() == 0 {
        Seq::empty()
    } else {
        paths_missing_from(files.drop_last(), other) + if lookup(other, files.last().0) is None {
            seq![files.last().0]
        } else {
            Seq::empty()
        }
    }
}

/// The paths of `working`, in their order, for which `committed` holds
/// another hash.
pub open spec fn paths_modified(
    working: Seq<(Seq<char>, Seq<char>)>,
    committed: Seq<(Seq<char>, Seq<char>)>,
) -> Seq<Seq<char>>
    decreases working.len(),
{
    if working.len() == 0 {
        Seq::empty()
    } else {
        let f = working.last();
        paths_modified(working.drop_last(), committed) + if lookup(committed, f.0) matches Some(
            h,
        ) && h != f.1 {
            seq![f.0]
        } else {
            Seq::empty()
        }
    }
}

/// Whether no two of `files` have the same path.
pub open spec fn distinct_paths(files: Seq<(Seq<char>, Seq<char>)>) -> bool {
    forall|i: int, j: int|
        0 <= i < files.len() && 0 <= j < files.len() && i != j ==> #[trigger] files[i].0
            != #[trigger] files[j].0
}

/// Whether `v` holds `p`.
pub open spec fn has_path(v: Seq<Seq<char>>, p: Seq<char>) -> bool {
    exists|i: int| 0 <= i < v.len() && #[trigger] v[i] == p
}

/// Whether `files` hold a hash for `p` other than `h`.
pub open spec fn hash_differs(files: Seq<(Seq<char>, Seq<char>)>, p: Seq<char>, h: Seq<char>) -> bool {
    lookup(files, p) matches Some(c) && c != h
}

/// Whether one of `files` has the path `p` and the hash `h`.
pub open spec fn has_entry(files: Seq<(Seq<char>, Seq<char>)>, p: Seq<char>, h: Seq<char>) -> bool {
    exists|i: int| 0 <= i < files.len() && #[trigger] files[i] == (p, h)
}

proof fn lemma_has_path_push(v: Seq<Seq<char>>, x: Seq<Seq<char>>, p: Seq<char>)
    requires
        x.len() <= 1,
    ensures
        has_path(v + x, p) <==> (has_path(v, p) || has_path(x, p)),
{
    if has_path(v + x, p) {
        let i = choose|i: int| 0 <= i < (v + x).len() && #[trigger] (v + x)[i] == p;
        if i < v.len() {
            assert(v[i] == p);
        } else {
            assert(x[i - v.len()] == p);
        }
    }
    if has_path(v, p) {
        let i = choose|i: int| 0 <= i < v.len() && #[trigger] v[i] == p;
        assert((v + x)[i] == p);
    }
    if has_path(x, p) {
        let i = choose|i: int| 0 <= i < x.len() && #[trigger] x[i] == p;
        assert((v + x)[v.len() + i] == p);
    }
}

proof fn lemma_has_entry_last(files: Seq<(Seq<char>, Seq<char>)>, p: Seq<char>, h: Seq<char>)
    requires
        files.len() > 0,
    ensures
        has_entry(files, p, h) <==> (has_entry(files.drop_last(), p, h) || files.last() == (p, h)),
{
    let d = files.drop_last();
    if has_entry(files, p, h) {
        let i = choose|i: int| 0 <= i < files.len() && #[trigger] files[i] == (p, h);
        if i < files.len() - 1 {
            assert(d[i] == (p, h));
        }
    }
    if has_entry(d, p, h) {
        let i = choose|i: int| 0 <= i < d.len() && #[trigger] d[i] == (p, h);
        assert(files[i] == (p, h));
    }
    if files.last() == (p, h) {
        assert(files[files.len() - 1] == (p, h));
    }
}

/// A path is new (or deleted) exactly when `files` have it and `other` do
/// not.
pub proof fn lemma_missing_from_holds(
    files: Seq<(Seq<char>, Seq<char>)>,
    other: Seq<(Seq<char>, Seq<char>)>,
    p: Seq<char>,
)
    ensures
        has_path(paths_missing_from(files, other), p) <==> (lookup(files, p) is Some && lookup(
            other,
            p,
        ) is None),
    decreases files.len(),
{
    if files.len() == 0 {
        assert(!has_path(Seq::<Seq<char>>::empty(), p));
    } else {
        let f = files.last();
        lemma_missing_from_holds(files.drop_last(), other, p);
        let x = if lookup(other, f.0) is None {
            seq![f.0]
        } else {
            Seq::<Seq<char>>::empty()
        };
        lemma_has_path_push(paths_missing_from(files.drop_last(), other), x, p);
        if has_path(x, p) {
            let i = choose|i: int| 0 <= i < x.len() && #[trigger] x[i] == p;
            assert(x[i] == f.0);
        }
        if f.0 == p && lookup(other, p) is None {
            assert(x[0] == p);
        }
    }
}

/// A path is modified exactly when `working` has an entry for it whose hash
/// differs from the one `committed` hold.
pub proof fn lemma_modified_holds(
    working: Seq<(Seq<char>, Seq<char>)>,
    committed: Seq<(Seq<char>, Seq<char>)>,
    p: Seq<char>,
)
    ensures
        has_path(paths_modified(working, committed), p) <==> exists|h: Seq<char>|
            #[trigger] has_entry(working, p, h) && hash_differs(committed, p, h),
    decreases working.len(),
{
    if working.len() == 0 {
        assert(!has_path(Seq::<Seq<char>>::empty(), p));
        assert forall|h: Seq<char>| !#[trigger] has_entry(working, p, h) by {}
    } else {
        let f = working.last();
        let d = working.drop_last();
        lemma_modified_holds(d, committed, p);
        let x = if lookup(committed, f.0) matches Some(h) && h != f.1 {
            seq![f.0]
        } else {
            Seq::<Seq<char>>::empty()
        };
        lemma_has_path_push(paths_modified(d, committed), x, p);
        assert forall|h: Seq<char>| #[trigger] has_entry(working, p, h) <==> (has_entry(d, p, h)
            || f == (p, h)) by {
            lemma_has_entry_last(working, p, h);
        }
        if has_path(x, p) {
            let i = choose|i: int| 0 <= i < x.len() && #[trigger] x[i] == p;
            assert(x[i] == f.0);
            assert(has_entry(working, p, f.1));
        }
        if has_path(paths_modified(d, committed), p) {
            let h = choose|h: Seq<char>| #[trigger] has_entry(d, p, h) && hash_differs(committed, p, h);
            assert(has_entry(working, p, h));
        }
        if exists|h: Seq<char>|
            #[trigger] has_entry(working, p, h) && hash_differs(committed, p, h) {
            let h = choose|h: Seq<char>|
                #[trigger] has_entry(working, p, h) && hash_differs(committed, p, h);
            if !has_entry(d, p, h) {
                assert(f == (p, h));
                assert(x[0] == p);
            }
        }
    }
}

/// Where paths are distinct, `files` have an entry with path `p` and hash
/// `h` exactly when they hold `h` for `p`.
pub proof fn lemma_distinct_entry(files: Seq<(Seq<char>, Seq<char>)>, p: Seq<char>, h: Seq<char>)
    requires
        distinct_paths(files),
    ensures
        has_entry(files, p, h) <==> lookup(files, p) == Some(h),
    decreases files.len(),
{
    if files.len() > 0 {
        let d = files.drop_last();
        assert(distinct_paths(d)) by {
            assert forall|i: int, j: int|
                0 <= i < d.len() && 0 <= j < d.len() && i != j implies #[trigger] d[i].0
                != #[trigger] d[j].0 by {
                assert(d[i] == files[i] && d[j] == files[j]);
            }
        }
        lemma_distinct_entry(d, p, h);
        lemma_has_entry_last(files, p, h);
        if files.last().0 == p && has_entry(d, p, h) {
            let i = choose|i: int| 0 <= i < d.len() && #[trigger] d[i] == (p, h);
            assert(files[i].0 == files[files.len() - 1].0);
        }
    }
}

/// Whether no path occurs twice in `v`.
pub open spec fn no_repeats(v: Seq<Seq<char>>) -> bool {
    forall|i: int, j: int| 0 <= i < j < v.len() ==> #[trigger] v[i] != #[trigger] v[j]
}

proof fn lemma_distinct_drop_last(files: Seq<(Seq<char>, Seq<char>)>)
    requires
        files.len() > 0,
        distinct_paths(files),
    ensures
        distinct_paths(files.drop_last()),
        lookup(files.drop_last(), files.last().0) is None,
{
    let d = files.drop_last();
    assert forall|i: int, j: int|
        0 <= i < d.len() && 0 <= j < d.len() && i != j implies #[trigger] d[i].0 != #[trigger] d[j].0 by {
        assert(d[i] == files[i] && d[j] == files[j]);
    }
    lemma_lookup_some(d, files.last().0);
    if lookup(d, files.last().0) is Some {
        let i = choose|i: int| 0 <= i < d.len() && #[trigger] d[i].0 == files.last().0;
        assert(files[i].0 == files[files.len() - 1].0);
    }
}

proof fn lemma_push_no_repeats(v: Seq<Seq<char>>, x: Seq<Seq<char>>)
    requires
        no_repeats(v),
        x.len() <= 1,
        x.len() == 1 ==> !has_path(v, x[0]),
    ensures
        no_repeats(v + x),
{
    let w = v + x;
    assert forall|i: int, j: int| 0 <= i < j < w.len() implies #[trigger] w[i] != #[trigger] w[j] by {
        if j >= v.len() {
            assert(w[j] == x[0]);
            assert(w[i] == v[i]);
            if w[i] == w[j] {
                assert(v[i] == x[0]);
            }
        } else {
            assert(w[i] == v[i] && w[j] == v[j]);
        }
    }
}

proof fn lemma_missing_from_no_repeats(
    files: Seq<(Seq<char>, Seq<char>)>,
    other: Seq<(Seq<char>, Seq<char>)>,
)
    requires
        distinct_paths(files),
    ensures
        no_repeats(paths_missing_from(files, other)),
    decreases files.len(),
{
    if files.len() > 0 {
        let d = files.drop_last();
        lemma_distinct_drop_last(files);
        lemma_missing_from_no_repeats(d, other);
        lemma_missing_from_holds(d, other, files.last().0);
        let x = if lookup(other, files.last().0) is None {
            seq![files.last().0]
        } else {
            Seq::<Seq<char>>::empty()
        };
        lemma_push_no_repeats(paths_missing_from(d, other), x);
    }
}

proof fn lemma_modified_no_repeats(
    working: Seq<(Seq<char>, Seq<char>)>,
    committed: Seq<(Seq<char>, Seq<char>)>,
)
    requires
        distinct_paths(working),
    ensures
        no_repeats(paths_modified(working, committed)),
    decreases working.len(),
{
    if working.len() > 0 {
        let d = working.drop_last();
        let f = working.last();
        lemma_distinct_drop_last(working);
        lemma_modified_no_repeats(d, committed);
        lemma_modified_holds(d, committed, f.0);
        if has_path(paths_modified(d, committed), f.0) {
            let h = choose|h: Seq<char>| #[trigger] has_entry(d, f.0, h) && hash_differs(committed, f.0, h);
            let i = choose|i: int| 0 <= i < d.len() && #[trigger] d[i] == (f.0, h);
            lemma_lookup_some(d, f.0);
            assert(d[i].0 == f.0);
        }
        let x = if lookup(committed, f.0) matches Some(h) && h != f.1 {
            seq![f.0]
        } else {
            Seq::<Seq<char>>::empty()
        };
        lemma_push_no_repeats(paths_modified(d, committed), x);
    }
}

/// Where the committed and the working paths are each distinct, as in a
/// map from path to hash, `status` lists each path at most once: new the
/// paths only the working directory has, deleted those only the commit has,
/// modified those both have with different hashes.
pub proof fn law_status_with_distinct_paths(
    committed: Seq<(Seq<char>, Seq<char>)>,
    working: Seq<(Seq<char>, Seq<char>)>,
)
    requires
        distinct_paths(committed),
        distinct_paths(working),
    ensures
        no_repeats(paths_missing_from(working, committed)),
        no_repeats(paths_missing_from(committed, working)),
        no_repeats(paths_modified(working, committed)),
        forall|p: Seq<char>|
            #[trigger] has_path(paths_missing_from(working, committed), p) <==> (lookup(working, p) is Some
                && lookup(committed, p) is None),
        forall|p: Seq<char>|
            #[trigger] has_path(paths_missing_from(committed, working), p) <==> (lookup(committed, p) is Some
                && lookup(working, p) is None),
        forall|p: Seq<char>|
            #[trigger] has_path(paths_modified(working, committed), p) <==> (lookup(committed, p) is Some
                && lookup(working, p) is Some && lookup(committed, p) != lookup(working, p)),
{
    lemma_missing_from_no_repeats(working, committed);
    lemma_missing_from_no_repeats(committed, working);
    lemma_modified_no_repeats(working, committed);
    assert forall|p: Seq<char>|
        #[trigger] has_path(paths_missing_from(working, committed), p) <==> (lookup(working, p) is Some
            && lookup(committed, p) is None) by {
        lemma_missing_from_holds(working, committed, p);
    }
    assert forall|p: Seq<char>|
        #[trigger] has_path(paths_missing_from(committed, working), p) <==> (lookup(committed, p) is Some
            && lookup(working, p) is None) by {
        lemma_missing_from_holds(committed, working, p);
    }
    assert forall|p: Seq<char>|
        #[trigger] has_path(paths_modified(working, committed), p) <==> (lookup(committed, p) is Some
            && lookup(working, p) is Some && lookup(committed, p) != lookup(working, p)) by {
        lemma_modified_holds(working, committed, p);
        if lookup(working, p) is Some {
            let b = lookup(working, p)->0;
            lemma_distinct_entry(working, p, b);
        }
        if has_path(paths_modified(working, committed), p) {
            let h = choose|h: Seq<char>| #[trigger] has_entry(working, p, h) && hash_differs(committed, p, h);
            lemma_distinct_entry(working, p, h);
        }
    }
}

/// The characters of each string.
pub open spec fn paths_view(v: Seq<String>) -> Seq<Seq<char>> {
    v.map_values(|s: String| s@)
}

/// How the working directory differs from the last commit.
pub struct StatusReport {
    /// Files of the working directory that the commit does not have.
    pub new_files: Vec<String>,
    /// Files of the commit that the working directory does not have.
    pub deleted_files: Vec<String>,
    /// Files of the working directory whose content differs from the commit.
    pub modified_files: Vec<String>,
}

/// The command that shows the status of the working directory.
pub struct Status {}

/// The paths of `files` for which `other` holds no hash.
fn missing_from(files: &[(String, String)], other: &[(String, String)]) -> (r: Vec<String>)
    ensures
        paths_view(r@) == paths_missing_from(files_view(files@), files_view(other@)),
{
    let ghost fv = files_view(files@);
    let ghost ov = files_view(other@);
    let mut r: Vec<String> = Vec::new();
    let mut i: usize = 0;
    while i < files.len()
        invariant
            fv == files_view(files@),
            ov == files_view(other@),
            i <= files@.len(),
            paths_view(r@) == paths_missing_from(fv.take(i as int), ov),
        decreases files.len() - i,
    {
        let path = &files[i].0;
        assert(fv.take(i + 1).drop_last() =~= fv.take(i as int));
        assert(fv.take(i + 1).last().0 == path@);
        if find_file(other, path.as_str()).is_none() {
            r.push(path.clone());
            assert(paths_view(r@) =~= paths_missing_from(fv.take(i + 1), ov));
        } else {
            assert(paths_view(r@) =~= paths_missing_from(fv.take(i + 1), ov));
        }
        i = i + 1;
    }
    assert(fv.take(files@.len() as int) =~= fv);
    r
}

/// The paths of `working` for which `committed` holds another hash.
fn modified(working: &[(String, String)], committed: &[(String, String)]) -> (r: Vec<String>)
    ensures
        paths_view(r@) == paths_modified(files_view(working@), files_view(committed@)),
{
    let ghost wv = files_view(working@);
    let ghost cv = files_view(committed@);
    let mut r: Vec<String> = Vec::new();
    let mut i: usize = 0;
    while i < working.len()
        invariant
            wv == files_view(working@),
            cv == files_view(committed@),
            i <= working@.len(),
            paths_view(r@) == paths_modified(wv.take(i as int), cv),
        decreases working.len() - i,
    {
        let path = &working[i].0;
        let hash = &working[i].1;
        assert(wv.take(i + 1).drop_last() =~= wv.take(i as int));
        assert(wv.take(i + 1).last() == (path@, hash@));
        let differs = match find_file(committed, path.as_str()) {
            Some(h) => !crate::utils::text_util::str_eq(h.as_str(), hash.as_str()),
            None => false,
        };
        if differs {
            r.push(path.clone());
        }
        assert(paths_view(r@) =~= paths_modified(wv.take(i + 1), cv));
        i = i + 1;
    }
    assert(wv.take(working@.len() as int) =~= wv);
    r
}

impl Status {
    /// The command.
    pub fn new() -> (r: Self) {
        Status {}
    }

    /// How the `working` directory's files differ from the `committed` ones,
    /// each list in the order of the files it is drawn from.
    pub fn changes(committed: &[(String, String)], working: &[(String, String)]) -> (r:
        StatusReport)
        ensures
            paths_view(r.new_files@) == paths_missing_from(
                files_view(working@),
                files_view(committed@),
            ),
            paths_view(r.deleted_files@) == paths_missing_from(
                files_view(committed@),
                files_view(working@),
            ),
            paths_view(r.modified_files@) == paths_modified(
                files_view(working@),
                files_view(committed@),
            ),
    {
        StatusReport {
            new_files: missing_from(working, committed),
            deleted_files: missing_from(committed, working),
            modified_files: modified(working, committed),
        }
    }
}

impl TigCommand for Status {
    fn get_name(&self) -> (r: &'static str)
        ensures
            r@ == "status"@,
    {
        "status"
    }
}

} // verus!
