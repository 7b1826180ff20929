//! `tig diff`: the line diff of each file that differs between the last
//! commit and the working directory.
use vstd::prelude::*;
use vstd::utf8::*;

use crate::commands::tig_command::TigCommand;
use crate::utils::diff_util::{diff_lines, diff_script, diff_spec, lines_view, DiffLine};
use crate::utils::lcs::Edit;
use crate::utils::ptl_util::{colored_lines_view, Color, ColoredLine, ColoredLineView};
use crate::utils::text_util::{
    lemma_text_lt_order, split_lines, str_eq, str_from_utf8, str_lt, strs_view, text_lines, text_lt,
};
use crate::commands::status::{
    distinct_paths, has_entry, has_path, hash_differs, lemma_distinct_entry, lemma_missing_from_holds,
    lemma_modified_holds, paths_missing_from, paths_modified,
};
use crate::utils::working_dir_util::{files_view, find_file, lemma_lookup_some, lookup};

verus! {

/// The command that shows the line diffs of the working directory.
pub struct Diff {}

impl Diff {
    /// The command.
    pub fn new() -> (r: Self) {
        Diff {}
    }
}

impl TigCommand for Diff {
    fn get_name(&self) -> (r: &'static str)
        ensures
            r@ == "diff"@,
    {
        "diff"
    }
}

/// A file to diff: its path, its hash in the last commit (`None` for a new
/// file), and whether the working directory has it (not for a deleted file).
pub struct FileDiffPlan {
    pub path: String,
    pub old_hash: Option<String>,
    pub in_working: bool,
}

/// What a file to diff holds.
pub struct FileDiffPlanView {
    pub path: Seq<char>,
    pub old_hash: Option<Seq<char>>,
    pub in_working: bool,
}

impl View for FileDiffPlan {
    type V = FileDiffPlanView;

    open spec fn view(&self) -> FileDiffPlanView {
        FileDiffPlanView {
            path: self.path@,
            old_hash: match self.old_hash {
                Some(h) => Some(h@),
                None => None,
            },
            in_working: self.in_working,
        }
    }
}

/// The views of a sequence of files to diff.
pub open spec fn plans_view(v: Seq<FileDiffPlan>) -> Seq<FileDiffPlanView> {
    v.map_values(|p: FileDiffPlan| p@)
}

/// Whether `path` differs between the `committed` and `working` files: it
/// is new, deleted, or has another hash.
pub open spec fn is_changed(
    committed: Seq<(Seq<char>, Seq<char>)>,
    working: Seq<(Seq<char>, Seq<char>)>,
    path: Seq<char>,
) -> bool {
    match (lookup(committed, path), lookup(working, path)) {
        (Some(a), Some(b)) => a != b,
        (None, None) => false,
        _ => true,
    }
}

/// The entry of the plan for `path`.
pub open spec fn plan_entry(
    committed: Seq<(Seq<char>, Seq<char>)>,
    working: Seq<(Seq<char>, Seq<char>)>,
    path: Seq<char>,
) -> FileDiffPlanView {
    FileDiffPlanView {
        path,
        old_hash: lookup(committed, path),
        in_working: lookup(working, path) is Some,
    }
}

/// Whether `plan` lists each changed path once, in the order of `str::cmp`,
/// and nothing else.
pub open spec fn is_diff_plan(
    plan: Seq<FileDiffPlanView>,
    committed: Seq<(Seq<char>, Seq<char>)>,
    working: Seq<(Seq<char>, Seq<char>)>,
) -> bool {
    &&& forall|i: int, j: int|
        0 <= i < j < plan.len() ==> text_lt(#[trigger] plan[i].path, #[trigger] plan[j].path)
    &&& forall|i: int|
        0 <= i < plan.len() ==> is_changed(committed, working, #[trigger] plan[i].path) && plan[i]
            == plan_entry(committed, working, plan[i].path)
    &&& forall|p: Seq<char>|
        is_changed(committed, working, p) ==> exists|i: int|
            0 <= i < plan.len() && #[trigger] plan[i].path == p
}

/// The characters of each string.
pub open spec fn texts_view(v: Seq<String>) -> Seq<Seq<char>> {
    v.map_values(|s: String| s@)
}

/// Whether `v` is strictly ordered by `str::cmp`.
pub open spec fn strictly_sorted(v: Seq<Seq<char>>) -> bool {
    forall|i: int, j: int| 0 <= i < j < v.len() ==> text_lt(#[trigger] v[i], #[trigger] v[j])
}

/// Whether `v` holds `p`.
pub open spec fn holds(v: Seq<Seq<char>>, p: Seq<char>) -> bool {
    exists|i: int| 0 <= i < v.len() && #[trigger] v[i] == p
}

/// Inserts `s` into the strictly sorted `v`, unless `v` holds it already.
fn insert_sorted(v: &mut Vec<String>, s: String)
    requires
        strictly_sorted(texts_view(old(v)@)),
    ensures
        strictly_sorted(texts_view(final(v)@)),
        forall|p: Seq<char>|
            holds(texts_view(final(v)@), p) <==> (holds(texts_view(old(v)@), p) || p == s@),
{
    let ghost ov = texts_view(v@);
    let mut k: usize = 0;
    while k < v.len() && str_lt(v[k].as_str(), s.as_str())
        invariant
            ov == texts_view(v@),
            k <= v@.len(),
            forall|m: int| 0 <= m < k ==> text_lt(#[trigger] ov[m], s@),
        decreases v.len() - k,
    {
        k = k + 1;
    }
    if k < v.len() && str_eq(v[k].as_str(), s.as_str()) {
        assert(holds(ov, s@)) by {
            assert(ov[k as int] == s@);
        }
        return;
    }
    proof {
        if k < ov.len() {
            lemma_text_lt_order(ov[k as int], s@, s@);
        }
    }
    v.insert(k, s);
    let ghost nv = texts_view(v@);
    assert(nv =~= ov.take(k as int).push(s@) + ov.skip(k as int));
    assert forall|i: int, j: int| 0 <= i < j < nv.len() implies text_lt(#[trigger] nv[i], #[trigger] nv[j]) by {
        if j < k {
            assert(nv[i] == ov[i] && nv[j] == ov[j]);
        } else if j == k {
            assert(nv[i] == ov[i]);
        } else if i == k {
            assert(nv[j] == ov[j - 1]);
            if j - 1 > k {
                assert(text_lt(ov[k as int], ov[j - 1]));
                lemma_text_lt_order(s@, ov[k as int], ov[j - 1]);
            }
        } else if i < k {
            assert(nv[i] == ov[i] && nv[j] == ov[j - 1]);
            lemma_text_lt_order(ov[i], s@, ov[j - 1]);
            if j - 1 > k {
                lemma_text_lt_order(s@, ov[k as int], ov[j - 1]);
            }
            lemma_text_lt_order(ov[i], ov[k as int], ov[j - 1]);
        } else {
            assert(nv[i] == ov[i - 1] && nv[j] == ov[j - 1]);
        }
    }
    assert forall|p: Seq<char>| holds(nv, p) <==> (holds(ov, p) || p == s@) by {
        if holds(nv, p) {
            let i = choose|i: int| 0 <= i < nv.len() && #[trigger] nv[i] == p;
            if i < k {
                assert(ov[i] == p);
            } else if i > k {
                assert(ov[i - 1] == p);
            }
        }
        if holds(ov, p) {
            let i = choose|i: int| 0 <= i < ov.len() && #[trigger] ov[i] == p;
            if i < k {
                assert(nv[i] == p);
            } else {
                assert(nv[i + 1] == p);
            }
        }
        if p == s@ {
            assert(nv[k as int] == p);
        }
    }
}

/// Whether one of the first `n` of `files` has the path `p`.
pub open spec fn among_first(files: Seq<(Seq<char>, Seq<char>)>, n: int, p: Seq<char>) -> bool {
    exists|m: int| 0 <= m < n && #[trigger] files[m] == (p, files[m].1)
}

proof fn lemma_among_first_step(files: Seq<(Seq<char>, Seq<char>)>, n: int, p: Seq<char>)
    requires
        0 <= n < files.len(),
    ensures
        among_first(files, n + 1, p) <==> (among_first(files, n, p) || files[n].0 == p),
{
    if among_first(files, n + 1, p) {
        let m = choose|m: int| 0 <= m < n + 1 && #[trigger] files[m] == (p, files[m].1);
        if m < n {
            assert(among_first(files, n, p));
        }
    }
    if among_first(files, n, p) {
        let m = choose|m: int| 0 <= m < n && #[trigger] files[m] == (p, files[m].1);
        assert(files[m] == (p, files[m].1));
    }
    if files[n].0 == p {
        assert(files[n] == (p, files[n].1));
    }
}

proof fn lemma_among_all(files: Seq<(Seq<char>, Seq<char>)>, p: Seq<char>)
    ensures
        among_first(files, files.len() as int, p) <==> lookup(files, p) is Some,
{
    lemma_lookup_some(files, p);
    if among_first(files, files.len() as int, p) {
        let m = choose|m: int| 0 <= m < files.len() && #[trigger] files[m] == (p, files[m].1);
        assert(files[m].0 == p);
    }
    if lookup(files, p) is Some {
        let m = choose|m: int| 0 <= m < files.len() && #[trigger] files[m].0 == p;
        assert(files[m] == (p, files[m].1));
    }
}

/// Inserts the paths of `files` into the strictly sorted `v`.
fn insert_paths(v: &mut Vec<String>, files: &[(String, String)])
    requires
        strictly_sorted(texts_view(old(v)@)),
    ensures
        strictly_sorted(texts_view(final(v)@)),
        forall|p: Seq<char>|
            holds(texts_view(final(v)@), p) <==> (holds(texts_view(old(v)@), p) || lookup(
                files_view(files@),
                p,
            ) is Some),
{
    let ghost ov = texts_view(v@);
    let ghost fv = files_view(files@);
    let mut i: usize = 0;
    while i < files.len()
        invariant
            fv == files_view(files@),
            i <= files@.len(),
            strictly_sorted(texts_view(v@)),
            forall|p: Seq<char>|
                #![trigger holds(texts_view(v@), p)]
                holds(texts_view(v@), p) <==> (holds(ov, p) || among_first(fv, i as int, p)),
        decreases files.len() - i,
    {
        let ghost before = texts_view(v@);
        let path = files[i].0.clone();
        assert(path@ == fv[i as int].0);
        insert_sorted(v, path);
        assert forall|p: Seq<char>|
            #![trigger holds(texts_view(v@), p)]
            holds(texts_view(v@), p) <==> (holds(ov, p) || among_first(fv, i + 1, p)) by {
            lemma_among_first_step(fv, i as int, p);
            assert(holds(texts_view(v@), p) <==> (holds(before, p) || p == fv[i as int].0));
            assert(holds(before, p) <==> (holds(ov, p) || among_first(fv, i as int, p)));
        }
        i = i + 1;
    }
    assert forall|p: Seq<char>|
        holds(texts_view(v@), p) <==> (holds(ov, p) || lookup(fv, p) is Some) by {
        lemma_among_all(fv, p);
    }
}

/// Whether the paths of `plan` are strictly ordered.
#[verifier::opaque]
pub open spec fn plan_sorted(plan: Seq<FileDiffPlanView>) -> bool {
    forall|a: int, b: int|
        0 <= a < b < plan.len() ==> text_lt(#[trigger] plan[a].path, #[trigger] plan[b].path)
}

/// Whether every entry of `plan` is a changed path with its right entry.
#[verifier::opaque]
pub open spec fn plan_entries(
    plan: Seq<FileDiffPlanView>,
    committed: Seq<(Seq<char>, Seq<char>)>,
    working: Seq<(Seq<char>, Seq<char>)>,
) -> bool {
    forall|a: int|
        0 <= a < plan.len() ==> is_changed(committed, working, #[trigger] plan[a].path) && plan[a]
            == plan_entry(committed, working, plan[a].path)
}

/// Whether every entry of `plan` has one of the first `n` of `paths`.
#[verifier::opaque]
pub open spec fn plan_from(plan: Seq<FileDiffPlanView>, paths: Seq<Seq<char>>, n: int) -> bool {
    forall|a: int|
        #![trigger plan[a]]
        0 <= a < plan.len() ==> exists|m: int| 0 <= m < n && #[trigger] paths[m] == plan[a].path
}

/// Whether `plan` has each changed one of the first `n` of `paths`.
#[verifier::opaque]
pub open spec fn plan_covers(
    plan: Seq<FileDiffPlanView>,
    paths: Seq<Seq<char>>,
    n: int,
    committed: Seq<(Seq<char>, Seq<char>)>,
    working: Seq<(Seq<char>, Seq<char>)>,
) -> bool {
    forall|m: int|
        0 <= m < n && is_changed(committed, working, #[trigger] paths[m]) ==> exists|a: int|
            0 <= a < plan.len() && #[trigger] plan[a].path == paths[m]
}

proof fn lemma_plan_push_sorted(
    plan: Seq<FileDiffPlanView>,
    paths: Seq<Seq<char>>,
    n: int,
    e: FileDiffPlanView,
)
    requires
        0 <= n < paths.len(),
        strictly_sorted(paths),
        plan_sorted(plan),
        plan_from(plan, paths, n),
        e.path == paths[n],
    ensures
        plan_sorted(plan.push(e)),
        plan_from(plan.push(e), paths, n + 1),
{
    reveal(plan_sorted);
    reveal(plan_from);
    let after = plan.push(e);
    assert forall|a: int, b: int| 0 <= a < b < after.len() implies text_lt(
        #[trigger] after[a].path,
        #[trigger] after[b].path,
    ) by {
        if b == after.len() - 1 {
            assert(after[a] == plan[a]);
            let m = choose|m: int| 0 <= m < n && #[trigger] paths[m] == plan[a].path;
            assert(text_lt(paths[m], paths[n]));
        } else {
            assert(after[a] == plan[a] && after[b] == plan[b]);
        }
    }
    assert forall|a: int| #![trigger after[a]] 0 <= a < after.len() implies exists|m: int|
        0 <= m < n + 1 && #[trigger] paths[m] == after[a].path by {
        if a == after.len() - 1 {
            assert(paths[n] == after[a].path);
        } else {
            assert(after[a] == plan[a]);
            let m = choose|m: int| 0 <= m < n && #[trigger] paths[m] == plan[a].path;
            assert(paths[m] == after[a].path);
        }
    }
}

proof fn lemma_plan_push_entries(
    plan: Seq<FileDiffPlanView>,
    paths: Seq<Seq<char>>,
    n: int,
    committed: Seq<(Seq<char>, Seq<char>)>,
    working: Seq<(Seq<char>, Seq<char>)>,
)
    requires
        0 <= n < paths.len(),
        is_changed(committed, working, paths[n]),
        plan_entries(plan, committed, working),
        plan_covers(plan, paths, n, committed, working),
    ensures
        plan_entries(plan.push(plan_entry(committed, working, paths[n])), committed, working),
        plan_covers(
            plan.push(plan_entry(committed, working, paths[n])),
            paths,
            n + 1,
            committed,
            working,
        ),
{
    reveal(plan_entries);
    reveal(plan_covers);
    let after = plan.push(plan_entry(committed, working, paths[n]));
    assert forall|a: int| 0 <= a < after.len() implies is_changed(
        committed,
        working,
        #[trigger] after[a].path,
    ) && after[a] == plan_entry(committed, working, after[a].path) by {
        if a < plan.len() {
            assert(after[a] == plan[a]);
        }
    }
    assert forall|m: int|
        0 <= m < n + 1 && is_changed(committed, working, #[trigger] paths[m]) implies exists|a: int|
        0 <= a < after.len() && #[trigger] after[a].path == paths[m] by {
        if m == n {
            assert(after[after.len() - 1].path == paths[m]);
        } else {
            let a = choose|a: int| 0 <= a < plan.len() && #[trigger] plan[a].path == paths[m];
            assert(after[a].path == paths[m]);
        }
    }
}

proof fn lemma_plan_skip(
    plan: Seq<FileDiffPlanView>,
    paths: Seq<Seq<char>>,
    n: int,
    committed: Seq<(Seq<char>, Seq<char>)>,
    working: Seq<(Seq<char>, Seq<char>)>,
)
    requires
        0 <= n < paths.len(),
        !is_changed(committed, working, paths[n]),
        plan_from(plan, paths, n),
        plan_covers(plan, paths, n, committed, working),
    ensures
        plan_from(plan, paths, n + 1),
        plan_covers(plan, paths, n + 1, committed, working),
{
    reveal(plan_from);
    reveal(plan_covers);
    assert forall|a: int| #![trigger plan[a]] 0 <= a < plan.len() implies exists|m: int|
        0 <= m < n + 1 && #[trigger] paths[m] == plan[a].path by {
        let m = choose|m: int| 0 <= m < n && #[trigger] paths[m] == plan[a].path;
        assert(paths[m] == plan[a].path);
    }
}

proof fn lemma_plan_done(
    plan: Seq<FileDiffPlanView>,
    paths: Seq<Seq<char>>,
    committed: Seq<(Seq<char>, Seq<char>)>,
    working: Seq<(Seq<char>, Seq<char>)>,
)
    requires
        forall|p: Seq<char>|
            holds(paths, p) <==> (lookup(committed, p) is Some || lookup(working, p) is Some),
        plan_sorted(plan),
        plan_entries(plan, committed, working),
        plan_covers(plan, paths, paths.len() as int, committed, working),
    ensures
        is_diff_plan(plan, committed, working),
{
    reveal(plan_sorted);
    reveal(plan_entries);
    reveal(plan_covers);
    assert forall|p: Seq<char>| is_changed(committed, working, p) implies exists|a: int|
        0 <= a < plan.len() && #[trigger] plan[a].path == p by {
        assert(holds(paths, p));
        let m = choose|m: int| 0 <= m < paths.len() && #[trigger] paths[m] == p;
        assert(is_changed(committed, working, paths[m]));
    }
}

/// The files that differ between the last commit and the working
/// directory, in the order of their paths: those only in `committed`
/// (deleted), those only in `working` (new), and those in both with other
/// hashes (modified).
pub fn plan(committed: &[(String, String)], working: &[(String, String)]) -> (r: Vec<
    FileDiffPlan,
>)
    ensures
        is_diff_plan(plans_view(r@), files_view(committed@), files_view(working@)),
{
    let ghost cv = files_view(committed@);
    let ghost wv = files_view(working@);
    let mut paths: Vec<String> = Vec::new();
    insert_paths(&mut paths, committed);
    insert_paths(&mut paths, working);
    let ghost pv = texts_view(paths@);
    assert forall|p: Seq<char>| holds(pv, p) <==> (lookup(cv, p) is Some || lookup(wv, p) is Some) by {
        assert(!holds(Seq::<Seq<char>>::empty(), p));
    }
    let mut result: Vec<FileDiffPlan> = Vec::new();
    proof {
        reveal(plan_sorted);
        reveal(plan_entries);
        reveal(plan_from);
        reveal(plan_covers);
    }
    let mut i: usize = 0;
    while i < paths.len()
        invariant
            cv == files_view(committed@),
            wv == files_view(working@),
            pv == texts_view(paths@),
            strictly_sorted(pv),
            i <= pv.len(),
            plan_sorted(plans_view(result@)),
            plan_entries(plans_view(result@), cv, wv),
            plan_from(plans_view(result@), pv, i as int),
            plan_covers(plans_view(result@), pv, i as int, cv, wv),
        decreases pv.len() - i,
    {
        let path = &paths[i];
        assert(path@ == pv[i as int]);
        let old_hash = find_file(committed, path.as_str());
        let new_hash = find_file(working, path.as_str());
        let changed = match (&old_hash, &new_hash) {
            (Some(a), Some(b)) => !str_eq(a.as_str(), b.as_str()),
            (None, None) => false,
            _ => true,
        };
        let ghost before = plans_view(result@);
        if changed {
            let in_working = new_hash.is_some();
            let entry = FileDiffPlan { path: path.clone(), old_hash, in_working };
            assert(entry@ == plan_entry(cv, wv, pv[i as int]));
            proof {
                lemma_plan_push_sorted(before, pv, i as int, entry@);
                lemma_plan_push_entries(before, pv, i as int, cv, wv);
            }
            result.push(entry);
            assert(plans_view(result@) =~= before.push(entry@));
        } else {
            proof {
                lemma_plan_skip(before, pv, i as int, cv, wv);
            }
        }
        i = i + 1;
    }
    proof {
        lemma_plan_done(plans_view(result@), pv, cv, wv);
    }
    result
}

/// How a step of a diff is printed: a kept line after a space, an added
/// line in green after `+`, a removed line in red after `-`.
pub open spec fn rendered(e: Edit<Seq<char>>) -> ColoredLineView {
    match e {
        Edit::Keep(l) => ColoredLineView { text: " "@ + l, color: None },
        Edit::Insert(l) => ColoredLineView { text: "+"@ + l, color: Some(Color::Green) },
        Edit::Delete(l) => ColoredLineView { text: "-"@ + l, color: Some(Color::Red) },
    }
}

/// The text of one side of a file diff: empty where the file is missing on
/// that side, `None` where its content is not UTF-8.
pub open spec fn side_text(content: Option<Seq<u8>>) -> Option<Seq<char>> {
    match content {
        None => Some(Seq::empty()),
        Some(b) => if valid_utf8(b) {
            Some(decode_utf8(b))
        } else {
            None
        },
    }
}

/// The bytes of an optional byte slice.
pub open spec fn bytes_view(b: Option<&[u8]>) -> Option<Seq<u8>> {
    match b {
        Some(s) => Some(s@),
        None => None,
    }
}

/// The text of one side of a file diff.
fn side<'a>(content: Option<&'a [u8]>) -> (r: Option<&'a str>)
    ensures
        match side_text(bytes_view(content)) {
            Some(t) => r matches Some(s) && s@ == t,
            None => r is None,
        },
{
    match content {
        None => {
            proof {
                reveal_strlit("");
            }
            Some("")
        },
        Some(bytes) => str_from_utf8(bytes),
    }
}

/// The printed line for one line of a diff.
fn render(line: &DiffLine) -> (r: ColoredLine)
    ensures
        r@ == rendered(line.edit()),
{
    match line {
        DiffLine::Context(l) => {
            let mut text = String::from_str(" ");
            text.append(l);
            ColoredLine { text, color: None }
        },
        DiffLine::Added(l) => {
            let mut text = String::from_str("+");
            text.append(l);
            ColoredLine { text, color: Some(Color::Green) }
        },
        DiffLine::Removed(l) => {
            let mut text = String::from_str("-");
            text.append(l);
            ColoredLine { text, color: Some(Color::Red) }
        },
    }
}

/// The headers that `diff` prints for the file at `path`, first.
pub open spec fn diff_headers_view(path: Seq<char>) -> Seq<ColoredLineView> {
    seq![
        ColoredLineView { text: "--- a/"@ + path, color: None },
        ColoredLineView { text: "+++ b/"@ + path, color: None },
    ]
}

/// What `diff` prints for the file at `path` after the headers, from its
/// content in the last commit and in the working directory (`None` where the
/// file is missing on that side): the rendered diff of the two texts, or
/// `Binary file: <path>` where either content is not UTF-8.
pub open spec fn file_diff_view(
    path: Seq<char>,
    old_content: Option<Seq<u8>>,
    new_content: Option<Seq<u8>>,
) -> Seq<ColoredLineView> {
    match (side_text(old_content), side_text(new_content)) {
        (Some(o), Some(n)) => diff_spec(split_lines(o), split_lines(n)).map_values(
            |e: Edit<Seq<char>>| rendered(e),
        ),
        _ => seq![ColoredLineView { text: "Binary file: "@ + path, color: None }],
    }
}

/// A line of output without color.
fn plain_line(prefix: &str, path: &str) -> (r: ColoredLine)
    ensures
        r@ == (ColoredLineView { text: prefix@ + path@, color: None }),
{
    let mut text = String::from_str(prefix);
    text.append(path);
    ColoredLine { text, color: None }
}

/// Appends the rendered diff of the texts `old_text` and `new_text`.
fn push_rendered_diff(old_text: &str, new_text: &str, out: &mut Vec<ColoredLine>)
    ensures
        colored_lines_view(final(out)@) == colored_lines_view(old(out)@) + diff_spec(
            split_lines(old_text@),
            split_lines(new_text@),
        ).map_values(|e: Edit<Seq<char>>| rendered(e)),
{
    let old_lines = text_lines(old_text);
    let new_lines = text_lines(new_text);
    assert(lines_view(old_lines@) =~= strs_view(old_lines@));
    assert(lines_view(new_lines@) =~= strs_view(new_lines@));
    let diff = diff_lines(old_lines.as_slice(), new_lines.as_slice());
    let ghost script = diff_script(diff@);
    let ghost start = colored_lines_view(out@);
    let mut i: usize = 0;
    while i < diff.len()
        invariant
            script == diff_script(diff@),
            i <= diff@.len(),
            colored_lines_view(out@) == start + script.take(i as int).map_values(
                |e: Edit<Seq<char>>| rendered(e),
            ),
        decreases diff.len() - i,
    {
        let line = render(&diff[i]);
        assert(script[i as int] == diff@[i as int].edit());
        let ghost before = colored_lines_view(out@);
        out.push(line);
        assert(colored_lines_view(out@) =~= before.push(line@));
        assert(script.take(i + 1) =~= script.take(i as int).push(script[i as int]));
        assert(colored_lines_view(out@) =~= start + script.take(i + 1).map_values(
            |e: Edit<Seq<char>>| rendered(e),
        ));
        i = i + 1;
    }
    assert(script.take(diff@.len() as int) =~= script);
}

/// The headers of the diff of the file at `path`.
pub fn diff_headers(path: &str) -> (r: Vec<ColoredLine>)
    ensures
        colored_lines_view(r@) == diff_headers_view(path@),
{
    let mut out: Vec<ColoredLine> = Vec::new();
    out.push(plain_line("--- a/", path));
    out.push(plain_line("+++ b/", path));
    assert(colored_lines_view(out@) =~= diff_headers_view(path@));
    out
}

/// The printed lines of the diff of the file at `path` after its headers,
/// from its content in the last commit and in the working directory (`None`
/// where the file is missing on that side).
pub fn file_diff(path: &str, old_content: Option<&[u8]>, new_content: Option<&[u8]>) -> (r: Vec<
    ColoredLine,
>)
    ensures
        colored_lines_view(r@) == file_diff_view(
            path@,
            bytes_view(old_content),
            bytes_view(new_content),
        ),
{
    let mut out: Vec<ColoredLine> = Vec::new();
    assert(colored_lines_view(out@) =~= Seq::<ColoredLineView>::empty());
    let texts = match side(old_content) {
        Some(o) => match side(new_content) {
            Some(n) => Some((o, n)),
            None => None,
        },
        None => None,
    };
    match texts {
        Some((o, n)) => {
            push_rendered_diff(o, n, &mut out);
        },
        None => {
            let ghost before = colored_lines_view(out@);
            let line = plain_line("Binary file: ", path);
            out.push(line);
            assert(colored_lines_view(out@) =~= before.push(line@));
        },
    }
    assert(colored_lines_view(out@) =~= file_diff_view(
        path@,
        bytes_view(old_content),
        bytes_view(new_content),
    ));
    out
}

/// `diff` and `status` speak of the same files: where the paths of the
/// committed and of the working files are each distinct, a path is in the
/// diff plan exactly when `status` reports it new, deleted or modified.
pub proof fn law_diff_matches_status(
    committed: Seq<(Seq<char>, Seq<char>)>,
    working: Seq<(Seq<char>, Seq<char>)>,
    plan: Seq<FileDiffPlanView>,
)
    requires
        distinct_paths(committed),
        distinct_paths(working),
        is_diff_plan(plan, committed, working),
    ensures
        forall|p: Seq<char>|
            (exists|i: int| 0 <= i < plan.len() && #[trigger] plan[i].path == p) <==> (has_path(
                paths_missing_from(working, committed),
                p,
            ) || has_path(paths_missing_from(committed, working), p) || has_path(
                paths_modified(working, committed),
                p,
            )),
{
    assert forall|p: Seq<char>|
        (exists|i: int| 0 <= i < plan.len() && #[trigger] plan[i].path == p) <==> (has_path(
            paths_missing_from(working, committed),
            p,
        ) || has_path(paths_missing_from(committed, working), p) || has_path(
            paths_modified(working, committed),
            p,
        )) by {
        lemma_missing_from_holds(working, committed, p);
        lemma_missing_from_holds(committed, working, p);
        lemma_modified_holds(working, committed, p);
        if exists|i: int| 0 <= i < plan.len() && #[trigger] plan[i].path == p {
            let i = choose|i: int| 0 <= i < plan.len() && #[trigger] plan[i].path == p;
            assert(is_changed(committed, working, plan[i].path));
        }
        if is_changed(committed, working, p) {
            assert(exists|i: int| 0 <= i < plan.len() && #[trigger] plan[i].path == p);
        }
        match (lookup(committed, p), lookup(working, p)) {
            (Some(a), Some(b)) => {
                lemma_distinct_entry(working, p, b);
                if exists|h: Seq<char>|
                    #[trigger] has_entry(working, p, h) && hash_differs(committed, p, h) {
                    let h = choose|h: Seq<char>|
                        #[trigger] has_entry(working, p, h) && hash_differs(committed, p, h);
                    lemma_distinct_entry(working, p, h);
                }
                if a != b {
                    assert(has_entry(working, p, b) && hash_differs(committed, p, b));
                }
            },
            (Some(a), None) => {
                assert(is_changed(committed, working, p));
            },
            (None, Some(b)) => {
                assert(is_changed(committed, working, p));
            },
            (None, None) => {
                assert(!is_changed(committed, working, p));
                assert(!has_path(paths_modified(working, committed), p));
            },
        }
    }
}

} // verus!
