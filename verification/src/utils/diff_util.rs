//! Line diffs: a longest-common-subsequence diff, computed with Hirschberg's
//! algorithm on what is left once the common prefix and suffix are set aside.
use vstd::prelude::*;

use crate::utils::lcs::{
    deletions, insertions, keepings, keeps, lcs_len, lemma_keeps_le_lcs, lemma_lcs_bounds,
    lemma_lcs_common_prefix, lemma_lcs_common_suffix, lemma_lcs_reverse, lemma_lcs_single_absent,
    lemma_lcs_split_exists, lemma_lcs_split_upper, lemma_lcs_symmetric, lemma_script_concat,
    lemma_uniform_scripts, new_side, old_side, Edit,
};
use crate::utils::text_util::{index_of, lemma_index_of, lemma_index_of_at, str_eq};

verus! {

/// One line of a diff between an old and a new text.
#[derive(Debug, PartialEq, Eq)]
pub enum DiffLine<'a> {
    /// A line present in both old and new.
    Context(&'a str),
    /// A line present only in new.
    Added(&'a str),
    /// A line present only in old.
    Removed(&'a str),
}

impl<'a> DiffLine<'a> {
    /// The edit that this diff line stands for, over the characters of the line.
    pub open spec fn edit(self) -> Edit<Seq<char>> {
        match self {
            DiffLine::Context(l) => Edit::Keep(l@),
            DiffLine::Added(l) => Edit::Insert(l@),
            DiffLine::Removed(l) => Edit::Delete(l@),
        }
    }
}

/// The characters of each line.
pub open spec fn lines_view<'a>(lines: Seq<&'a str>) -> Seq<Seq<char>> {
    lines.map_values(|l: &'a str| l@)
}

/// The edit script that a diff stands for.
pub open spec fn diff_script<'a>(d: Seq<DiffLine<'a>>) -> Seq<Edit<Seq<char>>> {
    d.map_values(|l: DiffLine<'a>| l.edit())
}

/// `script` turns `old_lines` into `new_lines` and keeps a longest common
/// subsequence of the two.
pub open spec fn is_lcs_diff(
    script: Seq<Edit<Seq<char>>>,
    old_lines: Seq<Seq<char>>,
    new_lines: Seq<Seq<char>>,
) -> bool {
    &&& old_side(script) == old_lines
    &&& new_side(script) == new_lines
    &&& keeps(script) == lcs_len(old_lines, new_lines)
}

proof fn lemma_diff_script_concat<'a>(x: Seq<DiffLine<'a>>, y: Seq<DiffLine<'a>>)
    ensures
        diff_script(x + y) == diff_script(x) + diff_script(y),
{
    assert(diff_script(x + y) =~= diff_script(x) + diff_script(y));
}

proof fn lemma_lines_view_subrange<'a>(lines: Seq<&'a str>, lo: int, hi: int)
    requires
        0 <= lo <= hi <= lines.len(),
    ensures
        lines_view(lines.subrange(lo, hi)) == lines_view(lines).subrange(lo, hi),
{
    assert(lines_view(lines.subrange(lo, hi)) =~= lines_view(lines).subrange(lo, hi));
}

/// Appending `x` and then `y` to `r0` appends their concatenation.
proof fn lemma_appended<'a>(r0: Seq<DiffLine<'a>>, r1: Seq<DiffLine<'a>>, r2: Seq<DiffLine<'a>>)
    requires
        r1.len() >= r0.len(),
        r1.take(r0.len() as int) == r0,
        r2.len() >= r1.len(),
        r2.take(r1.len() as int) == r1,
    ensures
        r2.len() >= r0.len(),
        r2.take(r0.len() as int) == r0,
        diff_script(r2.skip(r0.len() as int)) == diff_script(r1.skip(r0.len() as int))
            + diff_script(r2.skip(r1.len() as int)),
{
    assert(r2.take(r0.len() as int) =~= r0) by {
        assert forall|k: int| 0 <= k < r0.len() implies r2[k] == r0[k] by {
            assert(r2.take(r1.len() as int)[k] == r2[k]);
            assert(r1.take(r0.len() as int)[k] == r1[k]);
        }
    }
    assert(r2.skip(r0.len() as int) =~= r1.skip(r0.len() as int) + r2.skip(r1.len() as int)) by {
        assert forall|k: int| r0.len() <= k < r1.len() implies #[trigger] r2[k] == r1[k] by {
            assert(r2.take(r1.len() as int)[k] == r2[k]);
        }
    }
    lemma_diff_script_concat(r1.skip(r0.len() as int), r2.skip(r1.len() as int));
}

/// Appends `lines` as lines that are in both texts.
fn push_context<'a>(lines: &'a [&'a str], result: &mut Vec<DiffLine<'a>>)
    ensures
        final(result)@.len() == old(result)@.len() + lines@.len(),
        final(result)@.take(old(result)@.len() as int) == old(result)@,
        diff_script(final(result)@.skip(old(result)@.len() as int)) == keepings(
            lines_view(lines@),
        ),
{
    let ghost r0 = result@;
    let mut i: usize = 0;
    while i < lines.len()
        invariant
            0 <= i <= lines.len(),
            result@.len() == r0.len() + i,
            result@.take(r0.len() as int) == r0,
            forall|k: int| 0 <= k < i ==> result@[r0.len() + k] == DiffLine::Context(lines@[k]),
        decreases lines.len() - i,
    {
        result.push(DiffLine::Context(lines[i]));
        i = i + 1;
        assert(result@.take(r0.len() as int) =~= r0);
    }
    assert(diff_script(result@.skip(r0.len() as int)) =~= keepings(lines_view(lines@)));
}

/// Appends the lines that only `a` has: removed lines when `a` is the old
/// text, added lines otherwise.
fn push_unique_a<'a>(lines: &'a [&'a str], a_is_old: bool, result: &mut Vec<DiffLine<'a>>)
    ensures
        final(result)@.len() == old(result)@.len() + lines@.len(),
        final(result)@.take(old(result)@.len() as int) == old(result)@,
        diff_script(final(result)@.skip(old(result)@.len() as int)) == (if a_is_old {
            deletions(lines_view(lines@))
        } else {
            insertions(lines_view(lines@))
        }),
{
    let ghost r0 = result@;
    let mut i: usize = 0;
    while i < lines.len()
        invariant
            0 <= i <= lines.len(),
            result@.len() == r0.len() + i,
            result@.take(r0.len() as int) == r0,
            forall|k: int|
                0 <= k < i ==> result@[r0.len() + k] == (if a_is_old {
                    DiffLine::Removed(lines@[k])
                } else {
                    DiffLine::Added(lines@[k])
                }),
        decreases lines.len() - i,
    {
        if a_is_old {
            result.push(DiffLine::Removed(lines[i]));
        } else {
            result.push(DiffLine::Added(lines[i]));
        }
        i = i + 1;
        assert(result@.take(r0.len() as int) =~= r0);
    }
    if a_is_old {
        assert(diff_script(result@.skip(r0.len() as int)) =~= deletions(lines_view(lines@)));
    } else {
        assert(diff_script(result@.skip(r0.len() as int)) =~= insertions(lines_view(lines@)));
    }
}

/// Appends the lines that only `b` has: added lines when `a` is the old text,
/// removed lines otherwise.
fn push_unique_b<'a>(lines: &'a [&'a str], a_is_old: bool, result: &mut Vec<DiffLine<'a>>)
    ensures
        final(result)@.len() == old(result)@.len() + lines@.len(),
        final(result)@.take(old(result)@.len() as int) == old(result)@,
        diff_script(final(result)@.skip(old(result)@.len() as int)) == (if a_is_old {
            insertions(lines_view(lines@))
        } else {
            deletions(lines_view(lines@))
        }),
{
    push_unique_a(lines, !a_is_old, result);
}

/// `dp[j]` is the length of a longest common subsequence of `a` and the
/// first `j` lines of `b`.
fn lcs_prefix_lengths(a: &[&str], b: &[&str]) -> (dp: Vec<usize>)
    ensures
        dp@.len() == b@.len() + 1,
        forall|j: int|
            0 <= j <= b@.len() ==> #[trigger] dp@[j] == lcs_len(
                lines_view(a@),
                lines_view(b@).take(j),
            ),
{
    let ghost av = lines_view(a@);
    let ghost bv = lines_view(b@);
    let mut dp: Vec<usize> = Vec::new();
    let mut k: usize = 0;
    while k < b.len()
        invariant
            k <= b.len(),
            dp@.len() == k,
            forall|j: int| 0 <= j < k ==> dp@[j] == 0,
        decreases b.len() - k,
    {
        dp.push(0);
        k = k + 1;
    }
    dp.push(0);
    assert forall|j: int| 0 <= j <= b@.len() implies #[trigger] dp@[j] == lcs_len(
        av.take(0),
        bv.take(j),
    ) by {
        assert(av.take(0).len() == 0);
    }
    let mut i: usize = 0;
    while i < a.len()
        invariant
            av == lines_view(a@),
            bv == lines_view(b@),
            0 <= i <= a.len(),
            dp@.len() == b@.len() + 1,
            forall|j: int| 0 <= j <= b@.len() ==> #[trigger] dp@[j] == lcs_len(av.take(i as int), bv.take(j)),
        decreases a.len() - i,
    {
        let a_line = a[i];
        let ghost ai = av.take(i as int);
        let ghost ai1 = av.take(i + 1);
        assert(ai1.drop_last() =~= ai);
        assert(ai1.last() == a_line@);
        let mut diagonal: usize = 0;
        assert(dp@[0] == lcs_len(ai1, bv.take(0)));
        let mut j: usize = 1;
        while j < dp.len()
            invariant
                av == lines_view(a@),
                bv == lines_view(b@),
                i < a.len(),
                ai == av.take(i as int),
                ai1 == av.take(i + 1),
                ai1.drop_last() == ai,
                ai1.last() == a_line@,
                dp@.len() == b@.len() + 1,
                1 <= j <= dp@.len(),
                forall|k: int| 0 <= k < j ==> #[trigger] dp@[k] == lcs_len(ai1, bv.take(k)),
                forall|k: int| j <= k <= b@.len() ==> #[trigger] dp@[k] == lcs_len(ai, bv.take(k)),
                diagonal == lcs_len(ai, bv.take(j - 1)),
            decreases dp@.len() - j,
        {
            let up = dp[j];
            let left = dp[j - 1];
            let ghost bj = bv.take(j as int);
            assert(bj.drop_last() =~= bv.take(j - 1));
            assert(bj.last() == b@[j - 1]@);
            proof {
                lemma_lcs_bounds(ai, bv.take(j - 1));
                lemma_lcs_bounds(ai1, bj);
            }
            if str_eq(a_line, b[j - 1]) {
                dp.set(j, diagonal + 1);
            } else {
                dp.set(j, if up >= left {
                    up
                } else {
                    left
                });
            }
            diagonal = up;
            j = j + 1;
        }
        i = i + 1;
    }
    assert(av.take(a@.len() as int) =~= av);
    dp
}

/// `dp[j]` is the length of a longest common subsequence of `a` reversed and
/// the last `j` lines of `b` reversed.
fn lcs_suffix_lengths(a: &[&str], b: &[&str]) -> (dp: Vec<usize>)
    ensures
        dp@.len() == b@.len() + 1,
        forall|j: int|
            0 <= j <= b@.len() ==> #[trigger] dp@[j] == lcs_len(
                lines_view(a@).reverse(),
                lines_view(b@).reverse().take(j),
            ),
{
    let ghost av = lines_view(a@).reverse();
    let ghost bv = lines_view(b@).reverse();
    let mut dp: Vec<usize> = Vec::new();
    let mut k: usize = 0;
    while k < b.len()
        invariant
            k <= b.len(),
            dp@.len() == k,
            forall|j: int| 0 <= j < k ==> dp@[j] == 0,
        decreases b.len() - k,
    {
        dp.push(0);
        k = k + 1;
    }
    dp.push(0);
    assert forall|j: int| 0 <= j <= b@.len() implies #[trigger] dp@[j] == lcs_len(
        av.take(0),
        bv.take(j),
    ) by {
        assert(av.take(0).len() == 0);
    }
    let mut i: usize = 0;
    while i < a.len()
        invariant
            av == lines_view(a@).reverse(),
            bv == lines_view(b@).reverse(),
            0 <= i <= a.len(),
            dp@.len() == b@.len() + 1,
            forall|j: int| 0 <= j <= b@.len() ==> #[trigger] dp@[j] == lcs_len(av.take(i as int), bv.take(j)),
        decreases a.len() - i,
    {
        let a_line = a[a.len() - 1 - i];
        let ghost ai = av.take(i as int);
        let ghost ai1 = av.take(i + 1);
        assert(ai1.drop_last() =~= ai);
        assert(ai1.last() == a_line@);
        let mut diagonal: usize = 0;
        assert(dp@[0] == lcs_len(ai1, bv.take(0)));
        let mut j: usize = 1;
        while j < dp.len()
            invariant
                av == lines_view(a@).reverse(),
                bv == lines_view(b@).reverse(),
                i < a.len(),
                ai == av.take(i as int),
                ai1 == av.take(i + 1),
                ai1.drop_last() == ai,
                ai1.last() == a_line@,
                dp@.len() == b@.len() + 1,
                1 <= j <= dp@.len(),
                forall|k: int| 0 <= k < j ==> #[trigger] dp@[k] == lcs_len(ai1, bv.take(k)),
                forall|k: int| j <= k <= b@.len() ==> #[trigger] dp@[k] == lcs_len(ai, bv.take(k)),
                diagonal == lcs_len(ai, bv.take(j - 1)),
            decreases dp@.len() - j,
        {
            let up = dp[j];
            let left = dp[j - 1];
            let b_line = b[b.len() - j];
            let ghost bj = bv.take(j as int);
            assert(bj.drop_last() =~= bv.take(j - 1));
            assert(bj.last() == b_line@);
            proof {
                lemma_lcs_bounds(ai, bv.take(j - 1));
                lemma_lcs_bounds(ai1, bj);
            }
            if str_eq(a_line, b_line) {
                dp.set(j, diagonal + 1);
            } else {
                dp.set(j, if up >= left {
                    up
                } else {
                    left
                });
            }
            diagonal = up;
            j = j + 1;
        }
        i = i + 1;
    }
    assert(av.take(a@.len() as int) =~= av);
    dp
}


/// The combined length of longest common subsequences of `a` and `b` when
/// `a` is split at `m` and `b` at `j`.
pub open spec fn split_score(a: Seq<Seq<char>>, b: Seq<Seq<char>>, m: int, j: int) -> nat {
    lcs_len(a.take(m), b.take(j)) + lcs_len(a.skip(m), b.skip(j))
}

/// The steps for lines that only `a` has: removals where `a` is the old text,
/// additions otherwise.
pub open spec fn unique_a_script(xs: Seq<Seq<char>>, a_is_old: bool) -> Seq<Edit<Seq<char>>> {
    if a_is_old {
        deletions(xs)
    } else {
        insertions(xs)
    }
}

/// The steps for lines that only `b` has: additions where `a` is the old
/// text, removals otherwise.
pub open spec fn unique_b_script(xs: Seq<Seq<char>>, a_is_old: bool) -> Seq<Edit<Seq<char>>> {
    if a_is_old {
        insertions(xs)
    } else {
        deletions(xs)
    }
}

/// The split of `b` chosen for `a` cut at `mid`, scanning the splits from
/// `j` on with the best one so far `best_j` of score `best`: the first split
/// of greatest score.
pub open spec fn best_split_from(
    a: Seq<Seq<char>>,
    b: Seq<Seq<char>>,
    mid: int,
    j: int,
    best_j: int,
    best: nat,
) -> int
    decreases b.len() + 1 - j,
{
    if j < 0 || j > b.len() {
        best_j
    } else if split_score(a, b, mid, j) > best || j == 0 {
        best_split_from(a, b, mid, j + 1, j, split_score(a, b, mid, j))
    } else {
        best_split_from(a, b, mid, j + 1, best_j, best)
    }
}

/// The first split of `b` of greatest score for `a` cut at `mid`.
pub open spec fn chosen_split(a: Seq<Seq<char>>, b: Seq<Seq<char>>, mid: int) -> int {
    best_split_from(a, b, mid, 0, 0, 0)
}

/// The diff that Hirschberg's algorithm gives for `a` and `b`: with no line
/// in one of them, the other's lines; for one line of `a`, the lines of `b`
/// around its first occurrence there, or, where `b` lacks it, the old lines
/// removed before the new ones are added; else the diffs of the two halves
/// of `a` against `b` split where the common subsequences of the halves are
/// longest together (the first such split).
pub open spec fn hirschberg_script(a: Seq<Seq<char>>, b: Seq<Seq<char>>, a_is_old: bool) -> Seq<
    Edit<Seq<char>>,
>
    decreases a.len(),
{
    if a.len() == 0 {
        unique_b_script(b, a_is_old)
    } else if b.len() == 0 {
        unique_a_script(a, a_is_old)
    } else if a.len() == 1 {
        match index_of(b, a[0]) {
            Some(pos) => unique_b_script(b.take(pos), a_is_old) + seq![Edit::Keep(a[0])]
                + unique_b_script(b.skip(pos + 1), a_is_old),
            None => if a_is_old {
                deletions(a) + insertions(b)
            } else {
                deletions(b) + insertions(a)
            },
        }
    } else {
        let mid = (a.len() / 2) as int;
        let split = chosen_split(a, b, mid);
        hirschberg_script(a.take(mid), b.take(split), a_is_old) + hirschberg_script(
            a.skip(mid),
            b.skip(split),
            a_is_old,
        )
    }
}

/// Appends to `result` a diff between `a` and `b` that keeps a longest common
/// subsequence of them; `a_is_old` tells which of the two is the old text.
#[verifier::rlimit(100)]
fn hirschberg<'a>(a: &'a [&'a str], b: &'a [&'a str], a_is_old: bool, result: &mut Vec<DiffLine<'a>>)
    ensures
        final(result)@.len() >= old(result)@.len(),
        final(result)@.take(old(result)@.len() as int) == old(result)@,
        is_lcs_diff(
            diff_script(final(result)@.skip(old(result)@.len() as int)),
            if a_is_old {
                lines_view(a@)
            } else {
                lines_view(b@)
            },
            if a_is_old {
                lines_view(b@)
            } else {
                lines_view(a@)
            },
        ),
        diff_script(final(result)@.skip(old(result)@.len() as int)) == hirschberg_script(
            lines_view(a@),
            lines_view(b@),
            a_is_old,
        ),
    decreases a@.len(),
{
    let ghost r0 = result@;
    let ghost av = lines_view(a@);
    let ghost bv = lines_view(b@);
    proof {
        lemma_lcs_symmetric(av, bv);
    }
    if a.len() == 0 {
        push_unique_b(b, a_is_old, result);
        proof {
            lemma_uniform_scripts(bv);
            assert(av =~= Seq::<Seq<char>>::empty());
        }
        return;
    }
    if b.len() == 0 {
        push_unique_a(a, a_is_old, result);
        proof {
            lemma_uniform_scripts(av);
            assert(bv =~= Seq::<Seq<char>>::empty());
        }
        return;
    }
    if a.len() == 1 {
        let line = a[0];
        assert(av =~= seq![line@]);
        let mut pos: usize = 0;
        let mut found = false;
        while pos < b.len()
            invariant
                bv == lines_view(b@),
                0 <= pos <= b.len(),
                forall|k: int| 0 <= k < pos ==> bv[k] != line@,
                found ==> pos < b.len() && bv[pos as int] == line@,
            ensures
                found || pos == b.len(),
                forall|k: int| 0 <= k < pos ==> bv[k] != line@,
                found ==> pos < b.len() && bv[pos as int] == line@,
            decreases b.len() - pos,
        {
            if str_eq(b[pos], line) {
                found = true;
                break;
            }
            pos = pos + 1;
        }
        assert(found || pos == b.len());
        if found {
            let ghost r1 = result@;
            push_unique_b(&b[0..pos], a_is_old, result);
            let ghost r2 = result@;
            result.push(DiffLine::Context(line));
            let ghost r3 = result@;
            push_unique_b(&b[pos + 1..b.len()], a_is_old, result);
            proof {
                let before = bv.subrange(0, pos as int);
                let after = bv.subrange(pos + 1, bv.len() as int);
                lemma_lines_view_subrange(b@, 0, pos as int);
                lemma_lines_view_subrange(b@, pos + 1, b@.len() as int);
                assert(r3.take(r2.len() as int) =~= r2);
                assert(r3.skip(r2.len() as int) =~= seq![DiffLine::Context(line)]);
                assert(diff_script(r3.skip(r2.len() as int)) =~= keepings(seq![line@]));
                lemma_appended(r0, r2, r3);
                lemma_appended(r0, r3, result@);
                lemma_uniform_scripts(before);
                lemma_uniform_scripts(after);
                lemma_uniform_scripts(seq![line@]);
                let s1 = if a_is_old {
                    insertions(before)
                } else {
                    deletions(before)
                };
                let s3 = if a_is_old {
                    insertions(after)
                } else {
                    deletions(after)
                };
                let s2 = keepings(seq![line@]);
                lemma_script_concat(s1, s2);
                lemma_script_concat(s1 + s2, s3);
                assert(before + seq![line@] + after =~= bv);
                let script = diff_script(result@.skip(r0.len() as int));
                assert(script == s1 + s2 + s3);
                lemma_index_of_at(bv, line@, pos as int);
                assert(bv.take(pos as int) =~= before);
                assert(bv.skip(pos + 1) =~= after);
                lemma_keeps_le_lcs(script);
                lemma_lcs_bounds(av, bv);
                assert(seq![line@] + Seq::<Seq<char>>::empty() =~= seq![line@]);
                assert(Seq::<Seq<char>>::empty() + seq![line@] =~= seq![line@]);
            }
        } else {
            proof {
                assert(!bv.contains(line@)) by {
                    if bv.contains(line@) {
                        let k = choose|k: int| 0 <= k < bv.len() && bv[k] == line@;
                        assert(bv[k] != line@);
                    }
                }
                lemma_lcs_single_absent(line@, bv);
                lemma_uniform_scripts(av);
                lemma_uniform_scripts(bv);
                lemma_index_of(bv, line@);
                if index_of(bv, line@) is Some {
                    let i = index_of(bv, line@)->0;
                    assert(bv[i] == line@);
                }
            }
            if a_is_old {
                push_unique_a(a, a_is_old, result);
                let ghost r1 = result@;
                push_unique_b(b, a_is_old, result);
                proof {
                    lemma_appended(r0, r1, result@);
                    lemma_script_concat(deletions(av), insertions(bv));
                    assert(av + Seq::<Seq<char>>::empty() =~= av);
                    assert(Seq::<Seq<char>>::empty() + bv =~= bv);
                }
            } else {
                push_unique_b(b, a_is_old, result);
                let ghost r1 = result@;
                push_unique_a(a, a_is_old, result);
                proof {
                    lemma_appended(r0, r1, result@);
                    lemma_script_concat(deletions(bv), insertions(av));
                    assert(bv + Seq::<Seq<char>>::empty() =~= bv);
                    assert(Seq::<Seq<char>>::empty() + av =~= av);
                }
            }
        }
        return;
    }
    let mid = a.len() / 2;
    let (a_left, a_right) = a.split_at(mid);
    let split = {
        let left = lcs_prefix_lengths(a_left, b);
        let right = lcs_suffix_lengths(a_right, b);
        let ghost al = lines_view(a_left@);
        let ghost ar = lines_view(a_right@);
        proof {
            lemma_lines_view_subrange(a@, 0, mid as int);
            lemma_lines_view_subrange(a@, mid as int, a@.len() as int);
            assert(al =~= av.take(mid as int));
            assert(ar =~= av.skip(mid as int));
        }
        let mut best_split: usize = 0;
        let mut best_score: usize = 0;
        let mut j: usize = 0;
        while j < left.len()
            invariant
                av == lines_view(a@),
                bv == lines_view(b@),
                al == av.take(mid as int),
                ar == av.skip(mid as int),
                0 <= mid <= av.len(),
                left@.len() == b@.len() + 1,
                right@.len() == b@.len() + 1,
                forall|k: int|
                    0 <= k <= b@.len() ==> #[trigger] left@[k] == lcs_len(al, bv.take(k)),
                forall|k: int|
                    0 <= k <= b@.len() ==> #[trigger] right@[k] == lcs_len(
                        ar.reverse(),
                        bv.reverse().take(k),
                    ),
                0 <= j <= left@.len(),
                0 <= best_split <= b@.len(),
                best_split < j || (j == 0 && best_split == 0 && best_score == 0),
                j > 0 ==> best_score == split_score(av, bv, mid as int, best_split as int),
                forall|k: int| 0 <= k < j ==> split_score(av, bv, mid as int, k) <= best_score,
                chosen_split(av, bv, mid as int) == best_split_from(
                    av,
                    bv,
                    mid as int,
                    j as int,
                    best_split as int,
                    best_score as nat,
                ),
            decreases left@.len() - j,
        {
            proof {
                let k = j as int;
                assert(bv.reverse().take(bv.len() - k) =~= bv.skip(k).reverse());
                lemma_lcs_reverse(ar, bv.skip(k));
                lemma_lcs_bounds(al, bv.take(k));
                lemma_lcs_bounds(ar.reverse(), bv.reverse().take(bv.len() - k));
            }
            let score = left[j] + right[b.len() - j];
            assert(score == split_score(av, bv, mid as int, j as int));
            if score > best_score || j == 0 {
                best_score = score;
                best_split = j;
            }
            j = j + 1;
        }
        proof {
            let js = lemma_lcs_split_exists(av, bv, mid as int);
            assert(split_score(av, bv, mid as int, js) <= best_score);
            lemma_lcs_split_upper(av, bv, mid as int, best_split as int);
        }
        best_split
    };
    assert(split_score(av, bv, mid as int, split as int) == lcs_len(av, bv));
    assert(split as int == chosen_split(av, bv, mid as int));
    let (b_left, b_right) = b.split_at(split);
    proof {
        lemma_lines_view_subrange(a@, 0, mid as int);
        lemma_lines_view_subrange(a@, mid as int, a@.len() as int);
        lemma_lines_view_subrange(b@, 0, split as int);
        lemma_lines_view_subrange(b@, split as int, b@.len() as int);
        assert(lines_view(a_left@) =~= av.take(mid as int));
        assert(lines_view(a_right@) =~= av.skip(mid as int));
        assert(lines_view(b_left@) =~= bv.take(split as int));
        assert(lines_view(b_right@) =~= bv.skip(split as int));
        lemma_lcs_symmetric(lines_view(a_left@), lines_view(b_left@));
        lemma_lcs_symmetric(lines_view(a_right@), lines_view(b_right@));
    }
    hirschberg(a_left, b_left, a_is_old, result);
    let ghost r1 = result@;
    hirschberg(a_right, b_right, a_is_old, result);
    proof {
        lemma_appended(r0, r1, result@);
        let s1 = diff_script(r1.skip(r0.len() as int));
        let s2 = diff_script(result@.skip(r1.len() as int));
        lemma_script_concat(s1, s2);
        assert(av.take(mid as int) + av.skip(mid as int) =~= av);
        assert(bv.take(split as int) + bv.skip(split as int) =~= bv);
    }
}

/// Setting aside a common prefix of `pl` lines and a common suffix of `sl`
/// lines splits both texts in three and the longest common subsequence with them.
proof fn lemma_trimmed(ov: Seq<Seq<char>>, nv: Seq<Seq<char>>, pl: int, sl: int)
    requires
        0 <= pl,
        0 <= sl,
        pl + sl <= ov.len(),
        pl + sl <= nv.len(),
        forall|k: int| 0 <= k < pl ==> ov[k] == nv[k],
        forall|k: int| ov.len() - sl <= k < ov.len() ==> #[trigger] ov[k] == nv[k - ov.len() + nv.len()],
    ensures
        ov == ov.take(pl) + ov.subrange(pl, ov.len() - sl) + ov.skip(ov.len() - sl),
        nv == ov.take(pl) + nv.subrange(pl, nv.len() - sl) + ov.skip(ov.len() - sl),
        lcs_len(ov, nv) == pl + lcs_len(ov.subrange(pl, ov.len() - sl), nv.subrange(pl, nv.len() - sl)) + sl,
{
    let p = ov.take(pl);
    let om = ov.subrange(pl, ov.len() - sl);
    let nm = nv.subrange(pl, nv.len() - sl);
    let s = ov.skip(ov.len() - sl);
    assert(nv.take(pl) =~= p);
    assert(nv.skip(nv.len() - sl) =~= s) by {
        assert forall|k: int| 0 <= k < sl implies #[trigger] s[k] == nv.skip(nv.len() - sl)[k] by {
            assert(ov[ov.len() - sl + k] == nv[ov.len() - sl + k - ov.len() + nv.len()]);
        }
    }
    assert(ov =~= p + om + s);
    assert(nv =~= nv.take(pl) + nm + nv.skip(nv.len() - sl));
    lemma_lcs_common_suffix(p + om, p + nm, s);
    lemma_lcs_common_prefix(p, om, nm);
}

/// The number of lines at the start of `a` and `b` that they have in common.
pub open spec fn common_prefix_len(a: Seq<Seq<char>>, b: Seq<Seq<char>>) -> nat
    decreases a.len(),
{
    if a.len() > 0 && b.len() > 0 && a[0] == b[0] {
        1 + common_prefix_len(a.drop_first(), b.drop_first())
    } else {
        0
    }
}

/// The common prefix ends at the first position where the lines differ or
/// one text ends.
proof fn lemma_common_prefix_len(a: Seq<Seq<char>>, b: Seq<Seq<char>>, p: int)
    requires
        0 <= p <= a.len(),
        p <= b.len(),
        forall|k: int| 0 <= k < p ==> a[k] == b[k],
        p == a.len() || p == b.len() || a[p] != b[p],
    ensures
        common_prefix_len(a, b) == p,
    decreases p,
{
    if p > 0 {
        assert(a[0] == b[0]);
        lemma_common_prefix_len(a.drop_first(), b.drop_first(), p - 1);
    }
}

/// The diff that `diff_lines` gives: the common prefix as context, then the
/// lines between the common prefix and the common suffix diffed by
/// Hirschberg's algorithm (the longer of the two middles taken as the first
/// text), then the common suffix as context.
pub open spec fn diff_spec(ov: Seq<Seq<char>>, nv: Seq<Seq<char>>) -> Seq<Edit<Seq<char>>> {
    let p = common_prefix_len(ov, nv) as int;
    let s = common_prefix_len(ov.skip(p).reverse(), nv.skip(p).reverse()) as int;
    let om = ov.subrange(p, ov.len() - s);
    let nm = nv.subrange(p, nv.len() - s);
    keepings(ov.take(p)) + (if om.len() >= nm.len() {
        hirschberg_script(om, nm, true)
    } else {
        hirschberg_script(nm, om, false)
    }) + keepings(ov.skip(ov.len() - s))
}

/// The lengths at which `diff_lines` stops comparing are those of the common
/// prefix and of the common suffix of what follows it.
proof fn lemma_trim_lengths(ov: Seq<Seq<char>>, nv: Seq<Seq<char>>, pl: int, sl: int)
    requires
        0 <= pl <= ov.len(),
        pl <= nv.len(),
        forall|k: int| 0 <= k < pl ==> ov[k] == nv[k],
        pl == ov.len() || pl == nv.len() || ov[pl] != nv[pl],
        0 <= sl,
        pl + sl <= ov.len(),
        pl + sl <= nv.len(),
        forall|k: int| ov.len() - sl <= k < ov.len() ==> #[trigger] ov[k] == nv[k - ov.len() + nv.len()],
        pl + sl == ov.len() || pl + sl == nv.len() || ov[ov.len() - 1 - sl] != nv[nv.len() - 1 - sl],
    ensures
        common_prefix_len(ov, nv) == pl,
        common_prefix_len(ov.skip(pl).reverse(), nv.skip(pl).reverse()) == sl,
{
    lemma_common_prefix_len(ov, nv, pl);
    let ra = ov.skip(pl).reverse();
    let rb = nv.skip(pl).reverse();
    assert forall|k: int| 0 <= k < sl implies ra[k] == rb[k] by {
        assert(ra[k] == ov[ov.len() - 1 - k]);
        assert(rb[k] == nv[nv.len() - 1 - k]);
        assert(ov[ov.len() - 1 - k] == nv[ov.len() - 1 - k - ov.len() + nv.len()]);
    }
    if sl < ra.len() && sl < rb.len() {
        assert(ra[sl] == ov[ov.len() - 1 - sl]);
        assert(rb[sl] == nv[nv.len() - 1 - sl]);
    }
    lemma_common_prefix_len(ra, rb, sl);
}

/// Diffs two texts split into lines.
///
/// The common prefix and suffix become context lines; the lines between them
/// are diffed with Hirschberg's algorithm. The result turns `old` into `new`
/// and keeps a longest common subsequence of the two as context.
#[verifier::rlimit(100)]
pub fn diff_lines<'a>(old: &'a [&'a str], new: &'a [&'a str]) -> (result: Vec<DiffLine<'a>>)
    ensures
        is_lcs_diff(diff_script(result@), lines_view(old@), lines_view(new@)),
        diff_script(result@) == diff_spec(lines_view(old@), lines_view(new@)),
{
    let ghost ov = lines_view(old@);
    let ghost nv = lines_view(new@);
    let mut result: Vec<DiffLine<'a>> = Vec::new();
    let mut prefix_len: usize = 0;
    while prefix_len < old.len() && prefix_len < new.len()
        invariant
            ov == lines_view(old@),
            nv == lines_view(new@),
            prefix_len <= old.len(),
            prefix_len <= new.len(),
            forall|k: int| 0 <= k < prefix_len ==> ov[k] == nv[k],
        ensures
            prefix_len <= old.len(),
            prefix_len <= new.len(),
            forall|k: int| 0 <= k < prefix_len ==> ov[k] == nv[k],
            prefix_len == old.len() || prefix_len == new.len() || ov[prefix_len as int]
                != nv[prefix_len as int],
        decreases old.len() - prefix_len,
    {
        if !str_eq(old[prefix_len], new[prefix_len]) {
            break;
        }
        prefix_len = prefix_len + 1;
    }
    let max_suffix_len = if old.len() < new.len() {
        old.len()
    } else {
        new.len()
    } - prefix_len;
    let mut suffix_len: usize = 0;
    while suffix_len < max_suffix_len
        invariant
            ov == lines_view(old@),
            nv == lines_view(new@),
            prefix_len + max_suffix_len <= old.len(),
            prefix_len + max_suffix_len <= new.len(),
            suffix_len <= max_suffix_len,
            forall|k: int|
                old.len() - suffix_len <= k < old.len() ==> #[trigger] ov[k] == nv[k - old.len()
                    + new.len()],
        ensures
            suffix_len <= max_suffix_len,
            forall|k: int|
                old.len() - suffix_len <= k < old.len() ==> #[trigger] ov[k] == nv[k - old.len()
                    + new.len()],
            suffix_len == max_suffix_len || ov[old.len() - 1 - suffix_len] != nv[new.len() - 1
                - suffix_len],
        decreases max_suffix_len - suffix_len,
    {
        if !str_eq(old[old.len() - 1 - suffix_len], new[new.len() - 1 - suffix_len]) {
            break;
        }
        suffix_len = suffix_len + 1;
    }
    push_context(&old[0..prefix_len], &mut result);
    let ghost r1 = result@;
    let old_end = old.len() - suffix_len;
    let new_end = new.len() - suffix_len;
    let old_middle = &old[prefix_len..old_end];
    let new_middle = &new[prefix_len..new_end];
    let ghost middle_script = if old_middle@.len() >= new_middle@.len() {
        hirschberg_script(lines_view(old_middle@), lines_view(new_middle@), true)
    } else {
        hirschberg_script(lines_view(new_middle@), lines_view(old_middle@), false)
    };
    if old_middle.len() >= new_middle.len() {
        hirschberg(old_middle, new_middle, true, &mut result);
    } else {
        hirschberg(new_middle, old_middle, false, &mut result);
    }
    let ghost r2 = result@;
    assert(diff_script(r2.skip(r1.len() as int)) == middle_script);
    if suffix_len > 0 {
        push_context(&old[old.len() - suffix_len..old.len()], &mut result);
    }
    proof {
        let pl = prefix_len as int;
        let sl = suffix_len as int;
        lemma_trim_lengths(ov, nv, pl, sl);
        lemma_trimmed(ov, nv, pl, sl);
        let p = ov.take(pl);
        let om = ov.subrange(pl, ov.len() - sl);
        let nm = nv.subrange(pl, nv.len() - sl);
        let s = ov.skip(ov.len() - sl);
        lemma_lines_view_subrange(old@, 0, pl);
        lemma_lines_view_subrange(old@, pl, old_end as int);
        lemma_lines_view_subrange(new@, pl, new_end as int);
        lemma_lines_view_subrange(old@, old_end as int, old@.len() as int);
        assert(ov.subrange(0, pl) =~= p);
        assert(ov.subrange(old_end as int, ov.len() as int) =~= s);
        lemma_uniform_scripts(p);
        lemma_uniform_scripts(s);
        let r0 = Seq::<DiffLine<'a>>::empty();
        assert(r1.take(0) =~= r0);
        assert(r1.skip(0) =~= r1);
        lemma_appended(r0, r1, r2);
        assert(r2.skip(0) =~= r2);
        let m = diff_script(r2.skip(r1.len() as int));
        assert(is_lcs_diff(m, om, nm));
        lemma_script_concat(keepings(p), m);
        if suffix_len > 0 {
            lemma_appended(r0, r2, result@);
            assert(result@.skip(0) =~= result@);
            lemma_script_concat(keepings(p) + m, keepings(s));
        } else {
            assert(s =~= Seq::<Seq<char>>::empty());
            assert(keepings(s) =~= Seq::<Edit<Seq<char>>>::empty());
            assert(keepings(p) + m + keepings(s) =~= keepings(p) + m);
            assert(p + om + s =~= p + om);
            assert(p + nm + s =~= p + nm);
            assert(result@ == r2);
        }
        assert(diff_script(result@) == keepings(p) + m + keepings(s));
        assert(lines_view(old_middle@) == om);
        assert(lines_view(new_middle@) == nm);
        let mm = if om.len() >= nm.len() {
            hirschberg_script(om, nm, true)
        } else {
            hirschberg_script(nm, om, false)
        };
        assert(m == mm);
        assert(common_prefix_len(ov, nv) == pl);
        assert(common_prefix_len(ov.skip(pl).reverse(), nv.skip(pl).reverse()) == sl);
        assert(diff_spec(ov, nv) == keepings(ov.take(pl)) + mm + keepings(ov.skip(ov.len() - sl)));
    }
    result
}

} // verus!
