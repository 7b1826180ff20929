//! Edit scripts between two sequences and the length of their longest
//! common subsequence.
use vstd::prelude::*;

verus! {

/// One step of an edit script that turns an old sequence into a new one.
pub enum Edit<T> {
    /// An element present in both sequences.
    Keep(T),
    /// An element present only in the new sequence.
    Insert(T),
    /// An element present only in the old sequence.
    Delete(T),
}

/// The old sequence that an edit script reads: its kept and deleted elements.
pub open spec fn old_side<T>(d: Seq<Edit<T>>) -> Seq<T>
    decreases d.len(),
{
    if d.len() == 0 {
        Seq::empty()
    } else {
        let rest = old_side(d.drop_last());
        match d.last() {
            Edit::Keep(x) => rest.push(x),
            Edit::Delete(x) => rest.push(x),
            Edit::Insert(_) => rest,
        }
    }
}

/// The new sequence that an edit script writes: its kept and inserted elements.
pub open spec fn new_side<T>(d: Seq<Edit<T>>) -> Seq<T>
    decreases d.len(),
{
    if d.len() == 0 {
        Seq::empty()
    } else {
        let rest = new_side(d.drop_last());
        match d.last() {
            Edit::Keep(x) => rest.push(x),
            Edit::Insert(x) => rest.push(x),
            Edit::Delete(_) => rest,
        }
    }
}

/// The number of kept elements of an edit script.
pub open spec fn keeps<T>(d: Seq<Edit<T>>) -> nat
    decreases d.len(),
{
    if d.len() == 0 {
        0
    } else {
        keeps(d.drop_last()) + if d.last() is Keep { 1nat } else { 0nat }
    }
}

/// The length of a longest common subsequence of `a` and `b`.
pub open spec fn lcs_len<T>(a: Seq<T>, b: Seq<T>) -> nat
    decreases a.len() + b.len(),
{
    if a.len() == 0 || b.len() == 0 {
        0
    } else if a.last() == b.last() {
        lcs_len(a.drop_last(), b.drop_last()) + 1
    } else {
        let x = lcs_len(a.drop_last(), b);
        let y = lcs_len(a, b.drop_last());
        if x >= y {
            x
        } else {
            y
        }
    }
}

/// An edit script from `a` to `b` that keeps as many elements as possible.
pub open spec fn lcs_script<T>(a: Seq<T>, b: Seq<T>) -> Seq<Edit<T>>
    decreases a.len() + b.len(),
{
    if a.len() == 0 && b.len() == 0 {
        Seq::empty()
    } else if a.len() == 0 {
        lcs_script(a, b.drop_last()).push(Edit::Insert(b.last()))
    } else if b.len() == 0 {
        lcs_script(a.drop_last(), b).push(Edit::Delete(a.last()))
    } else if a.last() == b.last() {
        lcs_script(a.drop_last(), b.drop_last()).push(Edit::Keep(a.last()))
    } else if lcs_len(a.drop_last(), b) >= lcs_len(a, b.drop_last()) {
        lcs_script(a.drop_last(), b).push(Edit::Delete(a.last()))
    } else {
        lcs_script(a, b.drop_last()).push(Edit::Insert(b.last()))
    }
}

/// Both sides and the kept count of a concatenation are those of the parts.
pub proof fn lemma_script_concat<T>(d1: Seq<Edit<T>>, d2: Seq<Edit<T>>)
    ensures
        old_side(d1 + d2) == old_side(d1) + old_side(d2),
        new_side(d1 + d2) == new_side(d1) + new_side(d2),
        keeps(d1 + d2) == keeps(d1) + keeps(d2),
    decreases d2.len(),
{
    if d2.len() == 0 {
        assert(d1 + d2 =~= d1);
    } else {
        lemma_script_concat(d1, d2.drop_last());
        assert((d1 + d2).drop_last() =~= d1 + d2.drop_last());
        assert((d1 + d2).last() == d2.last());
        match d2.last() {
            Edit::Keep(x) => {
                assert(old_side(d1) + old_side(d2.drop_last()).push(x) =~= (old_side(d1)
                    + old_side(d2.drop_last())).push(x));
                assert(new_side(d1) + new_side(d2.drop_last()).push(x) =~= (new_side(d1)
                    + new_side(d2.drop_last())).push(x));
            },
            Edit::Insert(x) => {
                assert(new_side(d1) + new_side(d2.drop_last()).push(x) =~= (new_side(d1)
                    + new_side(d2.drop_last())).push(x));
            },
            Edit::Delete(x) => {
                assert(old_side(d1) + old_side(d2.drop_last()).push(x) =~= (old_side(d1)
                    + old_side(d2.drop_last())).push(x));
            },
        }
    }
}

/// A common subsequence is no longer than either sequence.
pub proof fn lemma_lcs_bounds<T>(a: Seq<T>, b: Seq<T>)
    ensures
        lcs_len(a, b) <= a.len(),
        lcs_len(a, b) <= b.len(),
    decreases a.len() + b.len(),
{
    if a.len() != 0 && b.len() != 0 {
        lemma_lcs_bounds(a.drop_last(), b.drop_last());
        lemma_lcs_bounds(a.drop_last(), b);
        lemma_lcs_bounds(a, b.drop_last());
    }
}

/// Dropping the last element of either sequence shortens the longest common
/// subsequence by at most one.
pub proof fn lemma_lcs_step<T>(a: Seq<T>, b: Seq<T>)
    ensures
        a.len() > 0 ==> lcs_len(a.drop_last(), b) <= lcs_len(a, b) <= lcs_len(a.drop_last(), b)
            + 1,
        b.len() > 0 ==> lcs_len(a, b.drop_last()) <= lcs_len(a, b) <= lcs_len(a, b.drop_last())
            + 1,
    decreases a.len() + b.len(),
{
    if a.len() > 0 && b.len() > 0 {
        lemma_lcs_step(a.drop_last(), b);
        lemma_lcs_step(a, b.drop_last());
        assert(a.drop_last().len() + b.len() < a.len() + b.len());
    } else if a.len() > 0 {
        assert(lcs_len(a.drop_last(), b) == 0);
    } else if b.len() > 0 {
        assert(lcs_len(a, b.drop_last()) == 0);
    }
}

/// The kept count of any edit script is at most the length of a longest
/// common subsequence of its two sides.
pub proof fn lemma_keeps_le_lcs<T>(d: Seq<Edit<T>>)
    ensures
        keeps(d) <= lcs_len(old_side(d), new_side(d)),
    decreases d.len(),
{
    if d.len() > 0 {
        let r = d.drop_last();
        lemma_keeps_le_lcs(r);
        let a = old_side(d);
        let b = new_side(d);
        match d.last() {
            Edit::Keep(x) => {
                assert(a.drop_last() =~= old_side(r));
                assert(b.drop_last() =~= new_side(r));
            },
            Edit::Delete(x) => {
                assert(a.drop_last() =~= old_side(r));
                lemma_lcs_step(a, b);
            },
            Edit::Insert(x) => {
                assert(b.drop_last() =~= new_side(r));
                lemma_lcs_step(a, b);
            },
        }
    }
}

/// `lcs_script` is an edit script from `a` to `b` that keeps `lcs_len(a, b)` elements.
pub proof fn lemma_lcs_script<T>(a: Seq<T>, b: Seq<T>)
    ensures
        old_side(lcs_script(a, b)) == a,
        new_side(lcs_script(a, b)) == b,
        keeps(lcs_script(a, b)) == lcs_len(a, b),
    decreases a.len() + b.len(),
{
    let d = lcs_script(a, b);
    if a.len() == 0 && b.len() == 0 {
        assert(a =~= Seq::<T>::empty());
        assert(b =~= Seq::<T>::empty());
    } else if a.len() == 0 {
        lemma_lcs_script(a, b.drop_last());
        assert(d.drop_last() =~= lcs_script(a, b.drop_last()));
        assert(b.drop_last().push(b.last()) =~= b);
    } else if b.len() == 0 {
        lemma_lcs_script(a.drop_last(), b);
        assert(d.drop_last() =~= lcs_script(a.drop_last(), b));
        assert(a.drop_last().push(a.last()) =~= a);
    } else if a.last() == b.last() {
        lemma_lcs_script(a.drop_last(), b.drop_last());
        assert(d.drop_last() =~= lcs_script(a.drop_last(), b.drop_last()));
        assert(a.drop_last().push(a.last()) =~= a);
        assert(b.drop_last().push(b.last()) =~= b);
    } else if lcs_len(a.drop_last(), b) >= lcs_len(a, b.drop_last()) {
        lemma_lcs_script(a.drop_last(), b);
        assert(d.drop_last() =~= lcs_script(a.drop_last(), b));
        assert(a.drop_last().push(a.last()) =~= a);
    } else {
        lemma_lcs_script(a, b.drop_last());
        assert(d.drop_last() =~= lcs_script(a, b.drop_last()));
        assert(b.drop_last().push(b.last()) =~= b);
    }
}


/// The longest common subsequence does not depend on the order of the two sequences.
pub proof fn lemma_lcs_symmetric<T>(a: Seq<T>, b: Seq<T>)
    ensures
        lcs_len(a, b) == lcs_len(b, a),
    decreases a.len() + b.len(),
{
    if a.len() != 0 && b.len() != 0 {
        lemma_lcs_symmetric(a.drop_last(), b.drop_last());
        lemma_lcs_symmetric(a.drop_last(), b);
        lemma_lcs_symmetric(a, b.drop_last());
    }
}

/// Reversing an edit script reverses both of its sides and keeps its kept count.
pub proof fn lemma_script_reverse<T>(d: Seq<Edit<T>>)
    ensures
        old_side(d.reverse()) == old_side(d).reverse(),
        new_side(d.reverse()) == new_side(d).reverse(),
        keeps(d.reverse()) == keeps(d),
    decreases d.len(),
{
    if d.len() == 0 {
        assert(d.reverse() =~= Seq::<Edit<T>>::empty());
        assert(old_side(d).reverse() =~= Seq::<T>::empty());
        assert(new_side(d).reverse() =~= Seq::<T>::empty());
    } else {
        let r = d.drop_last();
        let e = d.last();
        lemma_script_reverse(r);
        assert(d.reverse() =~= seq![e] + r.reverse());
        lemma_script_concat(seq![e], r.reverse());
        assert(seq![e].drop_last() =~= Seq::<Edit<T>>::empty());
        assert(seq![e].last() == e);
        assert(old_side(Seq::<Edit<T>>::empty()) =~= Seq::<T>::empty());
        assert(new_side(Seq::<Edit<T>>::empty()) =~= Seq::<T>::empty());
        assert(keeps(Seq::<Edit<T>>::empty()) == 0);
        assert(keeps(seq![e]) == keeps(seq![e].drop_last()) + if e is Keep { 1nat } else { 0nat });
        match e {
            Edit::Keep(x) => {
                assert(old_side(d).reverse() =~= seq![x] + old_side(r).reverse());
                assert(new_side(d).reverse() =~= seq![x] + new_side(r).reverse());
                assert(old_side(seq![e]) =~= seq![x]);
                assert(new_side(seq![e]) =~= seq![x]);
            },
            Edit::Insert(x) => {
                assert(old_side(d).reverse() =~= old_side(r).reverse());
                assert(new_side(d).reverse() =~= seq![x] + new_side(r).reverse());
                assert(old_side(seq![e]) =~= Seq::<T>::empty());
                assert(new_side(seq![e]) =~= seq![x]);
            },
            Edit::Delete(x) => {
                assert(old_side(d).reverse() =~= seq![x] + old_side(r).reverse());
                assert(new_side(d).reverse() =~= new_side(r).reverse());
                assert(old_side(seq![e]) =~= seq![x]);
                assert(new_side(seq![e]) =~= Seq::<T>::empty());
            },
        }
    }
}

/// The longest common subsequence of two reversed sequences is as long as that
/// of the sequences themselves.
pub proof fn lemma_lcs_reverse<T>(a: Seq<T>, b: Seq<T>)
    ensures
        lcs_len(a.reverse(), b.reverse()) == lcs_len(a, b),
{
    let d = lcs_script(a, b);
    lemma_lcs_script(a, b);
    lemma_script_reverse(d);
    lemma_keeps_le_lcs(d.reverse());
    let e = lcs_script(a.reverse(), b.reverse());
    lemma_lcs_script(a.reverse(), b.reverse());
    lemma_script_reverse(e);
    lemma_keeps_le_lcs(e.reverse());
    assert(a.reverse().reverse() =~= a);
    assert(b.reverse().reverse() =~= b);
}

/// A common suffix adds its whole length to the longest common subsequence.
pub proof fn lemma_lcs_common_suffix<T>(a: Seq<T>, b: Seq<T>, s: Seq<T>)
    ensures
        lcs_len(a + s, b + s) == lcs_len(a, b) + s.len(),
    decreases s.len(),
{
    if s.len() == 0 {
        assert(a + s =~= a);
        assert(b + s =~= b);
    } else {
        lemma_lcs_common_suffix(a, b, s.drop_last());
        assert((a + s).drop_last() =~= a + s.drop_last());
        assert((b + s).drop_last() =~= b + s.drop_last());
    }
}

/// A common prefix adds its whole length to the longest common subsequence.
pub proof fn lemma_lcs_common_prefix<T>(p: Seq<T>, a: Seq<T>, b: Seq<T>)
    ensures
        lcs_len(p + a, p + b) == p.len() + lcs_len(a, b),
{
    assert((p + a).reverse() =~= a.reverse() + p.reverse());
    assert((p + b).reverse() =~= b.reverse() + p.reverse());
    lemma_lcs_reverse(p + a, p + b);
    lemma_lcs_common_suffix(a.reverse(), b.reverse(), p.reverse());
    lemma_lcs_reverse(a, b);
}

/// A single element that does not occur in `b` has nothing in common with it.
pub proof fn lemma_lcs_single_absent<T>(x: T, b: Seq<T>)
    requires
        !b.contains(x),
    ensures
        lcs_len(seq![x], b) == 0,
    decreases b.len(),
{
    if b.len() > 0 {
        assert(b.drop_last().len() < b.len());
        assert(!b.drop_last().contains(x)) by {
            if b.drop_last().contains(x) {
                let i = choose|i: int| 0 <= i < b.drop_last().len() && b.drop_last()[i] == x;
                assert(b[i] == x);
            }
        }
        lemma_lcs_single_absent(x, b.drop_last());
        assert(b.last() != x) by {
            assert(b[b.len() - 1] == b.last());
        }
        assert(seq![x].drop_last() =~= Seq::<T>::empty());
        assert(seq![x].last() == x);
        assert(lcs_len(Seq::<T>::empty(), b) == 0);
    }
}

/// Every prefix length of the old side of an edit script is reached by some
/// prefix of the script.
pub proof fn lemma_script_split_point<T>(d: Seq<Edit<T>>, m: int) -> (k: int)
    requires
        0 <= m <= old_side(d).len(),
    ensures
        0 <= k <= d.len(),
        old_side(d.take(k)).len() == m,
    decreases d.len(),
{
    if m == old_side(d).len() {
        assert(d.take(d.len() as int) =~= d);
        d.len() as int
    } else {
        let r = d.drop_last();
        let k = lemma_script_split_point(r, m);
        assert(d.take(k) =~= r.take(k));
        k
    }
}

/// Splitting `a` at `m` and `b` at `j` and taking longest common subsequences
/// of the two halves never beats the longest common subsequence of `a` and `b`.
pub proof fn lemma_lcs_split_upper<T>(a: Seq<T>, b: Seq<T>, m: int, j: int)
    requires
        0 <= m <= a.len(),
        0 <= j <= b.len(),
    ensures
        lcs_len(a.take(m), b.take(j)) + lcs_len(a.skip(m), b.skip(j)) <= lcs_len(a, b),
{
    let d1 = lcs_script(a.take(m), b.take(j));
    let d2 = lcs_script(a.skip(m), b.skip(j));
    lemma_lcs_script(a.take(m), b.take(j));
    lemma_lcs_script(a.skip(m), b.skip(j));
    lemma_script_concat(d1, d2);
    assert(a.take(m) + a.skip(m) =~= a);
    assert(b.take(j) + b.skip(j) =~= b);
    lemma_keeps_le_lcs(d1 + d2);
}

/// For every split of `a` there is a split of `b` whose halves together reach
/// the longest common subsequence of `a` and `b`.
pub proof fn lemma_lcs_split_exists<T>(a: Seq<T>, b: Seq<T>, m: int) -> (j: int)
    requires
        0 <= m <= a.len(),
    ensures
        0 <= j <= b.len(),
        lcs_len(a.take(m), b.take(j)) + lcs_len(a.skip(m), b.skip(j)) == lcs_len(a, b),
{
    let d = lcs_script(a, b);
    lemma_lcs_script(a, b);
    let k = lemma_script_split_point(d, m);
    let d1 = d.take(k);
    let d2 = d.skip(k);
    assert(d1 + d2 =~= d);
    lemma_script_concat(d1, d2);
    assert(old_side(d1) =~= a.take(m));
    assert(old_side(d2) =~= a.skip(m));
    let j = new_side(d1).len() as int;
    assert(new_side(d1) =~= b.take(j));
    assert(new_side(d2) =~= b.skip(j));
    lemma_keeps_le_lcs(d1);
    lemma_keeps_le_lcs(d2);
    lemma_lcs_split_upper(a, b, m, j);
    j
}


/// An edit script that deletes every element of `xs`.
pub open spec fn deletions<T>(xs: Seq<T>) -> Seq<Edit<T>> {
    xs.map_values(|x: T| Edit::Delete(x))
}

/// An edit script that inserts every element of `xs`.
pub open spec fn insertions<T>(xs: Seq<T>) -> Seq<Edit<T>> {
    xs.map_values(|x: T| Edit::Insert(x))
}

/// An edit script that keeps every element of `xs`.
pub open spec fn keepings<T>(xs: Seq<T>) -> Seq<Edit<T>> {
    xs.map_values(|x: T| Edit::Keep(x))
}

/// The sides of the scripts that only delete, only insert or only keep.
pub proof fn lemma_uniform_scripts<T>(xs: Seq<T>)
    ensures
        old_side(deletions(xs)) == xs,
        new_side(deletions(xs)) == Seq::<T>::empty(),
        keeps(deletions(xs)) == 0,
        old_side(insertions(xs)) == Seq::<T>::empty(),
        new_side(insertions(xs)) == xs,
        keeps(insertions(xs)) == 0,
        old_side(keepings(xs)) == xs,
        new_side(keepings(xs)) == xs,
        keeps(keepings(xs)) == xs.len(),
    decreases xs.len(),
{
    if xs.len() == 0 {
        assert(deletions(xs) =~= Seq::<Edit<T>>::empty());
        assert(insertions(xs) =~= Seq::<Edit<T>>::empty());
        assert(keepings(xs) =~= Seq::<Edit<T>>::empty());
        assert(xs =~= Seq::<T>::empty());
    } else {
        lemma_uniform_scripts(xs.drop_last());
        assert(deletions(xs).drop_last() =~= deletions(xs.drop_last()));
        assert(insertions(xs).drop_last() =~= insertions(xs.drop_last()));
        assert(keepings(xs).drop_last() =~= keepings(xs.drop_last()));
        assert(xs.drop_last().push(xs.last()) =~= xs);
    }
}

} // verus!
