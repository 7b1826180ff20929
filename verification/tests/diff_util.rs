use tig::utils::diff_util::{diff_lines, DiffLine};

#[test]
fn diff_replaces_a_middle_line() {
    let old = ["a", "b", "c"];
    let new = ["a", "x", "c"];
    let d = diff_lines(&old, &new);
    assert_eq!(
        d,
        vec![
            DiffLine::Context("a"),
            DiffLine::Removed("b"),
            DiffLine::Added("x"),
            DiffLine::Context("c"),
        ]
    );
}

#[test]
fn diff_of_equal_texts_is_all_context() {
    let old = ["one", "two"];
    let d = diff_lines(&old, &old);
    assert_eq!(d, vec![DiffLine::Context("one"), DiffLine::Context("two")]);
}

#[test]
fn diff_from_empty_adds_everything() {
    let old: [&str; 0] = [];
    let new = ["x", "y"];
    assert_eq!(diff_lines(&old, &new), vec![DiffLine::Added("x"), DiffLine::Added("y")]);
}

#[test]
fn diff_to_empty_removes_everything() {
    let old = ["x", "y"];
    let new: [&str; 0] = [];
    assert_eq!(diff_lines(&old, &new), vec![DiffLine::Removed("x"), DiffLine::Removed("y")]);
}

#[test]
fn diff_keeps_a_longest_common_subsequence() {
    let old = ["a", "b", "c", "d"];
    let new = ["b", "d", "e"];
    let d = diff_lines(&old, &new);
    assert_eq!(
        d,
        vec![
            DiffLine::Removed("a"),
            DiffLine::Context("b"),
            DiffLine::Removed("c"),
            DiffLine::Context("d"),
            DiffLine::Added("e"),
        ]
    );
}

#[test]
fn diff_turns_old_into_new() {
    let old = ["p", "q", "r", "s", "t", "u"];
    let new = ["q", "x", "s", "u", "v"];
    let d = diff_lines(&old, &new);
    let mut o = Vec::new();
    let mut n = Vec::new();
    let mut kept = 0;
    for l in &d {
        match l {
            DiffLine::Context(s) => {
                o.push(*s);
                n.push(*s);
                kept += 1;
            }
            DiffLine::Removed(s) => o.push(*s),
            DiffLine::Added(s) => n.push(*s),
        }
    }
    assert_eq!(o, old.to_vec());
    assert_eq!(n, new.to_vec());
    assert_eq!(kept, 3);
}

#[test]
fn diff_replaces_with_removal_first() {
    let old = ["A", "B", "C", "D"];
    let new = ["A", "B", "X", "D"];
    assert_eq!(
        diff_lines(&old, &new),
        vec![
            DiffLine::Context("A"),
            DiffLine::Context("B"),
            DiffLine::Removed("C"),
            DiffLine::Added("X"),
            DiffLine::Context("D"),
        ]
    );
}

#[test]
fn diff_keeps_prefix_and_suffix_as_context() {
    let old = ["A", "B"];
    let new = ["A", "C", "A", "B"];
    assert_eq!(
        diff_lines(&old, &new),
        vec![
            DiffLine::Context("A"),
            DiffLine::Added("C"),
            DiffLine::Added("A"),
            DiffLine::Context("B"),
        ]
    );
}

#[test]
fn diff_of_one_new_line_against_one_old_removes_first() {
    let old = ["A"];
    let new = ["B"];
    assert_eq!(diff_lines(&old, &new), vec![DiffLine::Removed("A"), DiffLine::Added("B")]);
    let new2 = ["B", "C"];
    assert_eq!(
        diff_lines(&old, &new2),
        vec![DiffLine::Added("B"), DiffLine::Removed("A"), DiffLine::Added("C")]
    );
}
