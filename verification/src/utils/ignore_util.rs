//! Ignore rules: names that are left out of trees and of the working
//! directory scan. A rule `*.ext` is a suffix wildcard: it matches every name
//! ending in `.ext`; any other rule matches the name equal to it.
use vstd::prelude::*;

use crate::utils::text_util::{
    chars_of, split_lines, str_eq, strip_prefix, strip_prefix_spec, strs_view, text_lines, trim,
    trimmed,
};

verus! {

/// Whether `s` ends with `suffix`.
pub open spec fn has_suffix(s: Seq<char>, suffix: Seq<char>) -> bool {
    suffix.len() <= s.len() && s.skip(s.len() - suffix.len()) == suffix
}

/// Whether the single rule `rule` matches `name`.
pub open spec fn rule_matches(name: Seq<char>, rule: Seq<char>) -> bool {
    match strip_prefix_spec(rule, "*."@) {
        Some(ext) => has_suffix(name, "."@ + ext),
        None => name == rule,
    }
}

/// Whether any of `rules` matches `name`.
pub open spec fn any_rule_matches(name: Seq<char>, rules: Seq<Seq<char>>) -> bool {
    exists|i: int| 0 <= i < rules.len() && rule_matches(name, #[trigger] rules[i])
}

/// Whether a trimmed line of an ignore file is a rule: not empty and not a
/// `#` comment.
pub open spec fn is_rule_line(l: Seq<char>) -> bool {
    l.len() > 0 && l[0] != '#'
}

/// The rules written in `lines`: each line trimmed, empty lines and comments
/// left out.
pub open spec fn rules_of_lines(lines: Seq<Seq<char>>) -> Seq<Seq<char>>
    decreases lines.len(),
{
    if lines.len() == 0 {
        Seq::empty()
    } else {
        let l = trimmed(lines.last());
        rules_of_lines(lines.drop_last()) + if is_rule_line(l) {
            seq![l]
        } else {
            Seq::empty()
        }
    }
}

/// The ignore rules of an ignore file with text `text`: its rules, then
/// `.tig`, which is always ignored.
pub open spec fn ignore_rules(text: Seq<char>) -> Seq<Seq<char>> {
    rules_of_lines(split_lines(text)) + seq![".tig"@]
}

/// The characters of each string.
pub open spec fn strings_view(v: Seq<String>) -> Seq<Seq<char>> {
    v.map_values(|s: String| s@)
}

/// Whether the characters `s` end with the characters `suffix`.
fn ends_with_chars(s: &Vec<char>, suffix: &Vec<char>) -> (r: bool)
    ensures
        r == has_suffix(s@, suffix@),
{
    if suffix.len() > s.len() {
        return false;
    }
    let off = s.len() - suffix.len();
    let mut i: usize = 0;
    while i < suffix.len()
        invariant
            off + suffix.len() == s.len(),
            i <= suffix@.len(),
            forall|k: int| 0 <= k < i ==> s@[off + k] == suffix@[k],
        decreases suffix.len() - i,
    {
        if s[off + i] != suffix[i] {
            assert(s@.skip(off as int)[i as int] != suffix@[i as int]);
            return false;
        }
        i = i + 1;
    }
    assert(s@.skip(off as int) =~= suffix@);
    true
}

/// Whether the rule `rule` matches `name`.
fn rule_matches_name(name: &str, rule: &str) -> (r: bool)
    ensures
        r == rule_matches(name@, rule@),
{
    match strip_prefix(rule, "*.") {
        Some(ext) => {
            let mut suffix = String::from_str(".");
            suffix.append(ext);
            let cs = chars_of(name);
            let ss = chars_of(suffix.as_str());
            ends_with_chars(&cs, &ss)
        },
        None => str_eq(name, rule),
    }
}

/// Whether any of `rules` matches `name`.
pub fn matches_ignore(name: &str, rules: &[String]) -> (r: bool)
    ensures
        r == any_rule_matches(name@, strings_view(rules@)),
{
    let ghost rv = strings_view(rules@);
    let mut i: usize = 0;
    while i < rules.len()
        invariant
            rv == strings_view(rules@),
            i <= rules@.len(),
            forall|k: int| 0 <= k < i ==> !rule_matches(name@, #[trigger] rv[k]),
        decreases rules.len() - i,
    {
        if rule_matches_name(name, rules[i].as_str()) {
            assert(rule_matches(name@, rv[i as int]));
            return true;
        }
        i = i + 1;
    }
    false
}

/// The ignore rules of an ignore file whose text is `text` (empty where
/// there is no such file): each line trimmed, empty lines and `#` comments
/// left out, and `.tig` added last.
pub fn load_ignore(text: &str) -> (r: Vec<String>)
    ensures
        strings_view(r@) == ignore_rules(text@),
{
    let lines = text_lines(text);
    let ghost lv = strs_view(lines@);
    let mut rules: Vec<String> = Vec::new();
    let mut i: usize = 0;
    while i < lines.len()
        invariant
            lv == strs_view(lines@),
            lv == split_lines(text@),
            i <= lines@.len(),
            strings_view(rules@) == rules_of_lines(lv.take(i as int)),
        decreases lines.len() - i,
    {
        let line = trim(lines[i]);
        assert(lv.take(i + 1).drop_last() =~= lv.take(i as int));
        assert(lv.take(i + 1).last() == lines@[i as int]@);
        if !line.is_empty() && line.get_char(0) != '#' {
            rules.push(String::from_str(line));
            assert(strings_view(rules@) =~= rules_of_lines(lv.take(i as int)) + seq![line@]);
        } else {
            assert(rules_of_lines(lv.take(i + 1)) =~= rules_of_lines(lv.take(i as int)));
        }
        i = i + 1;
    }
    assert(lv.take(lines@.len() as int) =~= lv);
    let tig = String::from_str(".tig");
    rules.push(tig);
    assert(strings_view(rules@) =~= ignore_rules(text@));
    rules
}

/// The repository directory `.tig` is ignored whatever the ignore file says.
pub proof fn law_repository_always_ignored(text: Seq<char>)
    ensures
        any_rule_matches(".tig"@, ignore_rules(text)),
{
    reveal_strlit(".tig");
    reveal_strlit("*.");
    let rules = ignore_rules(text);
    let last = rules.len() - 1;
    assert(rules[last] == ".tig"@);
    assert(strip_prefix_spec(".tig"@, "*."@) is None) by {
        assert(".tig"@.take(2)[0] != "*."@[0]);
    }
    assert(rule_matches(".tig"@, rules[last]));
}

} // verus!
