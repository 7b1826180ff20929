use ini::Ini;
use tig::error::TigError;
use tig::models::objects::commit::Commit;
use tig::models::objects::tig_object::TigObject;
use tig::utils::commit_util::build_commit;
use tig::utils::config_util::{config_get, config_set, get_author, get_email, split_config_key};

#[test]
fn config_get_after_set() {
    let mut ini = Ini::new();
    config_set(&mut ini, "user.name", "alice").unwrap();
    assert_eq!(config_get(&ini, "user.name"), Ok(String::from("alice")));
    config_set(&mut ini, "user.name", "bob").unwrap();
    assert_eq!(config_get(&ini, "user.name"), Ok(String::from("bob")));
    assert_eq!(config_get(&ini, "user.email"), Ok(String::new()));
    assert_eq!(config_get(&ini, "core.name"), Ok(String::new()));
}

#[test]
fn config_key_needs_a_section() {
    let mut ini = Ini::new();
    assert_eq!(
        config_set(&mut ini, "name", "x"),
        Err(TigError::UnknownConfigKey(String::from("name")))
    );
    assert_eq!(config_get(&ini, "name"), Err(TigError::UnknownConfigKey(String::from("name"))));
}

#[test]
fn config_key_splits_at_first_dot() {
    assert_eq!(
        split_config_key("a.b.c"),
        Some((String::from("a"), String::from("b.c")))
    );
    assert_eq!(split_config_key("abc"), None);
    let mut ini = Ini::new();
    config_set(&mut ini, "a.b.c", "v").unwrap();
    assert_eq!(ini.get_from(Some("a"), "b.c"), Some("v"));
}

#[test]
fn author_and_email_must_be_set() {
    let mut ini = Ini::new();
    assert_eq!(get_author(&ini), Err(TigError::AuthorNotSet));
    assert_eq!(get_email(&ini), Err(TigError::EmailNotSet));
    config_set(&mut ini, "user.name", "Ann").unwrap();
    config_set(&mut ini, "user.email", "ann@example.com").unwrap();
    assert_eq!(get_author(&ini), Ok(String::from("Ann")));
    assert_eq!(get_email(&ini), Ok(String::from("ann@example.com")));
}

#[test]
fn new_commit_errors() {
    let mut ini = Ini::new();
    let t = String::from("1111111111111111111111111111111111111111");
    assert!(matches!(
        Commit::new(t.clone(), None, String::from("m"), false, &ini),
        Err(TigError::InvalidTreeHash)
    ));
    assert!(matches!(
        Commit::new(t.clone(), None, String::from("m"), true, &ini),
        Err(TigError::AuthorNotSet)
    ));
    config_set(&mut ini, "user.name", "Ann").unwrap();
    assert!(matches!(
        Commit::new(t.clone(), None, String::from("m"), true, &ini),
        Err(TigError::EmailNotSet)
    ));
}

#[test]
fn new_commit_has_author_line() {
    let mut ini = Ini::new();
    config_set(&mut ini, "user.name", "Ann").unwrap();
    config_set(&mut ini, "user.email", "ann@example.com").unwrap();
    let t = String::from("1111111111111111111111111111111111111111");
    let c = Commit::new(t, Some(String::from("2222")), String::from("msg"), true, &ini).unwrap();
    let text = String::from_utf8(c.content()).unwrap();
    let lines: Vec<&str> = text.lines().collect();
    assert_eq!(lines[0], "tree 1111111111111111111111111111111111111111");
    assert_eq!(lines[1], "parent 2222");
    assert!(lines[2].starts_with("author Ann <ann@example.com> "));
    let offset = lines[2].rsplit(' ').next().unwrap();
    assert_eq!(offset.len(), 5);
    assert!(offset.starts_with('+') || offset.starts_with('-'));
    let stamp: Vec<&str> = lines[2].split(' ').collect();
    assert!(stamp[stamp.len() - 2].parse::<u64>().is_ok());
    assert_eq!(lines[3], format!("committer {}", &lines[2]["author ".len()..]));
    assert!(text.ends_with("\n\nmsg"));
    assert_eq!(c.parent_hash(), Some("2222"));
}

#[test]
fn build_commit_returns_its_hash() {
    let mut ini = Ini::new();
    config_set(&mut ini, "user.name", "Ann").unwrap();
    config_set(&mut ini, "user.email", "ann@example.com").unwrap();
    let (c, h) = build_commit("abcd", None, "msg", true, &ini).unwrap();
    assert_eq!(h, sha1_smol::Sha1::from(c.raw()).digest().to_string());
    assert_eq!(c.tree_hash(), "abcd");
    assert!(matches!(build_commit("abcd", None, "msg", false, &ini), Err(TigError::InvalidTreeHash)));
}

#[test]
fn new_commit_reads_back() {
    let mut ini = Ini::new();
    config_set(&mut ini, "user.name", "Ann").unwrap();
    config_set(&mut ini, "user.email", "ann@example.com").unwrap();
    let t = String::from("1111111111111111111111111111111111111111");
    let c = Commit::new(t, Some(String::from("2222")), String::from("line one\n\nline three"), true, &ini)
        .unwrap();
    let back = Commit::parse(&c.content()).unwrap();
    assert_eq!(back.content(), c.content());
    assert_eq!(back.tree_hash(), c.tree_hash());
    assert_eq!(back.parent_hash(), Some("2222"));
    let blank_parent =
        Commit::new(String::from("t"), Some(String::from("  ")), String::from("m"), true, &ini).unwrap();
    let back = Commit::parse(&blank_parent.content()).unwrap();
    assert_eq!(back.parent_hash(), None);
}
