use tig::error::TigError;
use tig::utils::ignore_util::{load_ignore, matches_ignore};
use tig::utils::object_util;
use tig::utils::repo_util::{
    get_branch_file_path, get_current_branch_name, get_last_commit_hash, has_branch,
    head_for_branch, set_head_to_branch,
};
use tig::utils::working_dir_util::{find_file, relative_path};

#[test]
fn head_of_main() {
    let head = "ref: refs/heads/main\n";
    assert_eq!(get_current_branch_name(head), Ok(String::from("main")));
    assert_eq!(get_branch_file_path(head), Ok(String::from(".tig/refs/heads/main")));
    assert_eq!(object_util::get_branch_file_path(head), Ok(String::from(".tig/refs/heads/main")));
}

#[test]
fn head_written_for_a_branch_names_it() {
    for name in ["main", "dev", "feature-x", ""] {
        let head = head_for_branch(name);
        assert_eq!(head, format!("ref: refs/heads/{}\n", name));
        assert_eq!(get_current_branch_name(&head), Ok(String::from(name)));
        assert_eq!(get_branch_file_path(&head), Ok(format!(".tig/refs/heads/{}", name)));
    }
}

#[test]
fn head_errors() {
    assert_eq!(get_current_branch_name("refs/heads/main"), Err(TigError::InvalidHead));
    assert_eq!(get_current_branch_name("ref:    \n"), Err(TigError::InvalidHead));
    assert_eq!(get_current_branch_name("ref: main"), Err(TigError::InvalidHeadRef));
    assert_eq!(get_branch_file_path("ref: main"), Ok(String::from(".tig/main")));
    assert_eq!(get_branch_file_path("garbage"), Err(TigError::InvalidHead));
}

#[test]
fn last_commit_hash_is_trimmed() {
    assert_eq!(get_last_commit_hash(Some("abc\n")), Some(String::from("abc")));
    assert_eq!(get_last_commit_hash(Some("  \n")), None);
    assert_eq!(get_last_commit_hash(None), None);
}

#[test]
fn switching_head_needs_an_existing_branch() {
    let branches = vec![String::from("main"), String::from("dev")];
    assert!(has_branch(&branches, "dev"));
    assert!(!has_branch(&branches, "prod"));
    assert_eq!(set_head_to_branch(&branches, "dev"), Ok(String::from("ref: refs/heads/dev\n")));
    assert_eq!(
        set_head_to_branch(&branches, "prod"),
        Err(TigError::NoSuchBranch(String::from("prod")))
    );
}

#[test]
fn ignore_rules_from_text() {
    let rules = load_ignore("target\n  *.log  \n\n# comment\r\n.DS_Store\r\n");
    assert_eq!(
        rules,
        vec![
            String::from("target"),
            String::from("*.log"),
            String::from(".DS_Store"),
            String::from(".tig"),
        ]
    );
    assert_eq!(load_ignore(""), vec![String::from(".tig")]);
}

#[test]
fn ignore_matching() {
    let rules = load_ignore("target\n*.log\n");
    assert!(matches_ignore("target", &rules));
    assert!(matches_ignore("build.log", &rules));
    assert!(matches_ignore(".log", &rules));
    assert!(matches_ignore(".tig", &rules));
    assert!(!matches_ignore("targets", &rules));
    assert!(!matches_ignore("catalog", &rules));
    assert!(!matches_ignore("log", &rules));
    assert!(!matches_ignore("build.logs", &rules));
    assert!(!matches_ignore("src", &rules));
}

#[test]
fn repository_is_always_ignored() {
    for text in ["", "a\nb", "!.tig"] {
        assert!(matches_ignore(".tig", &load_ignore(text)));
    }
}

#[test]
fn file_lookup_and_paths() {
    let files = vec![
        (String::from("a.txt"), String::from("h1")),
        (String::from("src/b.rs"), String::from("h2")),
    ];
    assert_eq!(find_file(&files, "src/b.rs"), Some(String::from("h2")));
    assert_eq!(find_file(&files, "c"), None);
    assert_eq!(relative_path("", "a"), "a");
    assert_eq!(relative_path("src", "a"), "src/a");
}
