use ini::Ini;
use tig::commands::branch::Branch;
use tig::commands::cat_file::CatFile;
use tig::commands::checkout::Checkout;
use tig::commands::commit::Commit;
use tig::commands::commit_tree::CommitTree;
use tig::commands::config::{Config, ConfigOutcome};
use tig::commands::diff::{diff_headers, file_diff, plan, Diff};
use tig::commands::{get_hash, parse_command_name, CommandName};
use tig::commands::hash_object::HashObject;
use tig::commands::init::Init;
use tig::commands::log::Log;
use tig::commands::status::Status;
use tig::commands::tig_command::TigCommand;
use tig::commands::write_tree::WriteTree;
use tig::error::TigError;
use tig::models::objects::blob::Blob;
use tig::models::objects::tig_object::TigObject;
use tig::utils::ptl_util::Color;
use tig::utils::zlib_util::encode;

fn args(v: &[&str]) -> Vec<String> {
    v.iter().map(|s| s.to_string()).collect()
}

#[test]
fn command_names() {
    assert_eq!(Init::new().get_name(), "init");
    assert_eq!(Log::new().get_name(), "log");
    assert_eq!(Status::new().get_name(), "status");
    assert_eq!(Diff::new().get_name(), "diff");
    assert_eq!(WriteTree::new().unwrap().get_name(), "write-tree");
    assert_eq!(Branch::new(args(&[])).get_name(), "branch");
}

#[test]
fn init_paths() {
    let init = Init::new();
    let paths = init.paths();
    assert_eq!(paths.len(), 259);
    assert_eq!(paths[0], "objects");
    assert_eq!(paths[1], "refs/heads");
    assert_eq!(paths[2], "refs/tags");
    assert_eq!(paths[3], "objects/00");
    assert_eq!(paths[3 + 0x0a], "objects/0a");
    assert_eq!(paths[258], "objects/ff");
}

#[test]
fn get_hash_is_sha1() {
    assert_eq!(get_hash(b"abc"), "a9993e364706816aba3e25717850c26c9cd0d89d");
}

#[test]
fn cat_file_arguments() {
    assert!(matches!(CatFile::new(args(&[])), Err(TigError::MissingHash)));
    assert!(matches!(CatFile::new(args(&["abc"])), Err(TigError::InvalidHashFormat)));
    let h = "a9993e364706816aba3e25717850c26c9cd0d89d";
    let c = CatFile::new(args(&[h])).unwrap();
    assert_eq!(c.hash(), h);
    assert_eq!(c.get_name(), "cat-file");
}

#[test]
fn cat_file_text() {
    let stored = encode(&Blob::new(b"hi there".to_vec()).raw()).unwrap();
    assert_eq!(CatFile::content_text(&stored), Ok(String::from("hi there")));
    let binary = encode(&Blob::new(vec![0xff]).raw()).unwrap();
    assert_eq!(CatFile::content_text(&binary), Err(TigError::InvalidUtf8));
}

#[test]
fn checkout_arguments() {
    assert!(matches!(Checkout::new(args(&[])), Err(TigError::MissingBranchName)));
    let c = Checkout::new(args(&["dev"])).unwrap();
    assert_eq!(c.branch_name(), "dev");
    let branches = args(&["main", "dev"]);
    assert_eq!(c.target_head(&branches), Ok(String::from("ref: refs/heads/dev\n")));
    let missing = Checkout::new(args(&["prod"])).unwrap();
    assert_eq!(
        missing.target_head(&branches),
        Err(TigError::NoSuchBranch(String::from("prod")))
    );
}

#[test]
fn commit_arguments() {
    assert!(matches!(Commit::new(args(&[])), Err(TigError::MissingMessageFlag)));
    assert!(matches!(Commit::new(args(&["-x", "m"])), Err(TigError::MissingMessageFlag)));
    assert!(matches!(Commit::new(args(&["-m"])), Err(TigError::EmptyMessage)));
    assert!(matches!(Commit::new(args(&["-m", "   "])), Err(TigError::EmptyMessage)));
    let c = Commit::new(args(&["-m", "init commit"])).unwrap();
    assert_eq!(c.message(), "init commit");
    assert_eq!(
        c.summary(".tig/refs/heads/main", "a9993e364706816aba3e25717850c26c9cd0d89d"),
        "[main a9993e3] init commit"
    );
}

#[test]
fn commit_tree_arguments() {
    assert!(matches!(CommitTree::new(args(&[])), Err(TigError::MissingTreeHashArgument)));
    assert!(matches!(CommitTree::new(args(&["t"])), Err(TigError::MissingMessage)));
    assert!(matches!(CommitTree::new(args(&["t", "-m", " "])), Err(TigError::EmptyMessage)));
    match CommitTree::new(args(&["t", "-x"])) {
        Err(TigError::UnsupportedOption(k)) => assert_eq!(k, "-x"),
        _ => panic!("expected an unsupported option"),
    }
    assert!(matches!(CommitTree::new(args(&["t", "-m"])), Err(TigError::MissingMessage)));
    let c = CommitTree::new(args(&["t", "-m", "msg", "-p", "par"])).unwrap();
    assert_eq!(c.tree_hash(), "t");
    assert_eq!(c.message(), "msg");
    assert_eq!(c.parent_hash(), Some("par"));
    let d = CommitTree::new(args(&["t", "-p", "x", "-m", "one", "-m", "two"])).unwrap();
    assert_eq!(d.message(), "two");
    assert_eq!(d.parent_hash(), Some("x"));
}

#[test]
fn config_command() {
    assert!(matches!(Config::new(args(&[])), Err(TigError::MissingConfigMode)));
    assert!(matches!(Config::new(args(&["get"])), Err(TigError::MissingConfigKey)));
    let mut ini = Ini::new();
    let set = Config::new(args(&[" SET ", "user.name", "Ann"])).unwrap();
    assert!(matches!(set.run(&mut ini), Ok(ConfigOutcome::Stored)));
    let get = Config::new(args(&["Get", "user.name"])).unwrap();
    match get.run(&mut ini) {
        Ok(ConfigOutcome::Value(v)) => assert_eq!(v, "Ann"),
        _ => panic!("expected a value"),
    }
    let blank = Config::new(args(&["set", "user.name", "  "])).unwrap();
    match blank.run(&mut ini) {
        Err(TigError::MissingConfigValue(k)) => assert_eq!(k, "user.name"),
        _ => panic!("expected a missing value"),
    }
    let other = Config::new(args(&["list", "user.name"])).unwrap();
    assert!(matches!(other.run(&mut ini), Err(TigError::UnsupportedConfigMode)));
    let bad_key = Config::new(args(&["set", "name", "x"])).unwrap();
    match bad_key.run(&mut ini) {
        Err(TigError::UnknownConfigKey(k)) => assert_eq!(k, "name"),
        _ => panic!("expected an unknown key"),
    }
}

#[test]
fn hash_object_command() {
    assert!(matches!(HashObject::target_file(args(&[])), Err(TigError::MissingTargetFile)));
    assert_eq!(HashObject::target_file(args(&["f.txt"])), Ok(String::from("f.txt")));
    let h = HashObject::new(Blob::new(b"abc".to_vec()));
    assert_eq!(h.hash(), "f2ba8f84ab5c1bce84a7b441cb1959cfc7093b7f");
    assert_eq!(
        h.object_location(),
        (String::from("f2"), String::from("ba8f84ab5c1bce84a7b441cb1959cfc7093b7f"))
    );
    assert_eq!(h.blob().hash(), h.hash());
}

#[test]
fn branch_command() {
    let b = Branch::new(args(&["dev"]));
    assert_eq!(b.branch_name(), Some("dev"));
    let branches = args(&["main"]);
    assert_eq!(
        Branch::new_branch_commit(&branches, "dev", Some(String::from("abc"))),
        Ok(String::from("abc"))
    );
    assert_eq!(Branch::new_branch_commit(&branches, "dev", None), Err(TigError::NoCommits));
    assert_eq!(
        Branch::new_branch_commit(&branches, "main", Some(String::from("abc"))),
        Err(TigError::BranchExists(String::from("main")))
    );
    let lines = Branch::list_lines(&args(&["dev", "main"]), "main");
    assert_eq!(lines[0].text, "  dev");
    assert_eq!(lines[0].color, None);
    assert_eq!(lines[1].text, "* main");
    assert_eq!(lines[1].color, Some(Color::Green));
}

fn files(v: &[(&str, &str)]) -> Vec<(String, String)> {
    v.iter().map(|(p, h)| (p.to_string(), h.to_string())).collect()
}

#[test]
fn status_changes() {
    let committed = files(&[("a", "1"), ("b", "2"), ("c", "3")]);
    let working = files(&[("d", "4"), ("b", "9"), ("a", "1")]);
    let r = Status::changes(&committed, &working);
    assert_eq!(r.new_files, vec![String::from("d")]);
    assert_eq!(r.deleted_files, vec![String::from("c")]);
    assert_eq!(r.modified_files, vec![String::from("b")]);
}

#[test]
fn diff_plan_is_sorted() {
    let committed = files(&[("z", "1"), ("b", "2"), ("c", "3")]);
    let working = files(&[("d", "4"), ("b", "9"), ("z", "1")]);
    let p = plan(&committed, &working);
    let paths: Vec<&str> = p.iter().map(|e| e.path.as_str()).collect();
    assert_eq!(paths, vec!["b", "c", "d"]);
    assert_eq!(p[0].old_hash, Some(String::from("2")));
    assert!(p[0].in_working);
    assert_eq!(p[1].old_hash, Some(String::from("3")));
    assert!(!p[1].in_working);
    assert_eq!(p[2].old_hash, None);
    assert!(p[2].in_working);
}

#[test]
fn file_diff_lines() {
    let headers = diff_headers("f.txt");
    assert_eq!(headers[0].text, "--- a/f.txt");
    assert_eq!(headers[1].text, "+++ b/f.txt");
    let lines = file_diff("f.txt", Some(b"a\nb\n"), Some(b"a\nc\n"));
    let texts: Vec<&str> = lines.iter().map(|l| l.text.as_str()).collect();
    assert_eq!(texts, vec![" a", "-b", "+c"]);
    assert_eq!(lines[0].color, None);
    assert_eq!(lines[1].color, Some(Color::Red));
    assert_eq!(lines[2].color, Some(Color::Green));
    let added = file_diff("f", None, Some(b"x"));
    assert_eq!(added[0].text, "+x");
    let deleted = file_diff("f", Some(b"x"), None);
    assert_eq!(deleted[0].text, "-x");
    let binary = file_diff("bin", Some(&[0xff]), Some(b"x"));
    assert_eq!(binary.len(), 1);
    assert_eq!(binary[0].text, "Binary file: bin");
    assert_eq!(file_diff("bin", Some(b"x"), Some(&[0xff]))[0].text, "Binary file: bin");
}

#[test]
fn command_name_dispatch() {
    assert_eq!(parse_command_name("init"), Some(CommandName::Init));
    assert_eq!(parse_command_name(" LOG "), Some(CommandName::Log));
    assert_eq!(parse_command_name("Hash-Object"), Some(CommandName::HashObject));
    assert_eq!(parse_command_name("cat-file"), Some(CommandName::CatFile));
    assert_eq!(parse_command_name("write-tree"), Some(CommandName::WriteTree));
    assert_eq!(parse_command_name("commit-tree"), Some(CommandName::CommitTree));
    assert_eq!(parse_command_name("config"), Some(CommandName::Config));
    assert_eq!(parse_command_name("commit"), Some(CommandName::Commit));
    assert_eq!(parse_command_name("status"), Some(CommandName::Status));
    assert_eq!(parse_command_name("diff"), Some(CommandName::Diff));
    assert_eq!(parse_command_name("branch"), Some(CommandName::Branch));
    assert_eq!(parse_command_name("CHECKOUT"), Some(CommandName::Checkout));
    assert_eq!(parse_command_name("push"), None);
    assert_eq!(parse_command_name("in it"), None);
    assert_eq!(parse_command_name(""), None);
}

#[test]
fn diff_and_status_report_the_same_files() {
    let committed = files(&[("a", "1"), ("b", "2"), ("c", "3"), ("e", "5")]);
    let working = files(&[("a", "1"), ("b", "7"), ("d", "4"), ("e", "5")]);
    let report = Status::changes(&committed, &working);
    let mut reported: Vec<String> = Vec::new();
    reported.extend(report.new_files.iter().cloned());
    reported.extend(report.deleted_files.iter().cloned());
    reported.extend(report.modified_files.iter().cloned());
    reported.sort();
    let planned: Vec<String> = plan(&committed, &working).into_iter().map(|f| f.path).collect();
    assert_eq!(planned, reported);
    assert_eq!(planned, vec![String::from("b"), String::from("c"), String::from("d")]);
}

#[test]
fn init_makes_every_object_directory() {
    let init = Init::new();
    for content in [&b"abc"[..], b"", b"tig"] {
        let hash = Blob::new(content.to_vec()).hash();
        let dir = format!("objects/{}", &hash[..2]);
        assert!(init.paths().iter().any(|p| *p == dir));
    }
}

#[test]
fn command_name_with_kelvin_sign() {
    assert_eq!(parse_command_name("chec\u{212A}out"), Some(CommandName::Checkout));
    assert_eq!(parse_command_name("\u{130}nit"), None);
}

#[test]
fn config_check_comes_first() {
    let bad_key = Config::new(args(&["set", "name", "x"])).unwrap();
    match bad_key.check() {
        Err(TigError::UnknownConfigKey(k)) => assert_eq!(k, "name"),
        _ => panic!("expected an unknown key"),
    }
    let no_value = Config::new(args(&["set", "user.name"])).unwrap();
    assert!(matches!(no_value.check(), Err(TigError::MissingConfigValue(_))));
    let other = Config::new(args(&["list", "nodot"])).unwrap();
    assert!(matches!(other.check(), Err(TigError::UnsupportedConfigMode)));
    let get = Config::new(args(&["GET", "user.name"])).unwrap();
    assert!(get.check().is_ok());
}
