use tig::error::TigError;
use tig::models::objects::blob::Blob;
use tig::models::objects::commit::Commit;
use tig::models::objects::tig_object::TigObject;
use tig::models::objects::tree::{Tree, TreeEntry, TreeItem};
use tig::models::objects::{get_content_from_raw, get_object_path, is_valid_object_file};
use tig::utils::blob_util::get_blob;
use tig::utils::object_util::get_directory_name_and_file_name;
use tig::utils::zlib_util::encode;

const SOME_HASH: &str = "a9993e364706816aba3e25717850c26c9cd0d89d";

#[test]
fn blob_hash_is_git_hash() {
    let blob = Blob::new(b"abc".to_vec());
    assert_eq!(blob.hash(), "f2ba8f84ab5c1bce84a7b441cb1959cfc7093b7f");
    let empty = Blob::new(Vec::new());
    assert_eq!(empty.hash(), "e69de29bb2d1d6434b8b29ae775ad8c2e48c5391");
}

#[test]
fn empty_tree_hash_is_git_hash() {
    assert_eq!(Tree::new(Vec::new()).hash(), "4b825dc642cb6eb9a060e54bf8d69288fbee4904");
}

#[test]
fn tree_uses_git_order_and_modes() {
    let tree = Tree::new(vec![
        TreeEntry::new(String::from("40000"), String::from("a"), bytes20(1)),
        TreeEntry::new(String::from("100644"), String::from("a.txt"), bytes20(2)),
        TreeEntry::new(String::from("100644"), String::from("a-b"), bytes20(3)),
    ]);
    let mut expected = b"100644 a-b\0".to_vec();
    expected.extend_from_slice(&bytes20(3));
    expected.extend_from_slice(b"100644 a.txt\0");
    expected.extend_from_slice(&bytes20(2));
    expected.extend_from_slice(b"40000 a\0");
    expected.extend_from_slice(&bytes20(1));
    assert_eq!(tree.content(), expected);
    let mut raw = format!("tree {}\0", expected.len()).into_bytes();
    raw.extend_from_slice(&expected);
    assert_eq!(tree.hash(), sha1_smol::Sha1::from(&raw).digest().to_string());
}

#[test]
fn blob_raw_is_framed() {
    let blob = Blob::new(b"hello".to_vec());
    assert_eq!(blob.object_type(), "blob");
    assert_eq!(blob.raw(), b"blob 5\0hello".to_vec());
    assert_eq!(get_blob(b"hello"), b"blob 5\0hello".to_vec());
    assert_eq!(get_blob(b""), b"blob 0\0".to_vec());
}

#[test]
fn blob_text() {
    assert_eq!(Blob::new(b"text".to_vec()).text(), Ok(String::from("text")));
    assert_eq!(Blob::new(vec![0xff, 0xfe]).text(), Err(TigError::InvalidUtf8));
}

#[test]
fn stored_blob_reads_back() {
    let blob = Blob::new(b"some content\nwith lines\n".to_vec());
    let stored = encode(&blob.raw()).unwrap();
    assert_eq!(get_content_from_raw(&stored).unwrap(), b"some content\nwith lines\n".to_vec());
    let back = Blob::from_hash(&stored).unwrap();
    assert_eq!(back.hash(), blob.hash());
}

#[test]
fn content_from_raw_errors() {
    let not_object = encode(b"pear 3\0abc").unwrap();
    assert_eq!(get_content_from_raw(&not_object), Err(TigError::NotAnObject));
    let no_nul = encode(b"blob 3abc").unwrap();
    assert_eq!(get_content_from_raw(&no_nul), Err(TigError::MissingNul));
    assert_eq!(get_content_from_raw(b"plain"), Err(TigError::Decompress));
}

#[test]
fn valid_object_types() {
    assert!(is_valid_object_file(b"blob 1\0a"));
    assert!(is_valid_object_file(b"tree 0\0"));
    assert!(is_valid_object_file(b"commit 0\0"));
    assert!(!is_valid_object_file(b"tag 0\0"));
    assert!(!is_valid_object_file(b"blo"));
}

#[test]
fn object_path_splits_the_hash() {
    assert_eq!(
        get_object_path(SOME_HASH),
        "./.tig/objects/a9/993e364706816aba3e25717850c26c9cd0d89d"
    );
    assert_eq!(
        get_directory_name_and_file_name(SOME_HASH),
        ("a9", "993e364706816aba3e25717850c26c9cd0d89d")
    );
}

fn bytes20(v: u8) -> [u8; 20] {
    [v; 20]
}

#[test]
fn tree_sorts_entries_and_round_trips() {
    let entries = vec![
        TreeEntry::new(String::from("100644"), String::from("b.txt"), bytes20(1)),
        TreeEntry::new(String::from("40000"), String::from("a"), bytes20(2)),
    ];
    let tree = Tree::new(entries);
    let mut expected = b"40000 a\0".to_vec();
    expected.extend_from_slice(&bytes20(2));
    expected.extend_from_slice(b"100644 b.txt\0");
    expected.extend_from_slice(&bytes20(1));
    assert_eq!(tree.content(), expected);
    assert_eq!(tree.object_type(), "tree");

    assert!(!Tree::entries_truncated(&expected));
    let back = Tree::parse(expected.clone()).unwrap();
    assert_eq!(back.content(), expected);
    assert_eq!(back.hash(), tree.hash());
}

#[test]
fn tree_expand_lists_files_and_subtrees() {
    let entries = vec![
        TreeEntry::new(String::from("100644"), String::from("b.txt"), bytes20(0xab)),
        TreeEntry::new(String::from("40000"), String::from("src"), bytes20(0x01)),
    ];
    let tree = Tree::new(entries);
    let top = tree.expand(None);
    assert_eq!(top.len(), 2);
    match &top[0] {
        TreeItem::File(p, h) => {
            assert_eq!(p, "b.txt");
            assert_eq!(h, &"ab".repeat(20));
        }
        _ => panic!("expected a file"),
    }
    match &top[1] {
        TreeItem::Dir(p, h) => {
            assert_eq!(p, "src");
            assert_eq!(h, &"01".repeat(20));
        }
        _ => panic!("expected a subtree"),
    }
    let nested = tree.expand(Some("x"));
    match &nested[0] {
        TreeItem::File(p, _) => assert_eq!(p, "x/b.txt"),
        _ => panic!("expected a file"),
    }
    match &nested[1] {
        TreeItem::Dir(p, _) => assert_eq!(p, "x/src"),
        _ => panic!("expected a subtree"),
    }
}

#[test]
fn tree_expand_stops_at_unknown_mode() {
    let entries = vec![
        TreeEntry::new(String::from("120000"), String::from("link"), bytes20(3)),
        TreeEntry::new(String::from("100644"), String::from("z"), bytes20(4)),
    ];
    let tree = Tree::new(entries);
    let items = tree.expand(None);
    assert_eq!(items.len(), 1);
    assert!(matches!(items[0], TreeItem::Invalid));
}

#[test]
fn tree_parse_errors() {
    assert!(matches!(Tree::parse(b"100644".to_vec()), Err(TigError::TreeMissingSpace)));
    assert!(matches!(Tree::parse(b"100644 name".to_vec()), Err(TigError::TreeMissingNul)));
    assert!(Tree::entries_truncated(b"100644 name\0short"));
    assert!(Tree::parse(Vec::new()).is_ok());
}

#[test]
fn tree_entry_for_object() {
    let e = TreeEntry::for_object(String::from("f"), false, SOME_HASH).unwrap();
    let tree = Tree::new(vec![e]);
    let mut expected = b"100644 f\0".to_vec();
    expected.extend_from_slice(&hex::decode(SOME_HASH).unwrap());
    assert_eq!(tree.content(), expected);
    assert!(matches!(
        TreeEntry::for_object(String::from("f"), true, "zz"),
        Err(TigError::InvalidHex)
    ));
    assert!(matches!(
        TreeEntry::for_object(String::from("f"), true, "abcd"),
        Err(TigError::InvalidHashLength)
    ));
}

const COMMIT_TEXT: &str = "tree 1111111111111111111111111111111111111111\nparent 2222222222222222222222222222222222222222\nauthor Ann <ann@example.com> 1700000000 +0800\ncommitter Ann <ann@example.com> 1700000000 +0800\n\nfirst line\nsecond line";

#[test]
fn commit_parse_and_content_round_trip() {
    let c = Commit::parse(COMMIT_TEXT.as_bytes()).unwrap();
    assert_eq!(c.tree_hash(), "1111111111111111111111111111111111111111");
    assert_eq!(c.parent_hash(), Some("2222222222222222222222222222222222222222"));
    assert_eq!(c.object_type(), "commit");
    assert_eq!(c.content(), COMMIT_TEXT.as_bytes().to_vec());
    let stored = encode(&c.raw()).unwrap();
    let back = Commit::from_hash(&stored).unwrap();
    assert_eq!(back.content(), COMMIT_TEXT.as_bytes().to_vec());
}

#[test]
fn commit_print_text() {
    let c = Commit::parse(COMMIT_TEXT.as_bytes()).unwrap();
    let mut raw = format!("commit {}\0", COMMIT_TEXT.len()).into_bytes();
    raw.extend_from_slice(COMMIT_TEXT.as_bytes());
    let hash = sha1_smol::Sha1::from(&raw).digest().to_string();
    assert_eq!(c.hash(), hash);
    assert_eq!(
        c.get_print_text(),
        format!("commit {}\n\tfirst line\nsecond line\n", &hash[..7])
    );
}

#[test]
fn commit_without_parent() {
    let text = "tree abc\nauthor me\ncommitter me\n\nmsg";
    let c = Commit::parse(text.as_bytes()).unwrap();
    assert_eq!(c.parent_hash(), None);
    assert_eq!(c.tree_hash(), "abc");
    assert_eq!(c.content(), text.as_bytes().to_vec());
}

#[test]
fn commit_last_header_wins() {
    let text = "tree one\ntree two\nauthor me\n\nmsg";
    let c = Commit::parse(text.as_bytes()).unwrap();
    assert_eq!(c.tree_hash(), "two");
}

#[test]
fn commit_parse_errors() {
    assert!(matches!(Commit::parse(b"tree a\nauthor b"), Err(TigError::MissingMessageSeparator)));
    assert!(matches!(Commit::parse(b"author b\n\nmsg"), Err(TigError::MissingTree)));
    assert!(matches!(Commit::parse(b"tree a\n\nmsg"), Err(TigError::MissingAuthor)));
    assert!(matches!(Commit::parse(&[0xff, 0x0a, 0x0a]), Err(TigError::InvalidUtf8)));
}

#[test]
fn tree_hash_does_not_depend_on_listing_order() {
    let one = Tree::new(vec![
        TreeEntry::new(String::from("100644"), String::from("b"), bytes20(1)),
        TreeEntry::new(String::from("100644"), String::from("a"), bytes20(2)),
        TreeEntry::new(String::from("40000"), String::from("c"), bytes20(3)),
    ]);
    let two = Tree::new(vec![
        TreeEntry::new(String::from("40000"), String::from("c"), bytes20(3)),
        TreeEntry::new(String::from("100644"), String::from("a"), bytes20(2)),
        TreeEntry::new(String::from("100644"), String::from("b"), bytes20(1)),
    ]);
    assert_eq!(one.content(), two.content());
    assert_eq!(one.hash(), two.hash());
}

#[test]
fn tree_from_stored_bytes() {
    let tree = Tree::new(vec![TreeEntry::new(String::from("100644"), String::from("f"), bytes20(7))]);
    let stored = encode(&tree.raw()).unwrap();
    let back = Tree::from_hash(&stored).unwrap();
    assert_eq!(back.hash(), tree.hash());
    assert!(matches!(Tree::from_hash_checked(&stored), Some(Ok(_))));
    let truncated = encode(b"tree 9\0100644 f\0ab").unwrap();
    assert!(Tree::from_hash_checked(&truncated).is_none());
    assert!(matches!(Tree::from_hash_checked(b"junk"), Some(Err(TigError::Decompress))));
}

#[test]
fn commit_with_time_author_line() {
    let c = Commit::with_time(
        String::from("t"),
        None,
        String::from("m"),
        "Ann",
        "ann@example.com",
        1700000000,
        "+0800",
    );
    assert_eq!(
        String::from_utf8(c.content()).unwrap(),
        "tree t\nauthor Ann <ann@example.com> 1700000000 +0800\ncommitter Ann <ann@example.com> 1700000000 +0800\n\nm"
    );
}
