//! `tig init`: creates the repository directory `.tig`.
use vstd::prelude::*;

use vstd::utf8::*;

use crate::commands::tig_command::TigCommand;
use crate::utils::hash_util::{hex_digit, hex_lower};
use crate::utils::text_util::string_from_utf8;

verus! {

/// The directories of a new repository, below `.tig`: `objects`,
/// `refs/heads`, `refs/tags`, and one directory `objects/<xx>` for each
/// byte `xx` in lowercase hexadecimal.
pub open spec fn init_paths() -> Seq<Seq<char>> {
    seq!["objects"@, "refs/heads"@, "refs/tags"@] + Seq::new(
        256,
        |i: int| "objects/"@ + hex_lower(seq![i as u8]),
    )
}

/// The characters of each string.
pub open spec fn strings_view(v: Seq<String>) -> Seq<Seq<char>> {
    v.map_values(|s: String| s@)
}

/// The command that creates a repository.
pub struct Init {
    paths: Vec<String>,
}

impl View for Init {
    type V = Seq<Seq<char>>;

    closed spec fn view(&self) -> Seq<Seq<char>> {
        strings_view(self.paths@)
    }
}

/// The byte of the lowercase hexadecimal digit for `v`.
fn hex_digit_byte(v: u8) -> (r: u8)
    requires
        v < 16,
    ensures
        r as char == hex_digit(v as int),
        r < 128,
{
    if v < 10 {
        48 + v
    } else {
        87 + v
    }
}

/// The byte `b` in two lowercase hexadecimal digits.
fn hex_byte(b: u8) -> (r: String)
    ensures
        r@ == hex_lower(seq![b]),
{
    let hi = hex_digit_byte(b / 16);
    let lo = hex_digit_byte(b % 16);
    let bytes: Vec<u8> = vec![hi, lo];
    let ghost cs = seq![hi as char, lo as char];
    proof {
        assert(is_ascii_chars(cs));
        is_ascii_chars_encode_utf8(cs);
        assert(encode_utf8(cs) =~= bytes@);
        encode_utf8_valid_utf8(cs);
        encode_utf8_decode_utf8(cs);
        assert(cs =~= hex_lower(seq![b]));
    }
    match string_from_utf8(bytes) {
        Some(s) => s,
        None => {
            assert(false);
            String::new()
        },
    }
}

impl Init {
    /// The command, with the directories to create.
    pub fn new() -> (r: Self)
        ensures
            r@ == init_paths(),
    {
        let mut paths: Vec<String> = Vec::new();
        paths.push(String::from_str("objects"));
        paths.push(String::from_str("refs/heads"));
        paths.push(String::from_str("refs/tags"));
        assert(strings_view(paths@) =~= seq!["objects"@, "refs/heads"@, "refs/tags"@]);
        let mut i: u32 = 0;
        while i < 256
            invariant
                i <= 256,
                strings_view(paths@) == init_paths().take(3 + i),
            decreases 256 - i,
        {
            let ghost before = strings_view(paths@);
            let mut p = String::from_str("objects/");
            let h = hex_byte(i as u8);
            p.append(h.as_str());
            paths.push(p);
            assert(init_paths()[3 + i] == "objects/"@ + hex_lower(seq![i as u8]));
            assert(strings_view(paths@) =~= before.push(p@));
            assert(init_paths().take(3 + i + 1) =~= init_paths().take(3 + i).push(
                init_paths()[3 + i],
            ));
            i = i + 1;
        }
        assert(init_paths().take(259) =~= init_paths());
        Self { paths }
    }

    /// The directories to create below `.tig`.
    pub fn paths(&self) -> (r: &[String])
        ensures
            strings_view(r@) == self@,
    {
        self.paths.as_slice()
    }
}

impl TigCommand for Init {
    fn get_name(&self) -> (r: &'static str)
        ensures
            r@ == "init"@,
    {
        "init"
    }
}

/// A new repository has the directory of every object: for any non-empty
/// digest, `objects/` followed by the first two hexadecimal digits of its
/// hash is among the directories that `init` creates.
pub proof fn law_object_directories_exist(digest: Seq<u8>)
    requires
        digest.len() > 0,
    ensures
        exists|k: int|
            0 <= k < init_paths().len() && #[trigger] init_paths()[k] == "objects/"@ + hex_lower(
                digest,
            ).take(2),
{
    let b = digest[0];
    assert(hex_lower(digest).take(2) =~= hex_lower(seq![b]));
    assert(init_paths()[3 + b] == "objects/"@ + hex_lower(seq![(3 + b - 3) as u8]));
    assert(((3 + b - 3) as u8) == b);
}

} // verus!
