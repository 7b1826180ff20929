//! Stored objects: where they live, how they are framed and how their
//! content is read back.
use vstd::prelude::*;
use vstd::string::StringSliceAdditionalSpecFns;
use vstd::utf8::*;

use crate::error::TigError;
use crate::utils::text_util::{
    decimal, index_of, join_path, lemma_decimal_chars, lemma_decimal_digits, lemma_index_of, lemma_index_of_at, path_join,
    split_at_byte,
};
use crate::utils::zlib_util::{decode, zlib_inflate};

pub mod blob;
pub mod commit;
pub mod tig_object;
pub mod tree;

verus! {

/// The bytes of the object type names `blob`, `tree` and `commit`.
pub open spec fn blob_type_bytes() -> Seq<u8> {
    seq![98u8, 108, 111, 98]
}

pub open spec fn tree_type_bytes() -> Seq<u8> {
    seq![116u8, 114, 101, 101]
}

pub open spec fn commit_type_bytes() -> Seq<u8> {
    seq![99u8, 111, 109, 109, 105, 116]
}

/// Whether `s` starts with `p`.
pub open spec fn has_prefix(s: Seq<u8>, p: Seq<u8>) -> bool {
    p.len() <= s.len() && s.take(p.len() as int) == p
}

/// Whether decompressed object data starts with a supported object type.
pub open spec fn is_object_data(d: Seq<u8>) -> bool {
    has_prefix(d, blob_type_bytes()) || has_prefix(d, tree_type_bytes()) || has_prefix(
        d,
        commit_type_bytes(),
    )
}

/// The content of decompressed object data: what follows the first NUL byte.
pub open spec fn object_data_content(d: Seq<u8>) -> Result<Seq<u8>, TigError> {
    if !is_object_data(d) {
        Err(TigError::NotAnObject)
    } else {
        match index_of(d, 0u8) {
            Some(i) => Ok(d.skip(i + 1)),
            None => Err(TigError::MissingNul),
        }
    }
}

/// The content of a stored (compressed) object.
pub open spec fn stored_object_content(raw: Seq<u8>) -> Result<Seq<u8>, TigError> {
    match zlib_inflate(raw) {
        Some(d) => object_data_content(d),
        None => Err(TigError::Decompress),
    }
}

/// An object as it is stored before compression: its type, a space, the
/// decimal length of its content, a NUL byte and the content.
pub open spec fn object_frame(object_type: Seq<char>, content: Seq<u8>) -> Seq<u8> {
    encode_utf8(object_type) + seq![32u8] + decimal(content.len()) + seq![0u8] + content
}

/// The path of the object file for `hash`: the objects directory, then a
/// directory named by the first two bytes of `hash`, then the rest.
pub fn get_object_path(hash: &str) -> (r: String)
    requires
        is_char_boundary(hash.spec_bytes(), 2),
    ensures
        r@ == path_join(
            path_join("./.tig/objects"@, split_at_byte(hash@, 2).0),
            split_at_byte(hash@, 2).1,
        ),
{
    let (directory_name, file_name) = hash.split_at(2);
    proof {
        encode_utf8_decode_utf8(directory_name@);
        encode_utf8_decode_utf8(file_name@);
    }
    let dir = join_path("./.tig/objects", directory_name);
    join_path(dir.as_str(), file_name)
}

/// Whether `content` starts with `prefix`.
fn starts_with(content: &[u8], prefix: &[u8]) -> (r: bool)
    ensures
        r == has_prefix(content@, prefix@),
{
    if prefix.len() > content.len() {
        return false;
    }
    let mut i: usize = 0;
    while i < prefix.len()
        invariant
            prefix@.len() <= content@.len(),
            i <= prefix@.len(),
            forall|k: int| 0 <= k < i ==> content@[k] == prefix@[k],
        decreases prefix.len() - i,
    {
        if content[i] != prefix[i] {
            assert(content@.take(prefix@.len() as int)[i as int] != prefix@[i as int]);
            return false;
        }
        i = i + 1;
    }
    assert(content@.take(prefix@.len() as int) =~= prefix@);
    true
}

/// Whether `content` starts with a supported object type.
pub fn is_valid_object_file(content: &[u8]) -> (r: bool)
    ensures
        r == is_object_data(content@),
{
    let blob: Vec<u8> = vec![98, 108, 111, 98];
    let tree: Vec<u8> = vec![116, 114, 101, 101];
    let commit: Vec<u8> = vec![99, 111, 109, 109, 105, 116];
    assert(blob@ =~= blob_type_bytes());
    assert(tree@ =~= tree_type_bytes());
    assert(commit@ =~= commit_type_bytes());
    starts_with(content, blob.as_slice()) || starts_with(content, tree.as_slice()) || starts_with(
        content,
        commit.as_slice(),
    )
}

/// The content of a stored object: it is decompressed, its type checked, and
/// everything after the first NUL byte returned.
pub fn get_content_from_raw(raw: &[u8]) -> (r: Result<Vec<u8>, TigError>)
    ensures
        match stored_object_content(raw@) {
            Ok(c) => r matches Ok(v) && v@ == c,
            Err(e) => r == Err::<Vec<u8>, TigError>(e),
        },
{
    let raw = decode(raw)?;
    if !is_valid_object_file(raw.as_slice()) {
        return Err(TigError::NotAnObject);
    }
    let pos = match crate::utils::text_util::find_byte(raw.as_slice(), 0, 0) {
        Some(p) => p,
        None => {
            assert(raw@.skip(0) =~= raw@);
            return Err(TigError::MissingNul);
        },
    };
    assert(raw@.skip(0) =~= raw@);
    proof {
        lemma_index_of(raw@, 0u8);
    }
    let mut content: Vec<u8> = Vec::new();
    let mut i = pos + 1;
    while i < raw.len()
        invariant
            pos < raw@.len(),
            pos + 1 <= i <= raw@.len(),
            content@ == raw@.subrange(pos + 1, i as int),
        decreases raw.len() - i,
    {
        content.push(raw[i]);
        i = i + 1;
        assert(content@ =~= raw@.subrange(pos + 1, i as int));
    }
    assert(content@ =~= raw@.skip(pos + 1));
    Ok(content)
}


/// The object type names that can be stored.
pub open spec fn is_object_type(t: Seq<char>) -> bool {
    t == "blob"@ || t == "tree"@ || t == "commit"@
}

/// Reading back a stored object gives the content that was stored: when
/// the stored bytes decompress to the framed object, its content is what
/// `get_content_from_raw` returns.
pub proof fn law_stored_object_content(t: Seq<char>, content: Seq<u8>, stored: Seq<u8>)
    requires
        is_object_type(t),
        zlib_inflate(stored) == Some(object_frame(t, content)),
    ensures
        stored_object_content(stored) == Ok::<Seq<u8>, TigError>(content),
{
    reveal_strlit("blob");
    reveal_strlit("tree");
    reveal_strlit("commit");
    let tb = encode_utf8(t);
    assert(is_ascii_chars(t));
    is_ascii_chars_encode_utf8(t);
    if t == "blob"@ {
        assert(tb =~= blob_type_bytes());
    } else if t == "tree"@ {
        assert(tb =~= tree_type_bytes());
    } else {
        assert(tb =~= commit_type_bytes());
    }
    assert forall|k: int| 0 <= k < tb.len() implies tb[k] != 0u8 by {
        if t == "blob"@ {
            assert(tb =~= blob_type_bytes());
        } else if t == "tree"@ {
            assert(tb =~= tree_type_bytes());
        } else {
            assert(tb =~= commit_type_bytes());
        }
    }
    lemma_decimal_digits(content.len());
    let digits = decimal(content.len());
    lemma_decimal_chars(content.len());
    let d = object_frame(t, content);
    let h = tb + seq![32u8] + digits;
    assert(d =~= h + seq![0u8] + content);
    assert(d.take(tb.len() as int) =~= tb);
    assert forall|k: int| 0 <= k < h.len() implies d[k] != 0u8 by {
        assert(d[k] == h[k]);
        if k < tb.len() {
            assert(h[k] == tb[k]);
        } else if k > tb.len() {
            assert(h[k] == digits[k - tb.len() - 1]);
        }
    }
    lemma_index_of_at(d, 0u8, h.len() as int);
    assert(d.skip(h.len() as int + 1) =~= content);
}

} // verus!
