//! What every stored object offers: its type, its content, its hash and the
//! framed form in which it is stored.
use vstd::prelude::*;

use crate::models::objects::object_frame;
use crate::utils::hash_util::{hex_lower, sha1_digest, sha1_hexdigest};
use crate::utils::text_util::push_decimal;

verus! {

/// The hash of an object of type `object_type` with content `content`, as
/// git computes it: the SHA-1 digest of its frame `<type> <len>\0<content>`,
/// in lowercase hexadecimal.
pub open spec fn object_hash(object_type: Seq<char>, content: Seq<u8>) -> Seq<char> {
    hex_lower(sha1_digest(object_frame(object_type, content)))
}

/// A blob, tree or commit.
pub trait TigObject {
    /// The name of the object's type.
    spec fn spec_object_type(&self) -> Seq<char>;

    /// The object's content.
    spec fn spec_content(&self) -> Seq<u8>;

    /// The name of the object's type.
    fn object_type(&self) -> (r: &'static str)
        ensures
            r@ == self.spec_object_type(),
    ;

    /// The object's content.
    fn content(&self) -> (r: Vec<u8>)
        ensures
            r@ == self.spec_content(),
    ;

    /// The hash of the object, as git computes it: the SHA-1 digest of the
    /// object as it is stored (its frame), in lowercase hexadecimal.
    fn hash(&self) -> (r: String)
        ensures
            r@ == object_hash(self.spec_object_type(), self.spec_content()),
            r@.len() == 40,
    {
        let raw = self.raw();
        sha1_hexdigest(raw.as_slice())
    }

    /// The object as it is stored, before compression.
    fn raw(&self) -> (r: Vec<u8>)
        ensures
            r@ == object_frame(self.spec_object_type(), self.spec_content()),
    {
        let content = self.content();
        let object_type = self.object_type();
        let mut raw: Vec<u8> = Vec::new();
        raw.extend_from_slice(object_type.as_bytes());
        raw.push(32);
        push_decimal(content.len() as u64, &mut raw);
        raw.push(0);
        raw.extend_from_slice(content.as_slice());
        raw
    }
}

} // verus!
