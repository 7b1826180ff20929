//! Blobs: the content of one file.
use vstd::prelude::*;
use vstd::utf8::*;

use crate::error::TigError;
use crate::models::objects::{get_content_from_raw, stored_object_content, tig_object::TigObject};
use crate::utils::text_util::string_from_utf8;

verus! {

/// The content of one file.
pub struct Blob {
    content: Vec<u8>,
}

impl View for Blob {
    type V = Seq<u8>;

    closed spec fn view(&self) -> Seq<u8> {
        self.content@
    }
}

impl Blob {
    /// A blob holding `content`.
    pub fn new(content: Vec<u8>) -> (r: Self)
        ensures
            r@ == content@,
    {
        Self { content }
    }

    /// The blob stored under a hash, from `raw`, the compressed bytes of
    /// its object file (found at `get_object_path(hash)`).
    pub fn from_hash(raw: &[u8]) -> (r: Result<Self, TigError>)
        ensures
            match stored_object_content(raw@) {
                Ok(c) => r matches Ok(b) && b@ == c,
                Err(e) => r matches Err(f) && f == e,
            },
    {
        let content = get_content_from_raw(raw)?;
        Ok(Self::new(content))
    }

    /// The content as text, if it is valid UTF-8.
    pub fn text(&self) -> (r: Result<String, TigError>)
        ensures
            valid_utf8(self@) ==> (r matches Ok(s) && s@ == decode_utf8(self@)),
            !valid_utf8(self@) ==> r == Err::<String, TigError>(TigError::InvalidUtf8),
    {
        match string_from_utf8(self.content.clone()) {
            Some(s) => Ok(s),
            None => Err(TigError::InvalidUtf8),
        }
    }
}

impl TigObject for Blob {
    open spec fn spec_object_type(&self) -> Seq<char> {
        "blob"@
    }

    open spec fn spec_content(&self) -> Seq<u8> {
        self@
    }

    fn object_type(&self) -> (r: &'static str) {
        "blob"
    }

    fn content(&self) -> (r: Vec<u8>) {
        self.content.clone()
    }
}

} // verus!
