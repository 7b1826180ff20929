//! Blob framing.
use vstd::prelude::*;

use crate::models::objects::blob::Blob;
use crate::models::objects::object_frame;
use crate::models::objects::tig_object::TigObject;
use crate::utils::text_util::push_decimal;

verus! {

/// `content` framed as a stored blob: `blob`, a space, the decimal length of
/// `content`, a NUL byte and `content`.
pub fn get_blob(content: &[u8]) -> (r: Vec<u8>)
    ensures
        r@ == object_frame("blob"@, content@),
{
    let mut blob: Vec<u8> = Vec::new();
    blob.extend_from_slice("blob".as_bytes());
    blob.push(32);
    push_decimal(content.len() as u64, &mut blob);
    blob.push(0);
    blob.extend_from_slice(content);
    blob
}

/// A blob's stored frame is the frame of its content that `get_blob` gives.
pub proof fn law_blob_frame(b: Blob)
    ensures
        object_frame(b.spec_object_type(), b.spec_content()) == object_frame("blob"@, b@),
{
}

} // verus!
