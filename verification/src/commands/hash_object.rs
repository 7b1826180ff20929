//! `tig hash-object <file>`: stores a file as a blob and prints its hash.
use vstd::prelude::*;

use crate::commands::tig_command::TigCommand;
use crate::error::TigError;
use crate::models::objects::blob::Blob;
use crate::models::objects::tig_object::{object_hash, TigObject};

verus! {

/// The command that stores a blob.
pub struct HashObject {
    blob: Blob,
}

impl View for HashObject {
    type V = Seq<u8>;

    closed spec fn view(&self) -> Seq<u8> {
        self.blob@
    }
}

impl HashObject {
    /// The file to store, from the arguments that follow the command's name.
    pub fn target_file(args: Vec<String>) -> (r: Result<String, TigError>)
        ensures
            args@.len() == 0 ==> r == Err::<String, TigError>(TigError::MissingTargetFile),
            args@.len() > 0 ==> (r matches Ok(s) && s@ == args@[0]@),
    {
        let mut args = args;
        if args.len() == 0 {
            return Err(TigError::MissingTargetFile);
        }
        Ok(args.remove(0))
    }

    /// The command, storing `blob`, the content of the target file.
    pub fn new(blob: Blob) -> (r: Self)
        ensures
            r@ == blob@,
    {
        Self { blob }
    }

    /// The blob to store.
    pub fn blob(&self) -> (r: &Blob)
        ensures
            r@ == self@,
    {
        &self.blob
    }

    /// The hash of the blob.
    pub fn hash(&self) -> (r: String)
        ensures
            r@ == object_hash("blob"@, self@),
    {
        self.blob.hash()
    }

    /// Where the blob is stored: the directory named by the first two
    /// characters of its hash, and the file named by the rest.
    pub fn object_location(&self) -> (r: (String, String))
        ensures
            r.0@ == object_hash("blob"@, self@).take(2),
            r.1@ == object_hash("blob"@, self@).skip(2),
    {
        let hash = self.blob.hash();
        let h = hash.as_str();
        let directory_name = String::from_str(h.substring_char(0, 2));
        let file_name = String::from_str(h.substring_char(2, 40));
        assert(h@.subrange(0, 2) =~= h@.take(2));
        assert(h@.subrange(2, 40) =~= h@.skip(2));
        (directory_name, file_name)
    }
}

impl TigCommand for HashObject {
    fn get_name(&self) -> (r: &'static str)
        ensures
            r@ == "hash-object"@,
    {
        "hash-object"
    }
}

} // verus!
