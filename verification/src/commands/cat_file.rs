//! `tig cat-file <hash>`: prints the content of a stored object.
use vstd::prelude::*;
use vstd::utf8::*;

use crate::commands::tig_command::TigCommand;
use crate::error::TigError;
use crate::models::objects::{get_content_from_raw, stored_object_content};
use crate::utils::text_util::string_from_utf8;

verus! {

/// The command that prints an object.
pub struct CatFile {
    hash: String,
}

impl View for CatFile {
    type V = Seq<char>;

    closed spec fn view(&self) -> Seq<char> {
        self.hash@
    }
}

impl CatFile {
    /// The command, with the arguments that follow its name: the hash of the
    /// object, 40 bytes long.
    pub fn new(args: Vec<String>) -> (r: Result<Self, TigError>)
        ensures
            args@.len() == 0 ==> r == Err::<Self, TigError>(TigError::MissingHash),
            args@.len() > 0 && encode_utf8(args@[0]@).len() != 40 ==> r == Err::<Self, TigError>(
                TigError::InvalidHashFormat,
            ),
            args@.len() > 0 && encode_utf8(args@[0]@).len() == 40 ==> (r matches Ok(c) && c@
                == args@[0]@),
    {
        let mut args = args;
        if args.len() == 0 {
            return Err(TigError::MissingHash);
        }
        let hash = args.remove(0);
        if hash.as_str().as_bytes().len() != 40 {
            return Err(TigError::InvalidHashFormat);
        }
        Ok(Self { hash })
    }

    /// The hash of the object to print.
    pub fn hash(&self) -> (r: &str)
        ensures
            r@ == self@,
    {
        self.hash.as_str()
    }

    /// The text to print for the object stored as `stored`: its content,
    /// which must be UTF-8.
    pub fn content_text(stored: &[u8]) -> (r: Result<String, TigError>)
        ensures
            match stored_object_content(stored@) {
                Ok(c) => if valid_utf8(c) {
                    r matches Ok(s) && s@ == decode_utf8(c)
                } else {
                    r == Err::<String, TigError>(TigError::InvalidUtf8)
                },
                Err(e) => r == Err::<String, TigError>(e),
            },
    {
        let content = get_content_from_raw(stored)?;
        match string_from_utf8(content) {
            Some(s) => Ok(s),
            None => Err(TigError::InvalidUtf8),
        }
    }
}

impl TigCommand for CatFile {
    fn get_name(&self) -> (r: &'static str)
        ensures
            r@ == "cat-file"@,
    {
        "cat-file"
    }
}

} // verus!
