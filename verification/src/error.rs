use vstd::prelude::*;

verus! {

/// The ways in which an operation of this library can fail.
#[derive(Debug, PartialEq, Eq)]
pub enum TigError {
    /// The stored object data is not a valid zlib stream.
    Decompress,
    /// The object does not start with a supported object type.
    NotAnObject,
    /// The object has no NUL byte after its header.
    MissingNul,
    /// Text that must be UTF-8 is not.
    InvalidUtf8,
    /// A commit object has no empty line between its headers and its message.
    MissingMessageSeparator,
    /// A commit object has no `tree` header.
    MissingTree,
    /// A commit object has no `author` header.
    MissingAuthor,
    /// A tree entry has no space after its mode.
    TreeMissingSpace,
    /// A tree entry has no NUL byte after its name.
    TreeMissingNul,
    /// An object hash is not hexadecimal.
    InvalidHex,
    /// An object hash is not 20 bytes long.
    InvalidHashLength,
    /// The tree that a commit should point to does not exist.
    InvalidTreeHash,
    /// The system clock is set before the Unix epoch.
    Clock,
    /// A configuration key has no `section.` part.
    UnknownConfigKey(String),
    /// The user name is not configured.
    AuthorNotSet,
    /// The user e-mail is not configured.
    EmailNotSet,
    /// The HEAD file does not hold a `ref: ` line.
    InvalidHead,
    /// The reference in the HEAD file has no `/`.
    InvalidHeadRef,
    /// The named branch does not exist.
    NoSuchBranch(String),
    /// A branch of this name already exists.
    BranchExists(String),
    /// There is no commit yet.
    NoCommits,
    /// `cat-file` was given no hash.
    MissingHash,
    /// `cat-file` was given a hash that is not 40 bytes long.
    InvalidHashFormat,
    /// `checkout` was given no branch name.
    MissingBranchName,
    /// `commit` was not given `-m` first.
    MissingMessageFlag,
    /// A commit message is missing or blank.
    EmptyMessage,
    /// `commit-tree` was given no tree hash.
    MissingTreeHashArgument,
    /// `commit-tree` was given an option other than `-m` and `-p`.
    UnsupportedOption(String),
    /// `commit-tree` was given no `-m`.
    MissingMessage,
    /// `config` was given no operation.
    MissingConfigMode,
    /// `config` was given no key.
    MissingConfigKey,
    /// `config set` was given no value, or a blank one, for the key.
    MissingConfigValue(String),
    /// `config` was given an operation other than `get` and `set`.
    UnsupportedConfigMode,
    /// `hash-object` was given no file.
    MissingTargetFile,
}

} // verus!
