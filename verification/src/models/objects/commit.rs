//! Commits: a tree, an optional parent commit, an author and a message.
use ini::Ini;
use vstd::prelude::*;
use vstd::utf8::*;

use crate::error::TigError;
use crate::models::objects::tig_object::{object_hash, TigObject};
use crate::models::objects::{get_content_from_raw, stored_object_content};
use crate::utils::config_util::{config_lookup, get_author, get_email, ini_entries};
use crate::utils::text_util::{
    chars_of, decimal_chars, decimal_string, lemma_index_of_at,
    lemma_split_lines_cons, lemma_split_lines_single, split_lines, str_from_utf8,
    strip_cr, strip_prefix, strip_prefix_spec, strs_view, text_lines, trim, trimmed,
};

verus! {

/// What a commit holds.
pub struct CommitView {
    pub author: Seq<char>,
    pub tree_hash: Seq<char>,
    pub parent_hash: Option<Seq<char>>,
    pub message: Seq<char>,
}

/// A commit of a tree.
pub struct Commit {
    author: String,
    tree_hash: String,
    parent_hash: Option<String>,
    message: String,
}

impl View for Commit {
    type V = CommitView;

    closed spec fn view(&self) -> CommitView {
        CommitView {
            author: self.author@,
            tree_hash: self.tree_hash@,
            parent_hash: match self.parent_hash {
                Some(p) => Some(p@),
                None => None,
            },
            message: self.message@,
        }
    }
}

/// The `parent` header of a commit: present for a parent hash that is not
/// blank.
pub open spec fn parent_header(parent_hash: Option<Seq<char>>) -> Seq<char> {
    match parent_hash {
        Some(p) => if trimmed(p).len() != 0 {
            "parent "@ + p + "\n"@
        } else {
            Seq::empty()
        },
        None => Seq::empty(),
    }
}

/// The header lines of a commit, without the line break after the last.
pub open spec fn commit_headers(c: CommitView) -> Seq<char> {
    "tree "@ + c.tree_hash + "\n"@ + parent_header(c.parent_hash) + "author "@ + c.author
        + "\ncommitter "@ + c.author
}

/// The text of a commit: its headers, an empty line and its message.
pub open spec fn commit_text(c: CommitView) -> Seq<char> {
    commit_headers(c) + "\n\n"@ + c.message
}

/// The position of the first empty line break (`"\n\n"`) in `t`.
pub open spec fn blank_line_index(t: Seq<char>) -> Option<int>
    decreases t.len(),
{
    if t.len() < 2 {
        None
    } else if t[0] == '\n' && t[1] == '\n' {
        Some(0)
    } else {
        match blank_line_index(t.drop_first()) {
            Some(i) => Some(i + 1),
            None => None,
        }
    }
}

/// The value of the last of `lines` that starts with `key`.
pub open spec fn last_header(lines: Seq<Seq<char>>, key: Seq<char>) -> Option<Seq<char>>
    decreases lines.len(),
{
    if lines.len() == 0 {
        None
    } else {
        match strip_prefix_spec(lines.last(), key) {
            Some(v) => Some(v),
            None => last_header(lines.drop_last(), key),
        }
    }
}

/// The commit that the text `t` describes.
pub open spec fn parse_commit_text(t: Seq<char>) -> Result<CommitView, TigError> {
    match blank_line_index(t) {
        None => Err(TigError::MissingMessageSeparator),
        Some(i) => {
            let lines = split_lines(t.take(i));
            match last_header(lines, "tree "@) {
                None => Err(TigError::MissingTree),
                Some(tree) => match last_header(lines, "author "@) {
                    None => Err(TigError::MissingAuthor),
                    Some(author) => Ok(
                        CommitView {
                            author,
                            tree_hash: tree,
                            parent_hash: last_header(lines, "parent "@),
                            message: t.skip(i + 2),
                        },
                    ),
                },
            }
        },
    }
}

/// The commit that the content `content` describes.
pub open spec fn parse_commit(content: Seq<u8>) -> Result<CommitView, TigError> {
    if !valid_utf8(content) {
        Err(TigError::InvalidUtf8)
    } else {
        parse_commit_text(decode_utf8(content))
    }
}

/// The author line of a commit by `name` <`email`> at `timestamp` seconds
/// since the Unix epoch, in the time zone `offset`.
pub open spec fn author_line(
    name: Seq<char>,
    email: Seq<char>,
    timestamp: nat,
    offset: Seq<char>,
) -> Seq<char> {
    name + " <"@ + email + "> "@ + decimal_chars(timestamp) + " "@ + offset
}

/// A UTC offset as `%z` prints it: a sign and four digits.
pub open spec fn is_utc_offset(offset: Seq<char>) -> bool {
    &&& offset.len() == 5
    &&& (offset[0] == '+' || offset[0] == '-')
    &&& forall|i: int| 1 <= i < 5 ==> '0' <= #[trigger] offset[i] <= '9'
}

/// `SystemTime::now().duration_since(UNIX_EPOCH)` in whole seconds; `None`
/// when the clock is set before the epoch. Nothing is stated of the value:
/// it is the time.
#[verifier::external_body]
fn unix_timestamp() -> (r: Option<u64>) {
    match std::time::SystemTime::now().duration_since(std::time::UNIX_EPOCH) {
        Ok(d) => Some(d.as_secs()),
        Err(_) => None,
    }
}

/// `chrono::Local::now().format("%z")`: the local UTC offset, which depends
/// on the machine. Claimed, as chrono's offset formatting shows: a sign and
/// four digits. Which offset is not stated.
#[verifier::external_body]
fn local_utc_offset() -> (r: String)
    ensures
        is_utc_offset(r@),
{
    chrono::Local::now().format("%z").to_string()
}

/// Finds the first `"\n\n"` in `cs`.
fn find_blank_line(cs: &Vec<char>) -> (r: Option<usize>)
    ensures
        r matches Some(i) ==> blank_line_index(cs@) == Some(i as int) && i + 1 < cs@.len(),
        r is None ==> blank_line_index(cs@) is None,
{
    let mut i: usize = 0;
    assert(cs@.skip(0) =~= cs@);
    while cs.len() >= 2 && i <= cs.len() - 2
        invariant
            i <= cs@.len(),
            blank_line_index(cs@) == (match blank_line_index(cs@.skip(i as int)) {
                Some(j) => Some(j + i),
                None => None::<int>,
            }),
        decreases cs.len() - i,
    {
        let ghost t = cs@.skip(i as int);
        if cs[i] == '\n' && cs[i + 1] == '\n' {
            assert(t[0] == '\n' && t[1] == '\n');
            return Some(i);
        }
        assert(t.drop_first() =~= cs@.skip(i + 1));
        i = i + 1;
    }
    assert(cs@.skip(i as int).len() < 2);
    assert(blank_line_index(cs@.skip(i as int)) is None);
    None
}

/// The characters of an optional string.
pub open spec fn option_view(s: Option<String>) -> Option<Seq<char>> {
    match s {
        Some(p) => Some(p@),
        None => None,
    }
}

/// Why no commit can be made, where that does not depend on the clock: the
/// tree is not stored, or the user's name or e-mail is not configured.
pub open spec fn new_commit_error(
    tree_exists: bool,
    entries: Map<(Option<Seq<char>>, Seq<char>), Seq<char>>,
) -> Option<TigError> {
    if !tree_exists {
        Some(TigError::InvalidTreeHash)
    } else if !(config_lookup(entries, "user.name"@) matches Some(n) && n.len() > 0) {
        Some(TigError::AuthorNotSet)
    } else if !(config_lookup(entries, "user.email"@) matches Some(m) && m.len() > 0) {
        Some(TigError::EmailNotSet)
    } else {
        None
    }
}

/// Whether `c` is a new commit of `tree_hash` with `parent_hash` and
/// `message` by the configured user: its author line holds the configured
/// name and e-mail, some time and some UTC offset.
pub open spec fn is_new_commit(
    c: CommitView,
    tree_hash: Seq<char>,
    parent_hash: Option<Seq<char>>,
    message: Seq<char>,
    entries: Map<(Option<Seq<char>>, Seq<char>), Seq<char>>,
) -> bool {
    &&& c.tree_hash == tree_hash
    &&& c.parent_hash == parent_hash
    &&& c.message == message
    &&& config_lookup(entries, "user.name"@) matches Some(name)
    &&& config_lookup(entries, "user.email"@) matches Some(email)
    &&& exists|t: nat, o: Seq<char>| is_utc_offset(o) && c.author == author_line(name, email, t, o)
}

impl Commit {
    /// A commit of `tree_hash` with the given author line.
    fn with_author(
        tree_hash: String,
        parent_hash: Option<String>,
        message: String,
        author: String,
    ) -> (r: Self)
        ensures
            r@ == (CommitView {
                author: author@,
                tree_hash: tree_hash@,
                parent_hash: match parent_hash {
                    Some(p) => Some(p@),
                    None => None,
                },
                message: message@,
            }),
    {
        Self { author, tree_hash, parent_hash, message }
    }

    /// A new commit of `tree_hash` by the configured user, now.
    ///
    /// `tree_exists` tells whether the object of `tree_hash` is stored;
    /// without it there is no commit. The author line carries the user's name
    /// and e-mail from `config`, the time in seconds since the Unix epoch and
    /// the local UTC offset.
    pub fn new(
        tree_hash: String,
        parent_hash: Option<String>,
        message: String,
        tree_exists: bool,
        config: &Ini,
    ) -> (r: Result<Self, TigError>)
        ensures
            match new_commit_error(tree_exists, ini_entries(*config)) {
                Some(e) => r == Err::<Self, TigError>(e),
                None => match r {
                    Ok(c) => is_new_commit(
                        c@,
                        tree_hash@,
                        option_view(parent_hash),
                        message@,
                        ini_entries(*config),
                    ),
                    Err(e) => e == TigError::Clock,
                },
            },
    {
        let clock = unix_timestamp();
        let offset = local_utc_offset();
        let r = Self::new_at(
            tree_hash,
            parent_hash,
            message,
            tree_exists,
            config,
            clock,
            offset.as_str(),
        );
        proof {
            if new_commit_error(tree_exists, ini_entries(*config)) is None && clock is Some {
                let t = clock->0 as nat;
                assert(is_utc_offset(offset@));
                assert(r->Ok_0@.author == author_line(
                    config_lookup(ini_entries(*config), "user.name"@)->0,
                    config_lookup(ini_entries(*config), "user.email"@)->0,
                    t,
                    offset@,
                ));
            }
        }
        r
    }

    /// A new commit of `tree_hash` by the configured user, dated by the clock
    /// reading `clock` (seconds since the Unix epoch; `None` where the clock
    /// stands before the epoch) in the time zone `offset`: the commit that
    /// `Commit::new` makes with the time it reads.
    ///
    /// `tree_exists` tells whether the object of `tree_hash` is stored;
    /// without it there is no commit. The author line carries the user's name
    /// and e-mail from `config`, then `clock` and `offset` unchanged.
    pub fn new_at(
        tree_hash: String,
        parent_hash: Option<String>,
        message: String,
        tree_exists: bool,
        config: &Ini,
        clock: Option<u64>,
        offset: &str,
    ) -> (r: Result<Self, TigError>)
        ensures
            match new_commit_error(tree_exists, ini_entries(*config)) {
                Some(e) => r == Err::<Self, TigError>(e),
                None => match clock {
                    None => r == Err::<Self, TigError>(TigError::Clock),
                    Some(t) => {
                        &&& config_lookup(ini_entries(*config), "user.name"@) matches Some(name)
                        &&& config_lookup(ini_entries(*config), "user.email"@) matches Some(email)
                        &&& r matches Ok(c)
                        &&& c@ == (CommitView {
                            author: author_line(name, email, t as nat, offset@),
                            tree_hash: tree_hash@,
                            parent_hash: option_view(parent_hash),
                            message: message@,
                        })
                    },
                },
            },
    {
        if !tree_exists {
            return Err(TigError::InvalidTreeHash);
        }
        proof {
            reveal_strlit("user.name");
            reveal_strlit("user.email");
            lemma_index_of_at("user.name"@, '.', 4);
            lemma_index_of_at("user.email"@, '.', 4);
        }
        let name = get_author(config)?;
        let email = get_email(config)?;
        let timestamp = match clock {
            Some(t) => t,
            None => return Err(TigError::Clock),
        };
        Ok(
            Self::with_time(
                tree_hash,
                parent_hash,
                message,
                name.as_str(),
                email.as_str(),
                timestamp,
                offset,
            ),
        )
    }

    /// The commit of `tree_hash` by `name` <`email`> at `timestamp` seconds
    /// since the Unix epoch in the time zone `offset`: the commit that
    /// `Commit::new` makes once it has read the configuration and the clock.
    pub fn with_time(
        tree_hash: String,
        parent_hash: Option<String>,
        message: String,
        name: &str,
        email: &str,
        timestamp: u64,
        offset: &str,
    ) -> (r: Self)
        ensures
            r@ == (CommitView {
                author: author_line(name@, email@, timestamp as nat, offset@),
                tree_hash: tree_hash@,
                parent_hash: option_view(parent_hash),
                message: message@,
            }),
    {
        let mut author = String::from_str(name);
        author.append(" <");
        author.append(email);
        author.append("> ");
        let digits = decimal_string(timestamp);
        author.append(digits.as_str());
        author.append(" ");
        author.append(offset);
        Self::with_author(tree_hash, parent_hash, message, author)
    }

    /// The commit described by the content `content`.
    pub fn parse(content: &[u8]) -> (r: Result<Self, TigError>)
        ensures
            match parse_commit(content@) {
                Ok(c) => r matches Ok(d) && d@ == c,
                Err(e) => r matches Err(f) && f == e,
            },
    {
        let text = match str_from_utf8(content) {
            Some(t) => t,
            None => return Err(TigError::InvalidUtf8),
        };
        let cs = chars_of(text);
        let n = cs.len();
        assert(parse_commit(content@) == parse_commit_text(text@));
        let split = match find_blank_line(&cs) {
            Some(i) => i,
            None => return Err(TigError::MissingMessageSeparator),
        };
        let headers = text.substring_char(0, split);
        let message = text.substring_char(split + 2, n);
        assert(text@.take(split as int) =~= headers@);
        assert(text@.skip(split + 2) =~= message@);
        let lines = text_lines(headers);
        let ghost lv = strs_view(lines@);
        let mut tree_hash: Option<String> = None;
        let mut author: Option<String> = None;
        let mut parent_hash: Option<String> = None;
        let mut i: usize = 0;
        proof {
            reveal_strlit("tree ");
            reveal_strlit("author ");
            reveal_strlit("parent ");
        }
        while i < lines.len()
            invariant
                lv == strs_view(lines@),
                i <= lines@.len(),
                "tree "@ == seq!['t', 'r', 'e', 'e', ' '],
                "author "@ == seq!['a', 'u', 't', 'h', 'o', 'r', ' '],
                "parent "@ == seq!['p', 'a', 'r', 'e', 'n', 't', ' '],
                match tree_hash {
                    Some(s) => last_header(lv.take(i as int), "tree "@) == Some(s@),
                    None => last_header(lv.take(i as int), "tree "@) is None,
                },
                match author {
                    Some(s) => last_header(lv.take(i as int), "author "@) == Some(s@),
                    None => last_header(lv.take(i as int), "author "@) is None,
                },
                match parent_hash {
                    Some(s) => last_header(lv.take(i as int), "parent "@) == Some(s@),
                    None => last_header(lv.take(i as int), "parent "@) is None,
                },
            decreases lines@.len() - i,
        {
            let line = lines[i];
            let ghost l = lv[i as int];
            assert(lv.take(i + 1).drop_last() =~= lv.take(i as int));
            assert(lv.take(i + 1).last() == l);
            assert(line@ == l);
            if let Some(value) = strip_prefix(line, "tree ") {
                assert(strip_prefix_spec(l, "author "@) is None);
                assert(strip_prefix_spec(l, "parent "@) is None);
                tree_hash = Some(String::from_str(value));
            } else if let Some(value) = strip_prefix(line, "author ") {
                assert(strip_prefix_spec(l, "parent "@) is None);
                author = Some(String::from_str(value));
            } else if let Some(value) = strip_prefix(line, "parent ") {
                parent_hash = Some(String::from_str(value));
            }
            i = i + 1;
        }
        assert(lv.take(lines@.len() as int) =~= lv);
        assert(blank_line_index(text@) == Some(split as int));
        assert(split_lines(text@.take(split as int)) == lv);
        let tree_hash = match tree_hash {
            Some(t) => t,
            None => return Err(TigError::MissingTree),
        };
        let author = match author {
            Some(a) => a,
            None => return Err(TigError::MissingAuthor),
        };
        Ok(Self::with_author(tree_hash, parent_hash, String::from_str(message), author))
    }

    /// The commit stored under a hash, from `raw`, the compressed bytes of
    /// its object file (found at `get_object_path(hash)`).
    pub fn from_hash(raw: &[u8]) -> (r: Result<Self, TigError>)
        ensures
            match stored_object_content(raw@) {
                Ok(c) => match parse_commit(c) {
                    Ok(v) => r matches Ok(d) && d@ == v,
                    Err(e) => r matches Err(f) && f == e,
                },
                Err(e) => r matches Err(f) && f == e,
            },
    {
        let content = get_content_from_raw(raw)?;
        Self::parse(content.as_slice())
    }

    /// The hash of the parent commit, if any.
    pub fn parent_hash(&self) -> (r: Option<&str>)
        ensures
            match self@.parent_hash {
                Some(p) => r matches Some(s) && s@ == p,
                None => r is None,
            },
    {
        match &self.parent_hash {
            Some(p) => Some(p.as_str()),
            None => None,
        }
    }

    /// The hash of the committed tree.
    pub fn tree_hash(&self) -> (r: &str)
        ensures
            r@ == self@.tree_hash,
    {
        self.tree_hash.as_str()
    }

    /// The lines that `log` prints for this commit: its type and the first
    /// seven characters of its hash, then the message indented by a tab.
    pub fn get_print_text(&self) -> (r: String)
        ensures
            r@ == "commit"@ + " "@ + object_hash("commit"@, self.spec_content()).take(7) + "\n\t"@
                + self@.message + "\n"@,
    {
        let hash = self.hash();
        let mut text = String::from_str(self.object_type());
        text.append(" ");
        text.append(hash.as_str().substring_char(0, 7));
        text.append("\n\t");
        text.append(self.message.as_str());
        text.append("\n");
        text
    }
}

impl TigObject for Commit {
    open spec fn spec_object_type(&self) -> Seq<char> {
        "commit"@
    }

    open spec fn spec_content(&self) -> Seq<u8> {
        encode_utf8(commit_text(self@))
    }

    fn object_type(&self) -> (r: &'static str) {
        "commit"
    }

    fn content(&self) -> (r: Vec<u8>) {
        let mut text = String::from_str("tree ");
        text.append(self.tree_hash.as_str());
        text.append("\n");
        if let Some(parent_hash) = &self.parent_hash {
            if !trim(parent_hash.as_str()).is_empty() {
                text.append("parent ");
                text.append(parent_hash.as_str());
                text.append("\n");
            }
        }
        text.append("author ");
        text.append(self.author.as_str());
        text.append("\ncommitter ");
        text.append(self.author.as_str());
        text.append("\n\n");
        text.append(self.message.as_str());
        assert(text@ == commit_text(self@));
        text.as_str().as_bytes_vec()
    }
}


/// Text with no empty line break in it.
pub open spec fn no_blank_line(s: Seq<char>) -> bool {
    forall|k: int| 0 <= k && k + 1 < s.len() ==> !(#[trigger] s[k] == '\n' && s[k + 1] == '\n')
}

/// Text that `str::lines` reads back as one line: without a line feed, and
/// not ending in a carriage return.
pub open spec fn single_line(s: Seq<char>) -> bool {
    &&& forall|k: int| 0 <= k < s.len() ==> s[k] != '\n'
    &&& !(s.len() > 0 && s.last() == '\r')
}

proof fn lemma_no_blank_concat(x: Seq<char>, y: Seq<char>)
    requires
        no_blank_line(x),
        no_blank_line(y),
        !(x.len() > 0 && y.len() > 0 && x.last() == '\n' && y[0] == '\n'),
    ensures
        no_blank_line(x + y),
{
    let s = x + y;
    assert forall|k: int| 0 <= k && k + 1 < s.len() implies !(#[trigger] s[k] == '\n' && s[k + 1]
        == '\n') by {
        if k + 1 < x.len() {
            assert(s[k] == x[k] && s[k + 1] == x[k + 1]);
        } else if k >= x.len() {
            assert(s[k] == y[k - x.len()] && s[k + 1] == y[k + 1 - x.len()]);
        } else {
            assert(s[k] == x.last() && s[k + 1] == y[0]);
        }
    }
}

/// `blank_line_index` finds the first empty line break.
proof fn lemma_blank_line_index_at(t: Seq<char>, i: int)
    requires
        0 <= i,
        i + 1 < t.len(),
        t[i] == '\n' && t[i + 1] == '\n',
        forall|k: int| 0 <= k < i ==> !(#[trigger] t[k] == '\n' && t[k + 1] == '\n'),
    ensures
        blank_line_index(t) == Some(i),
    decreases i,
{
    if i > 0 {
        let u = t.drop_first();
        assert forall|k: int| 0 <= k < i - 1 implies !(#[trigger] u[k] == '\n' && u[k + 1] == '\n') by {
            assert(u[k] == t[k + 1] && u[k + 1] == t[k + 2]);
        }
        lemma_blank_line_index_at(u, i - 1);
        assert(!(t[0] == '\n' && t[1] == '\n'));
    }
}

/// `s` does not start with the non-empty `p` when their first characters differ.
proof fn lemma_strip_prefix_first_differs(s: Seq<char>, p: Seq<char>)
    requires
        s.len() > 0,
        p.len() > 0,
        s[0] != p[0],
    ensures
        strip_prefix_spec(s, p) is None,
{
    if p.len() <= s.len() {
        assert(s.take(p.len() as int)[0] != p[0]);
    }
}

/// The header lines of a commit whose header values are single lines.
spec fn header_lines(c: CommitView) -> Seq<Seq<char>> {
    let l1 = "tree "@ + c.tree_hash;
    let l3 = "author "@ + c.author;
    let l4 = "committer "@ + c.author;
    if parent_header(c.parent_hash).len() > 0 {
        seq![l1, "parent "@ + c.parent_hash->0, l3, l4]
    } else {
        seq![l1, l3, l4]
    }
}

proof fn lemma_prefixed_single_line(p: Seq<char>, v: Seq<char>)
    requires
        single_line(p),
        p.len() > 0,
        single_line(v),
    ensures
        single_line(p + v),
        forall|k: int| 0 <= k < (p + v).len() ==> (p + v)[k] != '\n',
        strip_cr(p + v) == p + v,
        no_blank_line(p + v),
{
    let l = p + v;
    assert forall|k: int| 0 <= k < l.len() implies l[k] != '\n' by {
        if k >= p.len() {
            assert(l[k] == v[k - p.len()]);
        } else {
            assert(l[k] == p[k]);
        }
    }
    if v.len() > 0 {
        assert(l.last() == v.last());
    } else {
        assert(l =~= p);
    }
}

/// The commit headers split into the header lines.
proof fn lemma_commit_header_lines(c: CommitView)
    requires
        single_line(c.tree_hash),
        single_line(c.author),
        parent_header(c.parent_hash).len() > 0 ==> single_line(c.parent_hash->0),
    ensures
        split_lines(commit_headers(c)) == header_lines(c),
        no_blank_line(commit_headers(c)),
        commit_headers(c).len() > 0,
        commit_headers(c).last() != '\n',
{
    reveal_strlit("tree ");
    reveal_strlit("\n");
    reveal_strlit("parent ");
    reveal_strlit("author ");
    reveal_strlit("\ncommitter ");
    reveal_strlit("committer ");
    let nl = seq!['\n'];
    let l1 = "tree "@ + c.tree_hash;
    let ph = parent_header(c.parent_hash);
    let l3 = "author "@ + c.author;
    let l4 = "committer "@ + c.author;
    assert("\ncommitter "@ =~= nl + "committer "@);
    lemma_prefixed_single_line("tree "@, c.tree_hash);
    lemma_prefixed_single_line("author "@, c.author);
    lemma_prefixed_single_line("committer "@, c.author);
    let tail = l3 + nl + l4;
    lemma_split_lines_cons(l3, l4);
    lemma_split_lines_single(l4);
    assert(split_lines(tail) =~= seq![l3, l4]);
    lemma_no_blank_concat(l3, nl);
    lemma_no_blank_concat(l3 + nl, l4);
    lemma_no_blank_concat(l1, nl);
    assert(l1[0] == 't' && l3[0] == 'a');
    if ph.len() > 0 {
        let p = c.parent_hash->0;
        let l2 = "parent "@ + p;
        lemma_prefixed_single_line("parent "@, p);
        assert(ph =~= l2 + nl);
        assert(commit_headers(c) =~= l1 + nl + (l2 + nl + tail));
        lemma_split_lines_cons(l2, tail);
        lemma_split_lines_cons(l1, l2 + nl + tail);
        assert(split_lines(commit_headers(c)) =~= header_lines(c));
        assert(l2[0] == 'p');
        lemma_no_blank_concat(l2, nl);
        lemma_no_blank_concat(l2 + nl, tail);
        lemma_no_blank_concat(l1 + nl, l2 + nl + tail);
        assert(commit_headers(c).last() == l4.last());
    } else {
        assert(ph =~= Seq::<char>::empty());
        assert(commit_headers(c) =~= l1 + nl + tail);
        lemma_split_lines_cons(l1, tail);
        assert(split_lines(commit_headers(c)) =~= header_lines(c));
        lemma_no_blank_concat(l1 + nl, tail);
        assert(commit_headers(c).last() == l4.last());
    }
}

/// The header values read back from the header lines.
proof fn lemma_header_values(c: CommitView)
    requires
        single_line(c.tree_hash),
        single_line(c.author),
    ensures
        last_header(header_lines(c), "tree "@) == Some(c.tree_hash),
        last_header(header_lines(c), "author "@) == Some(c.author),
        last_header(header_lines(c), "parent "@) == (if parent_header(c.parent_hash).len() > 0 {
            c.parent_hash
        } else {
            None
        }),
{
    reveal_strlit("tree ");
    reveal_strlit("parent ");
    reveal_strlit("author ");
    reveal_strlit("committer ");
    reveal_with_fuel(last_header, 5);
    let l1 = "tree "@ + c.tree_hash;
    let l3 = "author "@ + c.author;
    let l4 = "committer "@ + c.author;
    let lines = header_lines(c);
    assert(l1[0] == 't' && l3[0] == 'a' && l4[0] == 'c');
    assert(l1.take(5) =~= "tree "@ && l1.skip(5) =~= c.tree_hash);
    assert(l3.take(7) =~= "author "@ && l3.skip(7) =~= c.author);
    lemma_strip_prefix_first_differs(l4, "tree "@);
    lemma_strip_prefix_first_differs(l3, "tree "@);
    lemma_strip_prefix_first_differs(l4, "author "@);
    lemma_strip_prefix_first_differs(l4, "parent "@);
    lemma_strip_prefix_first_differs(l3, "parent "@);
    lemma_strip_prefix_first_differs(l1, "parent "@);
    if parent_header(c.parent_hash).len() > 0 {
        let p = c.parent_hash->0;
        let l2 = "parent "@ + p;
        assert(l2[0] == 'p');
        assert(l2.take(7) =~= "parent "@ && l2.skip(7) =~= p);
        lemma_strip_prefix_first_differs(l2, "tree "@);
        lemma_strip_prefix_first_differs(l2, "author "@);
        assert(lines.drop_last() =~= seq![l1, l2, l3]);
        assert(lines.drop_last().drop_last() =~= seq![l1, l2]);
        assert(lines.drop_last().drop_last().drop_last() =~= seq![l1]);
    } else {
        assert(lines.drop_last() =~= seq![l1, l3]);
        assert(lines.drop_last().drop_last() =~= seq![l1]);
        assert(seq![l1].drop_last() =~= Seq::<Seq<char>>::empty());
    }
}

/// A commit stored and read back is the same commit, as long as its tree
/// hash, author and (not blank) parent hash read back as single lines (no
/// line feed, no carriage return at the end); a blank parent hash is not
/// stored and reads back as no parent.
pub proof fn law_commit_roundtrip(c: CommitView)
    requires
        single_line(c.tree_hash),
        single_line(c.author),
        parent_header(c.parent_hash).len() > 0 ==> single_line(c.parent_hash->0),
    ensures
        parse_commit(encode_utf8(commit_text(c))) == Ok::<CommitView, TigError>(
            CommitView {
                parent_hash: match c.parent_hash {
                    Some(p) => if trimmed(p).len() != 0 {
                        Some(p)
                    } else {
                        None
                    },
                    None => None,
                },
                ..c
            },
        ),
{
    reveal_strlit("\n\n");
    let text = commit_text(c);
    let h = commit_headers(c);
    encode_utf8_valid_utf8(text);
    encode_utf8_decode_utf8(text);
    lemma_commit_header_lines(c);
    lemma_header_values(c);
    assert forall|k: int| 0 <= k < h.len() implies !(#[trigger] text[k] == '\n' && text[k + 1]
        == '\n') by {
        if k + 1 < h.len() {
            assert(text[k] == h[k] && text[k + 1] == h[k + 1]);
        } else {
            assert(text[k] == h.last());
        }
    }
    lemma_blank_line_index_at(text, h.len() as int);
    assert(text.take(h.len() as int) =~= h);
    assert(text.skip(h.len() as int + 2) =~= c.message);
}

} // verus!
