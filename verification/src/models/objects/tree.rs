//! Trees: the entries of one directory, each a mode, a name and the hash of
//! a blob or of another tree.
use vstd::prelude::*;
use vstd::string::StringSliceAdditionalSpecFns;
use vstd::utf8::*;

use crate::error::TigError;
use crate::models::objects::tig_object::{object_hash, TigObject};
use crate::utils::working_dir_util::relative_path_of;
use crate::models::objects::{get_content_from_raw, stored_object_content};
use crate::utils::hash_util::{hex_decode, hex_decoded, hex_encode, hex_lower};
use crate::utils::text_util::{
    bytes_le, find_byte, index_of, join_path, lemma_index_of, lemma_index_of_at,
    lemma_encode_utf8_ascii_absent, lemma_lex_le_total, lemma_lex_le_transitive, lex_le, path_join,
    str_eq, str_from_utf8,
};

verus! {

broadcast use vstd::seq_lib::to_multiset_insert;

/// The mode of an entry that names a tree.
pub open spec fn dir_mode() -> Seq<char> {
    "40000"@
}

/// The mode of an entry that names a blob.
pub open spec fn file_mode() -> Seq<char> {
    "100644"@
}

/// What a tree entry holds.
pub struct TreeEntryView {
    pub mode: Seq<char>,
    pub name: Seq<char>,
    pub hash: Seq<u8>,
}

/// One entry of a tree.
pub struct TreeEntry {
    mode: String,
    name: String,
    hash: [u8; 20],
}

impl View for TreeEntry {
    type V = TreeEntryView;

    closed spec fn view(&self) -> TreeEntryView {
        TreeEntryView { mode: self.mode@, name: self.name@, hash: self.hash@ }
    }
}

/// How an entry is stored in a tree: its mode, a space, its name, a NUL byte
/// and the 20 bytes of its hash.
pub open spec fn entry_bytes(e: TreeEntryView) -> Seq<u8> {
    encode_utf8(e.mode) + seq![32u8] + encode_utf8(e.name) + seq![0u8] + e.hash
}

/// How a sequence of entries is stored: one after the other.
pub open spec fn tree_content(es: Seq<TreeEntryView>) -> Seq<u8>
    decreases es.len(),
{
    if es.len() == 0 {
        Seq::empty()
    } else {
        entry_bytes(es[0]) + tree_content(es.drop_first())
    }
}

/// The outcome of reading the entries of a tree.
pub enum TreeParse {
    /// All entries were read.
    Entries(Seq<TreeEntryView>),
    /// An entry is malformed.
    Failed(TigError),
    /// An entry ends before the 20 bytes of its hash.
    Truncated,
}

/// Reads the entries stored in `rest`, one after the other.
pub open spec fn parse_tree(rest: Seq<u8>) -> TreeParse
    decreases rest.len(),
{
    if rest.len() == 0 {
        TreeParse::Entries(Seq::empty())
    } else {
        match index_of(rest, 32u8) {
            None => TreeParse::Failed(TigError::TreeMissingSpace),
            Some(sp) => {
                if !(0 <= sp < rest.len()) {
                    TreeParse::Failed(TigError::TreeMissingSpace)
                } else if !valid_utf8(rest.take(sp)) {
                    TreeParse::Failed(TigError::InvalidUtf8)
                } else {
                    let r2 = rest.skip(sp + 1);
                    match index_of(r2, 0u8) {
                        None => TreeParse::Failed(TigError::TreeMissingNul),
                        Some(nul) => {
                            if !(0 <= nul < r2.len()) {
                                TreeParse::Failed(TigError::TreeMissingNul)
                            } else if !valid_utf8(r2.take(nul)) {
                                TreeParse::Failed(TigError::InvalidUtf8)
                            } else {
                                let r3 = r2.skip(nul + 1);
                                if r3.len() < 20 {
                                    TreeParse::Truncated
                                } else {
                                    let e = TreeEntryView {
                                        mode: decode_utf8(rest.take(sp)),
                                        name: decode_utf8(r2.take(nul)),
                                        hash: r3.take(20),
                                    };
                                    match parse_tree(r3.skip(20)) {
                                        TreeParse::Entries(es) => TreeParse::Entries(seq![e] + es),
                                        other => other,
                                    }
                                }
                            }
                        },
                    }
                }
            },
        }
    }
}

/// The bytes by which git orders an entry in a tree: its name, followed by
/// `/` where it names a tree.
pub open spec fn tree_key(e: TreeEntryView) -> Seq<u8> {
    encode_utf8(e.name) + if e.mode == dir_mode() {
        seq![47u8]
    } else {
        Seq::empty()
    }
}

/// Entries in git's tree order: by the bytes of their names, a tree's name
/// compared as if it ended in `/`.
pub open spec fn in_tree_order(es: Seq<TreeEntryView>) -> bool {
    forall|i: int, j: int|
        0 <= i < j < es.len() ==> lex_le(tree_key(#[trigger] es[i]), tree_key(#[trigger] es[j]))
}

/// The views of a sequence of entries.
pub open spec fn entries_view(es: Seq<TreeEntry>) -> Seq<TreeEntryView> {
    es.map_values(|e: TreeEntry| e@)
}

/// What one entry of a tree stands for when the tree's files are listed.
pub enum TreeItemView {
    /// A file at a path, with the hash of its blob.
    File(Seq<char>, Seq<char>),
    /// A subtree under a path prefix, with the hash of the tree.
    Dir(Seq<char>, Seq<char>),
    /// An entry with an unknown mode.
    Invalid,
}

/// What one entry of a tree stands for when the tree's files are listed.
pub enum TreeItem {
    /// A file: its path and the hash of its blob.
    File(String, String),
    /// A subtree: the path prefix of its files and the hash of the tree.
    Dir(String, String),
    /// An entry with an unknown mode; listing stops with an error there.
    Invalid,
}

impl View for TreeItem {
    type V = TreeItemView;

    open spec fn view(&self) -> TreeItemView {
        match self {
            TreeItem::File(p, h) => TreeItemView::File(p@, h@),
            TreeItem::Dir(p, h) => TreeItemView::Dir(p@, h@),
            TreeItem::Invalid => TreeItemView::Invalid,
        }
    }
}

/// The path prefix of the files of a subtree named `name` under `prefix`.
pub open spec fn sub_prefix(prefix: Option<Seq<char>>, name: Seq<char>) -> Seq<char> {
    match prefix {
        Some(p) => p + seq!['/'] + name,
        None => name,
    }
}

/// The path of a file named `name` under `prefix`.
pub open spec fn file_path(prefix: Option<Seq<char>>, name: Seq<char>) -> Seq<char> {
    match prefix {
        Some(p) => path_join(p, name),
        None => name,
    }
}

/// What the entries `es` of a tree under `prefix` stand for, in order, up to
/// and including the first entry with an unknown mode.
pub open spec fn expand_entries(es: Seq<TreeEntryView>, prefix: Option<Seq<char>>) -> Seq<
    TreeItemView,
>
    decreases es.len(),
{
    if es.len() == 0 {
        Seq::empty()
    } else {
        let e = es[0];
        if e.mode == dir_mode() {
            seq![TreeItemView::Dir(sub_prefix(prefix, e.name), hex_lower(e.hash))]
                + expand_entries(es.drop_first(), prefix)
        } else if e.mode == file_mode() {
            seq![TreeItemView::File(file_path(prefix, e.name), hex_lower(e.hash))]
                + expand_entries(es.drop_first(), prefix)
        } else {
            seq![TreeItemView::Invalid]
        }
    }
}

impl TreeEntry {
    /// An entry with the given mode, name and hash.
    pub fn new(mode: String, name: String, hash: [u8; 20]) -> (r: Self)
        ensures
            r@ == (TreeEntryView { mode: mode@, name: name@, hash: hash@ }),
    {
        Self { mode, name, hash }
    }

    /// The entry for an object named `name` with the hexadecimal hash
    /// `hash_hex`: a tree entry when `is_dir`, else a file entry.
    pub fn for_object(name: String, is_dir: bool, hash_hex: &str) -> (r: Result<Self, TigError>)
        ensures
            match hex_decoded(hash_hex.spec_bytes()) {
                None => r == Err::<Self, TigError>(TigError::InvalidHex),
                Some(h) => if h.len() != 20 {
                    r == Err::<Self, TigError>(TigError::InvalidHashLength)
                } else {
                    r matches Ok(e) && e@ == (TreeEntryView {
                        mode: if is_dir {
                            dir_mode()
                        } else {
                            file_mode()
                        },
                        name: name@,
                        hash: h,
                    })
                },
            },
    {
        let bytes = match hex_decode(hash_hex) {
            Some(b) => b,
            None => return Err(TigError::InvalidHex),
        };
        if bytes.len() != 20 {
            return Err(TigError::InvalidHashLength);
        }
        let mut hash = [0u8; 20];
        let mut k: usize = 0;
        while k < 20
            invariant
                bytes@.len() == 20,
                k <= 20,
                forall|i: int| 0 <= i < k ==> hash@[i] == bytes@[i],
            decreases 20 - k,
        {
            hash[k] = bytes[k];
            k = k + 1;
        }
        assert(hash@ =~= bytes@);
        let mode = if is_dir {
            String::from_str("40000")
        } else {
            String::from_str("100644")
        };
        Ok(Self::new(mode, name, hash))
    }
}

/// Appends the stored form of `e` to `out`.
fn push_entry(e: &TreeEntry, out: &mut Vec<u8>)
    ensures
        final(out)@ == old(out)@ + entry_bytes(e@),
{
    out.extend_from_slice(e.mode.as_str().as_bytes());
    out.push(32);
    out.extend_from_slice(e.name.as_str().as_bytes());
    out.push(0);
    let h = e.hash.as_slice();
    out.extend_from_slice(h);
    assert(final(out)@ =~= old(out)@ + entry_bytes(e@));
}

proof fn lemma_tree_content_push(es: Seq<TreeEntryView>, e: TreeEntryView)
    ensures
        tree_content(es.push(e)) == tree_content(es) + entry_bytes(e),
    decreases es.len(),
{
    if es.len() == 0 {
        assert(es.push(e).drop_first() =~= Seq::<TreeEntryView>::empty());
        assert(es.push(e)[0] == e);
        assert(tree_content(Seq::<TreeEntryView>::empty()) =~= Seq::<u8>::empty());
        assert(tree_content(es.push(e)) =~= entry_bytes(e));
        assert(tree_content(es) =~= Seq::<u8>::empty());
    } else {
        lemma_tree_content_push(es.drop_first(), e);
        assert(es.push(e).drop_first() =~= es.drop_first().push(e));
        assert(tree_content(es.push(e)) =~= tree_content(es) + entry_bytes(e));
    }
}

/// The entries of `es` with the sort key `name`, in their order.
pub open spec fn entries_keyed(es: Seq<TreeEntryView>, name: Seq<u8>) -> Seq<TreeEntryView>
    decreases es.len(),
{
    if es.len() == 0 {
        Seq::empty()
    } else {
        entries_keyed(es.drop_last(), name) + if tree_key(es.last()) == name {
            seq![es.last()]
        } else {
            Seq::empty()
        }
    }
}

proof fn lemma_entries_keyed_concat(a: Seq<TreeEntryView>, b: Seq<TreeEntryView>, name: Seq<u8>)
    ensures
        entries_keyed(a + b, name) == entries_keyed(a, name) + entries_keyed(b, name),
    decreases b.len(),
{
    if b.len() == 0 {
        assert(a + b =~= a);
        assert(entries_keyed(a, name) + entries_keyed(b, name) =~= entries_keyed(a, name));
    } else {
        lemma_entries_keyed_concat(a, b.drop_last(), name);
        assert((a + b).drop_last() =~= a + b.drop_last());
        assert((a + b).last() == b.last());
        assert(entries_keyed(a + b, name) =~= entries_keyed(a, name) + entries_keyed(b, name));
    }
}

proof fn lemma_entries_keyed_absent(es: Seq<TreeEntryView>, name: Seq<u8>)
    requires
        forall|k: int| 0 <= k < es.len() ==> #[trigger] tree_key(es[k]) != name,
    ensures
        entries_keyed(es, name) == Seq::<TreeEntryView>::empty(),
    decreases es.len(),
{
    if es.len() > 0 {
        lemma_entries_keyed_absent(es.drop_last(), name);
        assert(tree_key(es.last()) != name);
    }
}

/// Inserting `e` at `j` of `before`, where no entry from `j` on has its
/// sort key, keeps the entries of every key in order.
proof fn lemma_insert_keyed(
    before: Seq<TreeEntryView>,
    j: int,
    e: TreeEntryView,
    name: Seq<u8>,
)
    requires
        0 <= j <= before.len(),
        forall|k: int| j <= k < before.len() ==> #[trigger] tree_key(before[k]) != tree_key(e),
    ensures
        entries_keyed(before.insert(j, e), name) == entries_keyed(before.push(e), name),
{
    let pre = before.take(j);
    let post = before.skip(j);
    assert(before =~= pre + post);
    assert(before.insert(j, e) =~= pre + seq![e] + post);
    assert(before.push(e) =~= pre + post + seq![e]);
    lemma_entries_keyed_concat(pre + seq![e], post, name);
    lemma_entries_keyed_concat(pre, seq![e], name);
    lemma_entries_keyed_concat(pre + post, seq![e], name);
    lemma_entries_keyed_concat(pre, post, name);
    assert(seq![e].drop_last() =~= Seq::<TreeEntryView>::empty());
    assert(entries_keyed(Seq::<TreeEntryView>::empty(), name) =~= Seq::<TreeEntryView>::empty());
    assert(seq![e].last() == e);
    if tree_key(e) == name {
        assert forall|k: int| 0 <= k < post.len() implies #[trigger] tree_key(post[k]) != name by {
            assert(post[k] == before[j + k]);
        }
        lemma_entries_keyed_absent(post, name);
        assert(entries_keyed(pre, name) + entries_keyed(post, name) =~= entries_keyed(pre, name));
    } else {
        assert(entries_keyed(seq![e], name) =~= Seq::<TreeEntryView>::empty());
        assert(entries_keyed(pre, name) + entries_keyed(seq![e], name) =~= entries_keyed(pre, name));
        assert(entries_keyed(pre + post, name) + entries_keyed(seq![e], name) =~= entries_keyed(
            pre + post,
            name,
        ));
    }
}

/// The sort key of `e` in git's tree order.
fn key_of(e: &TreeEntry) -> (r: Vec<u8>)
    ensures
        r@ == tree_key(e@),
{
    let mut k: Vec<u8> = Vec::new();
    k.extend_from_slice(e.name.as_str().as_bytes());
    if str_eq(e.mode.as_str(), "40000") {
        k.push(47);
    }
    proof {
        reveal_strlit("40000");
    }
    assert(k@ =~= tree_key(e@));
    k
}

/// A directory's entries.
pub struct Tree {
    content: Vec<u8>,
    entries: Vec<TreeEntry>,
}

impl View for Tree {
    type V = Seq<TreeEntryView>;

    closed spec fn view(&self) -> Seq<TreeEntryView> {
        entries_view(self.entries@)
    }
}

impl Tree {
    /// The stored content always is the entries, one after the other.
    #[verifier::type_invariant]
    spec fn well_formed(self) -> bool {
        self.content@ == tree_content(entries_view(self.entries@))
    }

    /// The tree of the entries of one directory: `entries` in git's tree
    /// order (by name, a tree's name compared as if it ended in `/`);
    /// entries of one sort key keep their order.
    pub fn new(entries: Vec<TreeEntry>) -> (r: Self)
        ensures
            r@.to_multiset() == entries_view(entries@).to_multiset(),
            in_tree_order(r@),
            forall|name: Seq<u8>| #[trigger] entries_keyed(r@, name) == entries_keyed(
                entries_view(entries@),
                name,
            ),
    {
        let mut sorted: Vec<TreeEntry> = Vec::new();
        let mut rest = entries;
        let ghost all = entries_view(rest@);
        proof {
            assert(all.subrange(0, 0).to_multiset() =~= entries_view(sorted@).to_multiset()) by {
                assert(all.subrange(0, 0) =~= entries_view(sorted@));
            }
        }
        // Insert the entries from the back, each after those not bigger, so
        // that entries with equal keys keep their order.
        let mut taken: usize = 0;
        let n = rest.len();
        let mut reversed: Vec<TreeEntry> = Vec::new();
        while rest.len() > 0
            invariant
                rest@.len() + reversed@.len() == n,
                all.len() == n,
                forall|k: int| 0 <= k < rest@.len() ==> rest@[k]@ == all[k],
                forall|k: int| 0 <= k < reversed@.len() ==> #[trigger] reversed@[k]@ == all[n - 1 - k],
            decreases rest@.len(),
        {
            let e = rest.pop().unwrap();
            reversed.push(e);
        }
        while reversed.len() > 0
            invariant
                taken + reversed@.len() == n,
                all.len() == n,
                forall|k: int| 0 <= k < reversed@.len() ==> #[trigger] reversed@[k]@ == all[n - 1 - k],
                entries_view(sorted@).to_multiset() == all.subrange(0, taken as int).to_multiset(),
                in_tree_order(entries_view(sorted@)),
                forall|name: Seq<u8>| #[trigger] entries_keyed(entries_view(sorted@), name) == entries_keyed(
                    all.subrange(0, taken as int),
                    name,
                ),
            decreases reversed@.len(),
        {
            let e = reversed.pop().unwrap();
            assert(e@ == all[taken as int]);
            let ek = key_of(&e);
            let mut j = sorted.len();
            while j > 0 && !bytes_le(key_of(&sorted[j - 1]).as_slice(), ek.as_slice())
                invariant
                    ek@ == tree_key(e@),
                    j <= sorted@.len(),
                    in_tree_order(entries_view(sorted@)),
                    forall|k: int|
                        j <= k < sorted@.len() ==> !lex_le(
                            tree_key(#[trigger] sorted@[k]@),
                            tree_key(e@),
                        ),
                decreases j,
            {
                j = j - 1;
            }
            let ghost before = entries_view(sorted@);
            proof {
                assert forall|k: int| 0 <= k < j implies lex_le(
                    tree_key(#[trigger] before[k]),
                    tree_key(e@),
                ) by {
                    if k < j - 1 {
                        assert(lex_le(tree_key(before[k]), tree_key(before[j - 1])));
                        lemma_lex_le_transitive(
                            tree_key(before[k]),
                            tree_key(before[j - 1]),
                            tree_key(e@),
                        );
                    }
                }
                assert forall|k: int| j <= k < before.len() implies lex_le(
                    tree_key(e@),
                    tree_key(#[trigger] before[k]),
                ) by {
                    lemma_lex_le_total(tree_key(e@), tree_key(before[k]));
                }
            }
            sorted.insert(j, e);
            proof {
                let after = entries_view(sorted@);
                assert(after =~= before.insert(j as int, e@));
                assert forall|k: int| j <= k < before.len() implies #[trigger] tree_key(before[k]) != tree_key(e@) by {
                    if tree_key(before[k]) == tree_key(e@) {
                        lemma_lex_le_total(tree_key(e@), tree_key(e@));
                    }
                }
                assert forall|name: Seq<u8>| #[trigger] entries_keyed(after, name) == entries_keyed(
                    all.subrange(0, taken + 1),
                    name,
                ) by {
                    lemma_insert_keyed(before, j as int, e@, name);
                    assert(all.subrange(0, taken + 1).drop_last() =~= all.subrange(0, taken as int));
                    assert(all.subrange(0, taken + 1).last() == e@);
                    assert(before.push(e@).drop_last() =~= before);
                    assert(before.push(e@).last() == e@);
                    assert(entries_keyed(before, name) == entries_keyed(all.subrange(0, taken as int), name));
                }
                assert(all.subrange(0, taken + 1) =~= all.subrange(0, taken as int).push(e@));
                assert(all.subrange(0, taken as int).push(e@).to_multiset() =~= all.subrange(
                    0,
                    taken as int,
                ).to_multiset().insert(e@)) by {
                    vstd::seq_lib::to_multiset_build(all.subrange(0, taken as int), e@);
                }
                assert forall|a: int, b: int| 0 <= a < b < after.len() implies lex_le(
                    tree_key(#[trigger] after[a]),
                    tree_key(#[trigger] after[b]),
                ) by {
                    if b < j {
                        assert(after[a] == before[a] && after[b] == before[b]);
                    } else if b == j {
                        assert(after[a] == before[a]);
                    } else if a < j {
                        assert(after[a] == before[a] && after[b] == before[b - 1]);
                        lemma_lex_le_transitive(
                            tree_key(before[a]),
                            tree_key(e@),
                            tree_key(before[b - 1]),
                        );
                    } else if a == j {
                        assert(after[b] == before[b - 1]);
                    } else {
                        assert(after[a] == before[a - 1] && after[b] == before[b - 1]);
                    }
                }
            }
            taken = taken + 1;
        }
        assert(all.subrange(0, n as int) =~= all);
        let mut content: Vec<u8> = Vec::new();
        let mut i: usize = 0;
        while i < sorted.len()
            invariant
                i <= sorted@.len(),
                content@ == tree_content(entries_view(sorted@).take(i as int)),
            decreases sorted@.len() - i,
        {
            push_entry(&sorted[i], &mut content);
            proof {
                let v = entries_view(sorted@);
                lemma_tree_content_push(v.take(i as int), v[i as int]);
                assert(v.take(i + 1) =~= v.take(i as int).push(v[i as int]));
            }
            i = i + 1;
        }
        assert(entries_view(sorted@).take(sorted@.len() as int) =~= entries_view(sorted@));
        Self { content, entries: sorted }
    }
}

/// `outcome` with `pre` put in front of the entries it read.
pub open spec fn prepend_entries(pre: Seq<TreeEntryView>, outcome: TreeParse) -> TreeParse {
    match outcome {
        TreeParse::Entries(es) => TreeParse::Entries(pre + es),
        other => other,
    }
}

proof fn lemma_prepend_entries(a: Seq<TreeEntryView>, b: Seq<TreeEntryView>, o: TreeParse)
    ensures
        prepend_entries(a, prepend_entries(b, o)) == prepend_entries(a + b, o),
{
    match o {
        TreeParse::Entries(es) => {
            assert(a + (b + es) =~= a + b + es);
        },
        _ => {},
    }
}

/// One entry read from `content` at `pos`, whose space is at `space` and
/// whose NUL byte is at `nul`.
proof fn lemma_read_step(content: Seq<u8>, pos: int, space: int, nul: int)
    requires
        0 <= pos <= space < nul,
        nul + 21 <= content.len(),
        index_of(content.skip(pos), 32u8) == Some(space - pos),
        index_of(content.skip(space + 1), 0u8) == Some(nul - space - 1),
        valid_utf8(content.subrange(pos, space)),
        valid_utf8(content.subrange(space + 1, nul)),
    ensures
        ({
            let e = TreeEntryView {
                mode: decode_utf8(content.subrange(pos, space)),
                name: decode_utf8(content.subrange(space + 1, nul)),
                hash: content.subrange(nul + 1, nul + 21),
            };
            &&& parse_tree(content.skip(pos)) == prepend_entries(
                seq![e],
                parse_tree(content.skip(nul + 21)),
            )
            &&& content.subrange(pos, nul + 21) == entry_bytes(e)
        }),
{
    let rest = content.skip(pos);
    let sp = space - pos;
    lemma_index_of(content.skip(pos), 32u8);
    lemma_index_of(content.skip(space + 1), 0u8);
    assert(content[space] == 32u8);
    assert(content[nul] == 0u8);
    assert(rest.take(sp) =~= content.subrange(pos, space));
    let r2 = rest.skip(sp + 1);
    assert(r2 =~= content.skip(space + 1));
    let nl = nul - space - 1;
    assert(r2.take(nl) =~= content.subrange(space + 1, nul));
    let r3 = r2.skip(nl + 1);
    assert(r3 =~= content.skip(nul + 1));
    assert(r3.take(20) =~= content.subrange(nul + 1, nul + 21));
    assert(r3.skip(20) =~= content.skip(nul + 21));
    let e = TreeEntryView {
        mode: decode_utf8(content.subrange(pos, space)),
        name: decode_utf8(content.subrange(space + 1, nul)),
        hash: content.subrange(nul + 1, nul + 21),
    };
    match parse_tree(content.skip(nul + 21)) {
        TreeParse::Entries(es) => {},
        _ => {},
    }
    decode_utf8_encode_utf8(content.subrange(pos, space));
    decode_utf8_encode_utf8(content.subrange(space + 1, nul));
    assert(content.subrange(pos, nul + 21) =~= content.subrange(pos, space) + seq![32u8]
        + content.subrange(space + 1, nul) + seq![0u8] + content.subrange(nul + 1, nul + 21));
    assert(content.subrange(pos, nul + 21) =~= entry_bytes(e));
}

/// The outcome of reading stored tree entries.
enum EntriesRead {
    Entries(Vec<TreeEntry>),
    Failed(TigError),
    Truncated,
}

/// Reads the entries stored in `content`, one after the other.
#[verifier::rlimit(60)]
fn read_entries(content: &[u8]) -> (r: EntriesRead)
    ensures
        match parse_tree(content@) {
            TreeParse::Entries(es) => r matches EntriesRead::Entries(v) && entries_view(v@) == es
                && tree_content(es) == content@,
            TreeParse::Failed(e) => r matches EntriesRead::Failed(f) && f == e,
            TreeParse::Truncated => r is Truncated,
        },
{
    let mut entries: Vec<TreeEntry> = Vec::new();
    let mut pos: usize = 0;
    assert(content@.skip(0) =~= content@);
    assert(entries_view(entries@) + Seq::<TreeEntryView>::empty() =~= entries_view(entries@));
    assert(content@.take(0) =~= tree_content(entries_view(entries@)));
    while pos < content.len()
        invariant
            pos <= content@.len(),
            parse_tree(content@) == prepend_entries(
                entries_view(entries@),
                parse_tree(content@.skip(pos as int)),
            ),
            content@.take(pos as int) == tree_content(entries_view(entries@)),
        decreases content@.len() - pos,
    {
        let ghost rest = content@.skip(pos as int);
        let ghost pre = entries_view(entries@);
        proof {
            lemma_index_of(rest, 32u8);
        }
        let space = match find_byte(content, pos, 32) {
            Some(sp) => sp,
            None => return EntriesRead::Failed(TigError::TreeMissingSpace),
        };
        let ghost sp = (space - pos) as int;
        assert(rest.take(sp) =~= content@.subrange(pos as int, space as int));
        let mode = match str_from_utf8(&content[pos..space]) {
            Some(m) => m.to_owned(),
            None => return EntriesRead::Failed(TigError::InvalidUtf8),
        };
        let ghost r2 = rest.skip(sp + 1);
        assert(r2 =~= content@.skip(space + 1));
        proof {
            lemma_index_of(r2, 0u8);
        }
        let nul = match find_byte(content, space + 1, 0) {
            Some(n) => n,
            None => return EntriesRead::Failed(TigError::TreeMissingNul),
        };
        let ghost nl = (nul - space - 1) as int;
        assert(r2.take(nl) =~= content@.subrange(space + 1, nul as int));
        let name = match str_from_utf8(&content[space + 1..nul]) {
            Some(n) => n.to_owned(),
            None => return EntriesRead::Failed(TigError::InvalidUtf8),
        };
        let ghost r3 = r2.skip(nl + 1);
        assert(r3 =~= content@.skip(nul + 1));
        if content.len() - (nul + 1) < 20 {
            return EntriesRead::Truncated;
        }
        let start = nul + 1;
        let mut hash = [0u8; 20];
        let mut k: usize = 0;
        while k < 20
            invariant
                start + 20 <= content@.len(),
                content@.len() == content.len(),
                k <= 20,
                forall|i: int| 0 <= i < k ==> hash@[i] == content@[start + i],
            decreases 20 - k,
        {
            hash[k] = content[start + k];
            k = k + 1;
        }
        let entry = TreeEntry::new(mode, name, hash);
        assert(hash@ =~= content@.subrange(start as int, start + 20));
        entries.push(entry);
        pos = start + 20;
        proof {
            let e = entry@;
            lemma_read_step(content@, (pos - 20 - (nl + 1) - (sp + 1)) as int, space as int, nul as int);
            assert(entries_view(entries@) =~= pre + seq![e]);
            lemma_prepend_entries(pre, seq![e], parse_tree(content@.skip(pos as int)));
            lemma_tree_content_push(pre, e);
            assert(pre.push(e) =~= pre + seq![e]);
            let p0 = (pos - 20 - (nl + 1) - (sp + 1)) as int;
            assert(content@.take(pos as int) =~= content@.take(p0) + content@.subrange(p0, pos as int));
        }
    }
    assert(content@.skip(pos as int) =~= Seq::<u8>::empty());
    assert(entries_view(entries@) + Seq::<TreeEntryView>::empty() =~= entries_view(entries@));
    assert(content@.take(pos as int) =~= content@);
    EntriesRead::Entries(entries)
}

impl Tree {
    /// Whether reading the entries stored in `content` runs out of bytes in
    /// the middle of an entry's hash, where `Tree::parse` cannot go on.
    pub fn entries_truncated(content: &[u8]) -> (r: bool)
        ensures
            r == (parse_tree(content@) is Truncated),
    {
        match read_entries(content) {
            EntriesRead::Truncated => true,
            _ => false,
        }
    }

    /// The tree whose entries are stored in `content`.
    pub fn parse(content: Vec<u8>) -> (r: Result<Self, TigError>)
        requires
            !(parse_tree(content@) is Truncated),
        ensures
            match parse_tree(content@) {
                TreeParse::Entries(es) => r matches Ok(t) && t@ == es,
                TreeParse::Failed(e) => r matches Err(f) && f == e,
                TreeParse::Truncated => false,
            },
    {
        match read_entries(content.as_slice()) {
            EntriesRead::Entries(entries) => Ok(Self { content, entries }),
            EntriesRead::Failed(e) => Err(e),
            EntriesRead::Truncated => {
                assert(false);
                Err(TigError::TreeMissingNul)
            },
        }
    }

    /// The tree stored under a hash, from `raw`, the compressed bytes of its
    /// object file (found at `get_object_path(hash)`). Reading its entries
    /// must not run out of bytes in the middle of an entry's hash.
    pub fn from_hash(raw: &[u8]) -> (r: Result<Self, TigError>)
        requires
            stored_object_content(raw@) matches Ok(c) ==> !(parse_tree(c) is Truncated),
        ensures
            match stored_object_content(raw@) {
                Ok(c) => match parse_tree(c) {
                    TreeParse::Entries(es) => r matches Ok(t) && t@ == es,
                    TreeParse::Failed(e) => r matches Err(f) && f == e,
                    TreeParse::Truncated => false,
                },
                Err(e) => r matches Err(f) && f == e,
            },
    {
        let content = get_content_from_raw(raw)?;
        Self::parse(content)
    }

    /// The tree stored as `raw`, as `Tree::from_hash` reads it; `None` where
    /// its entries run out of bytes in the middle of an entry's hash, where
    /// `Tree::from_hash` cannot go on.
    pub fn from_hash_checked(raw: &[u8]) -> (r: Option<Result<Self, TigError>>)
        ensures
            match stored_object_content(raw@) {
                Ok(c) => match parse_tree(c) {
                    TreeParse::Entries(es) => r matches Some(Ok(t)) && t@ == es,
                    TreeParse::Failed(e) => r matches Some(Err(f)) && f == e,
                    TreeParse::Truncated => r is None,
                },
                Err(e) => r matches Some(Err(f)) && f == e,
            },
    {
        match get_content_from_raw(raw) {
            Ok(content) => {
                if Self::entries_truncated(content.as_slice()) {
                    return None;
                }
            },
            Err(_) => {},
        }
        Some(Self::from_hash(raw))
    }

    /// What the entries of this tree stand for when the files under `prefix`
    /// are listed: a file for each blob entry, a subtree for each tree entry,
    /// in order, up to and including the first entry with an unknown mode.
    pub fn expand(&self, prefix: Option<&str>) -> (r: Vec<TreeItem>)
        ensures
            r@.map_values(|i: TreeItem| i@) == expand_entries(
                self@,
                match prefix {
                    Some(p) => Some(p@),
                    None => None,
                },
            ),
    {
        let ghost pv = match prefix {
            Some(p) => Some(p@),
            None => None::<Seq<char>>,
        };
        let ghost es = self@;
        let mut r: Vec<TreeItem> = Vec::new();
        let mut i: usize = 0;
        assert(es.skip(0) =~= es);
        assert(Seq::<TreeItemView>::empty() + expand_entries(es, pv) =~= expand_entries(es, pv));
        while i < self.entries.len()
            invariant
                es == self@,
                es == entries_view(self.entries@),
                pv == (match prefix {
                    Some(p) => Some(p@),
                    None => None::<Seq<char>>,
                }),
                i <= self.entries@.len(),
                expand_entries(es, pv) == r@.map_values(|t: TreeItem| t@) + expand_entries(
                    es.skip(i as int),
                    pv,
                ),
            decreases self.entries@.len() - i,
        {
            let entry = &self.entries[i];
            let ghost e = es[i as int];
            assert(es.skip(i as int).drop_first() =~= es.skip(i + 1));
            assert(es.skip(i as int)[0] == e);
            assert(entry@ == e);
            let ghost before = r@;
            proof {
                reveal_strlit("40000");
                reveal_strlit("100644");
            }
            if str_eq(entry.mode.as_str(), "40000") {
                let sub = match prefix {
                    Some(p) => {
                        let mut s = String::from_str(p);
                        s.append("/");
                        s.append(entry.name.as_str());
                        proof {
                            reveal_strlit("/");
                        }
                        s
                    },
                    None => entry.name.clone(),
                };
                let hash = hex_encode(entry.hash.as_slice());
                assert(sub@ == sub_prefix(pv, e.name));
                assert(hash@ == hex_lower(e.hash));
                r.push(TreeItem::Dir(sub, hash));
            } else if str_eq(entry.mode.as_str(), "100644") {
                let path = match prefix {
                    Some(p) => join_path(p, entry.name.as_str()),
                    None => entry.name.clone(),
                };
                let hash = hex_encode(entry.hash.as_slice());
                assert(path@ == file_path(pv, e.name));
                assert(hash@ == hex_lower(e.hash));
                r.push(TreeItem::File(path, hash));
            } else {
                r.push(TreeItem::Invalid);
                proof {
                    assert(r@.map_values(|t: TreeItem| t@) =~= before.map_values(|t: TreeItem| t@)
                        + seq![TreeItemView::Invalid]);
                    assert(expand_entries(es.skip(i as int), pv) =~= seq![TreeItemView::Invalid]);
                }
                return r;
            }
            proof {
                let item = r@.last()@;
                assert(r@.map_values(|t: TreeItem| t@) =~= before.map_values(|t: TreeItem| t@)
                    + seq![item]);
                assert(expand_entries(es.skip(i as int), pv) == seq![item] + expand_entries(
                    es.skip(i + 1),
                    pv,
                ));
                assert(before.map_values(|t: TreeItem| t@) + seq![item] + expand_entries(
                    es.skip(i + 1),
                    pv,
                ) =~= before.map_values(|t: TreeItem| t@) + (seq![item] + expand_entries(
                    es.skip(i + 1),
                    pv,
                )));
            }
            i = i + 1;
        }
        assert(es.skip(i as int) =~= Seq::<TreeEntryView>::empty());
        assert(r@.map_values(|t: TreeItem| t@) + Seq::<TreeItemView>::empty() =~= r@.map_values(
            |t: TreeItem| t@,
        ));
        r
    }
}

/// Whether an entry can be stored and read back: its mode has no space, its
/// name no NUL character, and its hash is 20 bytes long.
pub open spec fn storable_entry(e: TreeEntryView) -> bool {
    &&& forall|i: int| 0 <= i < e.mode.len() ==> e.mode[i] != ' '
    &&& forall|i: int| 0 <= i < e.name.len() ==> e.name[i] != '\0'
    &&& e.hash.len() == 20
}

/// Reading the stored form of entries gives back the entries, as long as
/// each of them can be stored.
pub proof fn law_tree_content_roundtrip(es: Seq<TreeEntryView>)
    requires
        forall|i: int| 0 <= i < es.len() ==> storable_entry(#[trigger] es[i]),
    ensures
        parse_tree(tree_content(es)) == TreeParse::Entries(es),
    decreases es.len(),
{
    if es.len() == 0 {
        assert(tree_content(es) =~= Seq::<u8>::empty());
        assert(es =~= Seq::<TreeEntryView>::empty());
    } else {
        let e = es[0];
        assert(storable_entry(e));
        let tail = es.drop_first();
        assert forall|i: int| 0 <= i < tail.len() implies storable_entry(#[trigger] tail[i]) by {
            assert(tail[i] == es[i + 1]);
        }
        law_tree_content_roundtrip(tail);
        let m = encode_utf8(e.mode);
        let n = encode_utf8(e.name);
        let t = tree_content(tail);
        let rest = tree_content(es);
        assert(rest =~= m + seq![32u8] + n + seq![0u8] + e.hash + t);
        lemma_encode_utf8_ascii_absent(e.mode, ' ');
        lemma_encode_utf8_ascii_absent(e.name, '\0');
        assert(rest[m.len() as int] == 32u8);
        assert forall|k: int| 0 <= k < m.len() implies rest[k] != 32u8 by {
            assert(rest[k] == m[k]);
        }
        lemma_index_of_at(rest, 32u8, m.len() as int);
        assert(rest.take(m.len() as int) =~= m);
        encode_utf8_valid_utf8(e.mode);
        encode_utf8_decode_utf8(e.mode);
        let r2 = rest.skip(m.len() as int + 1);
        assert(r2 =~= n + seq![0u8] + e.hash + t);
        assert(r2[n.len() as int] == 0u8);
        assert forall|k: int| 0 <= k < n.len() implies r2[k] != 0u8 by {
            assert(r2[k] == n[k]);
        }
        lemma_index_of_at(r2, 0u8, n.len() as int);
        assert(r2.take(n.len() as int) =~= n);
        encode_utf8_valid_utf8(e.name);
        encode_utf8_decode_utf8(e.name);
        let r3 = r2.skip(n.len() as int + 1);
        assert(r3 =~= e.hash + t);
        assert(r3.take(20) =~= e.hash);
        assert(r3.skip(20) =~= t);
        assert(seq![e] + tail =~= es);
    }
}

impl TigObject for Tree {
    open spec fn spec_object_type(&self) -> Seq<char> {
        "tree"@
    }

    open spec fn spec_content(&self) -> Seq<u8> {
        tree_content(self@)
    }

    fn object_type(&self) -> (r: &'static str) {
        "tree"
    }

    fn content(&self) -> (r: Vec<u8>) {
        proof {
            use_type_invariant(self);
        }
        self.content.clone()
    }
}


/// Whether no sort key occurs twice among `es`, as in one directory, whose
/// names are distinct and hold no `/`.
pub open spec fn distinct_keys(es: Seq<TreeEntryView>) -> bool {
    forall|i: int, j: int| 0 <= i < j < es.len() ==> #[trigger] tree_key(es[i]) != #[trigger] tree_key(es[j])
}

/// A directory written twice gives the same tree, whatever order its entries
/// were listed in: two lists of the same entries, each in tree order with no
/// sort key twice (as `Tree::new` gives them for a directory), are equal, and
/// so are their stored contents and hashes.
pub proof fn law_tree_independent_of_entry_order(r1: Seq<TreeEntryView>, r2: Seq<TreeEntryView>)
    requires
        in_tree_order(r1),
        in_tree_order(r2),
        distinct_keys(r1),
        distinct_keys(r2),
        r1.to_multiset() == r2.to_multiset(),
    ensures
        r1 == r2,
        tree_content(r1) == tree_content(r2),
        object_hash("tree"@, tree_content(r1)) == object_hash("tree"@, tree_content(r2)),
    decreases r1.len(),
{
    broadcast use vstd::seq_lib::to_multiset_len, vstd::seq_lib::to_multiset_contains,
        vstd::seq_lib::to_multiset_remove;

    assert(r1.len() == r1.to_multiset().len());
    assert(r2.len() == r2.to_multiset().len());
    if r1.len() == 0 {
        assert(r1 =~= r2);
    } else {
        let e1 = r1[0];
        let e2 = r2[0];
        assert(r1.to_multiset().count(e1) > 0) by {
            assert(r1.contains(e1));
        }
        assert(r2.contains(e1));
        let j = choose|j: int| 0 <= j < r2.len() && r2[j] == e1;
        assert(r2.to_multiset().count(e2) > 0) by {
            assert(r2.contains(e2));
        }
        assert(r1.contains(e2));
        let i = choose|i: int| 0 <= i < r1.len() && r1[i] == e2;
        let n1 = tree_key(e1);
        let n2 = tree_key(e2);
        if j > 0 {
            assert(lex_le(tree_key(r2[0]), tree_key(r2[j])));
        } else {
            lemma_lex_le_total(n2, n2);
        }
        if i > 0 {
            assert(lex_le(tree_key(r1[0]), tree_key(r1[i])));
        } else {
            lemma_lex_le_total(n1, n1);
        }
        crate::utils::text_util::lemma_lex_le_antisymmetric(n1, n2);
        if j > 0 {
            assert(tree_key(r2[0]) != tree_key(r2[j]));
        }
        assert(e1 == e2);
        let t1 = r1.remove(0);
        let t2 = r2.remove(0);
        assert(t1 =~= r1.drop_first());
        assert(t2 =~= r2.drop_first());
        assert(t1.to_multiset() == t2.to_multiset());
        assert(in_tree_order(t1)) by {
            assert forall|a: int, b: int| 0 <= a < b < t1.len() implies lex_le(
                tree_key(#[trigger] t1[a]),
                tree_key(#[trigger] t1[b]),
            ) by {
                assert(t1[a] == r1[a + 1] && t1[b] == r1[b + 1]);
            }
        }
        assert(in_tree_order(t2)) by {
            assert forall|a: int, b: int| 0 <= a < b < t2.len() implies lex_le(
                tree_key(#[trigger] t2[a]),
                tree_key(#[trigger] t2[b]),
            ) by {
                assert(t2[a] == r2[a + 1] && t2[b] == r2[b + 1]);
            }
        }
        assert(distinct_keys(t1)) by {
            assert forall|a: int, b: int| 0 <= a < b < t1.len() implies #[trigger] tree_key(t1[a])
                != #[trigger] tree_key(t1[b]) by {
                assert(t1[a] == r1[a + 1] && t1[b] == r1[b + 1]);
            }
        }
        assert(distinct_keys(t2)) by {
            assert forall|a: int, b: int| 0 <= a < b < t2.len() implies #[trigger] tree_key(t2[a])
                != #[trigger] tree_key(t2[b]) by {
                assert(t2[a] == r2[a + 1] && t2[b] == r2[b + 1]);
            }
        }
        law_tree_independent_of_entry_order(t1, t2);
        assert(r1 =~= seq![e1] + t1);
        assert(r2 =~= seq![e2] + t2);
    }
}


/// Listing a stored tree names each file as scanning the working directory
/// does: for an entry name without `/` under a prefix that is empty (the
/// root) or neither empty nor ends in `/`, the path of a file and the prefix
/// of a subtree are the prefix, `/` and the name.
pub proof fn law_listed_paths_match_scan(prefix: Seq<char>, name: Seq<char>)
    requires
        forall|k: int| 0 <= k < name.len() ==> name[k] != '/',
        prefix.len() > 0 ==> prefix.last() != '/',
    ensures
        file_path(
            if prefix.len() == 0 {
                None
            } else {
                Some(prefix)
            },
            name,
        ) == relative_path_of(prefix, name),
        sub_prefix(
            if prefix.len() == 0 {
                None
            } else {
                Some(prefix)
            },
            name,
        ) == relative_path_of(prefix, name),
{
    reveal_strlit("/");
    if name.len() > 0 {
        assert(name[0] != '/');
    }
    assert(seq!['/'] =~= "/"@);
}


/// Two entry lists with the same entries either both have a sort key twice
/// or neither does.
proof fn lemma_distinct_keys_multiset(a: Seq<TreeEntryView>, b: Seq<TreeEntryView>)
    requires
        distinct_keys(a),
        a.to_multiset() == b.to_multiset(),
    ensures
        distinct_keys(b),
{
    broadcast use vstd::seq_lib::to_multiset_contains, vstd::seq_lib::to_multiset_remove,
        vstd::multiset::group_multiset_axioms;

    assert forall|i: int, j: int| 0 <= i < j < b.len() implies #[trigger] tree_key(b[i])
        != #[trigger] tree_key(b[j]) by {
        if tree_key(b[i]) == tree_key(b[j]) {
            let x = b[i];
            let y = b[j];
            assert(b.contains(x));
            assert(a.to_multiset().count(x) > 0);
            let p = choose|p: int| 0 <= p < a.len() && a[p] == x;
            if x == y {
                let bj = b.remove(j);
                assert(bj[i] == x);
                assert(bj.contains(x));
                assert(bj.to_multiset().count(x) > 0);
                assert(b.to_multiset().count(x) >= 2);
                let ap = a.remove(p);
                assert(ap.to_multiset().count(x) > 0);
                assert(ap.contains(x));
                let q1 = choose|q: int| 0 <= q < ap.len() && ap[q] == x;
                let q = if q1 < p {
                    q1
                } else {
                    q1 + 1
                };
                assert(a[q] == x);
                if q < p {
                    assert(tree_key(a[q]) != tree_key(a[p]));
                } else {
                    assert(tree_key(a[p]) != tree_key(a[q]));
                }
            } else {
                assert(b.contains(y));
                assert(a.to_multiset().count(y) > 0);
                let q = choose|q: int| 0 <= q < a.len() && a[q] == y;
                if q < p {
                    assert(tree_key(a[q]) != tree_key(a[p]));
                } else {
                    assert(tree_key(a[p]) != tree_key(a[q]));
                }
            }
        }
    }
}

/// Writing an unchanged directory twice gives the same tree and hash: two
/// listings of the same entries, in any order and with no sort key twice (as
/// in a directory), give equal trees once put in tree order with their
/// entries kept (as `Tree::new` and `write_tree` do).
pub proof fn law_write_tree_deterministic(
    listing1: Seq<TreeEntryView>,
    listing2: Seq<TreeEntryView>,
    tree1: Seq<TreeEntryView>,
    tree2: Seq<TreeEntryView>,
)
    requires
        distinct_keys(listing1),
        listing1.to_multiset() == listing2.to_multiset(),
        tree1.to_multiset() == listing1.to_multiset(),
        tree2.to_multiset() == listing2.to_multiset(),
        in_tree_order(tree1),
        in_tree_order(tree2),
    ensures
        tree1 == tree2,
        object_hash("tree"@, tree_content(tree1)) == object_hash("tree"@, tree_content(tree2)),
{
    lemma_distinct_keys_multiset(listing1, tree1);
    lemma_distinct_keys_multiset(listing1, tree2);
    law_tree_independent_of_entry_order(tree1, tree2);
}


/// The item that listing a tree gives for the entry `e` under `prefix`: a
/// subtree for a tree entry, a file for a blob entry, each with its path and
/// its hash in hexadecimal.
pub open spec fn listed_item(e: TreeEntryView, prefix: Option<Seq<char>>) -> TreeItemView {
    if e.mode == dir_mode() {
        TreeItemView::Dir(sub_prefix(prefix, e.name), hex_lower(e.hash))
    } else {
        TreeItemView::File(file_path(prefix, e.name), hex_lower(e.hash))
    }
}

/// Listing a tree names every entry: where each entry is a blob (100644) or
/// a tree (40000), there is one item per entry, in order, the entry's own
/// path and hash; at the top (no prefix) the path is the entry's name.
pub proof fn law_listing_names_every_entry(es: Seq<TreeEntryView>, prefix: Option<Seq<char>>)
    requires
        forall|i: int| 0 <= i < es.len() ==> (#[trigger] es[i]).mode == "100644"@ || es[i].mode == "40000"@,
    ensures
        expand_entries(es, prefix).len() == es.len(),
        forall|i: int| 0 <= i < es.len() ==> #[trigger] expand_entries(es, prefix)[i] == listed_item(es[i], prefix),
        prefix is None ==> forall|i: int|
            0 <= i < es.len() ==> (#[trigger] expand_entries(es, prefix)[i] matches TreeItemView::File(p, h)
                && p == es[i].name && h == hex_lower(es[i].hash)) || (expand_entries(es, prefix)[i] matches TreeItemView::Dir(p, h)
                && p == es[i].name && h == hex_lower(es[i].hash)),
    decreases es.len(),
{
    reveal_strlit("100644");
    reveal_strlit("40000");
    if es.len() > 0 {
        let t = es.drop_first();
        assert forall|i: int| 0 <= i < t.len() implies (#[trigger] t[i]).mode == "100644"@ || t[i].mode == "40000"@ by {
            assert(t[i] == es[i + 1]);
        }
        law_listing_names_every_entry(t, prefix);
        let r = expand_entries(es, prefix);
        assert(r == seq![listed_item(es[0], prefix)] + expand_entries(t, prefix));
        assert forall|i: int| 0 <= i < es.len() implies #[trigger] expand_entries(es, prefix)[i] == listed_item(es[i], prefix) by {
            if i > 0 {
                assert(r[i] == expand_entries(t, prefix)[i - 1]);
                assert(t[i - 1] == es[i]);
            }
        }
    }
}

} // verus!
