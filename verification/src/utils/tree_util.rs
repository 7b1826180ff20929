//! Writing a directory as a tree.
use vstd::prelude::*;

use crate::models::objects::tig_object::{object_hash, TigObject};
use crate::models::objects::tree::{entries_keyed, entries_view, in_tree_order, Tree, TreeEntry};

verus! {

/// The tree of one directory's `entries` in git's tree order (entries of
/// one sort key in their order), and its hash. The
/// caller stores the tree under that hash.
pub fn write_tree(entries: Vec<TreeEntry>) -> (r: (Tree, String))
    ensures
        r.0@.to_multiset() == entries_view(entries@).to_multiset(),
        in_tree_order(r.0@),
        forall|name: Seq<u8>| #[trigger] entries_keyed(r.0@, name) == entries_keyed(
            entries_view(entries@),
            name,
        ),
        r.1@ == object_hash("tree"@, r.0.spec_content()),
{
    let tree = Tree::new(entries);
    let hash = tree.hash();
    (tree, hash)
}

} // verus!
