//! Trees, as far as the rewrite changes them: the one entry at the
//! submodule's path.

use crate::oid::Oid;
use vstd::prelude::*;
use vstd::string::*;

verus! {

/// The mode of a tree entry that names a directory.
pub const SUBTREE_MODE: u32 = 0o040000;

/// The mode of a tree entry that names a commit of a submodule.
pub const GITLINK_MODE: u32 = 0o160000;

/// An entry of a tree.
#[derive(Debug, PartialEq, Eq)]
pub struct TreeEntry {
    /// The name of the entry within its tree.
    pub name: Vec<u8>,
    pub mode: u32,
    /// The object that the entry names.
    pub id: Oid,
}

/// What a [`TreeEntry`] holds.
pub struct TreeEntryView {
    pub name: Seq<u8>,
    pub mode: u32,
    pub id: Oid,
}

impl View for TreeEntry {
    type V = TreeEntryView;

    open spec fn view(&self) -> TreeEntryView {
        TreeEntryView { name: self.name@, mode: self.mode, id: self.id }
    }
}

/// A change to a tree: the entry of one name is taken out, then one entry
/// is put in.
#[derive(Debug, PartialEq, Eq)]
pub struct TreeEdit {
    /// The name of the entry to take out.
    pub remove: Vec<u8>,
    /// The entry to put in.
    pub insert: TreeEntry,
}

/// What a [`TreeEdit`] holds.
pub struct TreeEditView {
    pub remove: Seq<u8>,
    pub insert: TreeEntryView,
}

impl View for TreeEdit {
    type V = TreeEditView;

    open spec fn view(&self) -> TreeEditView {
        TreeEditView { remove: self.remove@, insert: self.insert@ }
    }
}

/// The tree that `edit` makes of `tree`. A tree is taken as what it holds
/// for each name: the mode of the entry and the object that it names.
pub open spec fn tree_after(tree: Map<Seq<u8>, (u32, Oid)>, edit: TreeEditView) -> Map<
    Seq<u8>,
    (u32, Oid),
> {
    tree.remove(edit.remove).insert(edit.insert.name, (edit.insert.mode, edit.insert.id))
}

/// The change that puts the tree `subtree` where the submodule was
/// mounted: whatever the tree holds under the name `dir` goes, and a
/// directory of that name comes, holding `subtree`.
pub open spec fn splice_of(dir: Seq<u8>, subtree: Oid) -> TreeEditView {
    TreeEditView {
        remove: dir,
        insert: TreeEntryView { name: dir, mode: SUBTREE_MODE, id: subtree },
    }
}

/// Says how to change the tree of a host commit: the pointer to the
/// submodule goes, and the submodule's tree comes in its place.
///
/// `subtree` is the tree found at the submodule's path in the rewritten
/// submodule commit that stands for the pointer.
pub fn subtree_splice(submodule_dir: &str, subtree: Oid) -> (edit: TreeEdit)
    ensures
        edit@ == splice_of(submodule_dir.spec_bytes(), subtree),
{
    TreeEdit {
        remove: submodule_dir.as_bytes_vec(),
        insert: TreeEntry { name: submodule_dir.as_bytes_vec(), mode: SUBTREE_MODE, id: subtree },
    }
}

/// After the splice, the tree holds a directory where the submodule was
/// mounted, and no gitlink; every other entry is as it was.
pub proof fn lemma_splice_replaces_pointer(
    tree: Map<Seq<u8>, (u32, Oid)>,
    dir: Seq<u8>,
    subtree: Oid,
)
    ensures
        tree_after(tree, splice_of(dir, subtree)).contains_key(dir),
        tree_after(tree, splice_of(dir, subtree))[dir] == (SUBTREE_MODE, subtree),
        tree_after(tree, splice_of(dir, subtree))[dir].0 != GITLINK_MODE,
        forall|name: Seq<u8>|
            name != dir ==> {
                &&& #[trigger] tree_after(tree, splice_of(dir, subtree)).contains_key(name)
                    == tree.contains_key(name)
                &&& tree.contains_key(name) ==> tree_after(tree, splice_of(dir, subtree))[name]
                    == tree[name]
            },
{
}

} // verus!
