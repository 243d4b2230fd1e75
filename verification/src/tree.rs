//! A directory tree held in memory: the entries of a file system as far as
//! the tool reads and changes them.
//!
//! A tree is a list of entries, each a path with what is there: a directory,
//! or a file with its bytes. The order of the list is the order in which a
//! directory shows its entries. The root is a directory that is never listed.
//! A tree may list an entry without the directories that lead to it; what
//! an operation needs to be there, it looks up.
//!
//! Removing a directory, making one and copying a file change the entries
//! and are recorded as changes, so that they can be repeated elsewhere in
//! the same order.

use crate::path::TreePath;
use crate::tree_laws::{
    lemma_find, lemma_push_well_formed, lemma_remove_tree_well_formed, lemma_update_well_formed,
};
use vstd::prelude::*;

verus! {

/// What an entry is, in specifications.
pub enum NodeView {
    Directory,
    File(Seq<u8>),
}

/// An entry of a tree, in specifications.
pub struct EntryView {
    pub path: Seq<Seq<char>>,
    pub node: NodeView,
}

/// What an entry is: a directory, or a file with its content.
#[derive(Debug, PartialEq, Eq)]
pub enum Node {
    Directory,
    File(Vec<u8>),
}

impl View for Node {
    type V = NodeView;

    open spec fn view(&self) -> NodeView {
        match self {
            Node::Directory => NodeView::Directory,
            Node::File(content) => NodeView::File(content@),
        }
    }
}

impl Clone for Node {
    fn clone(&self) -> (copy: Self)
        ensures
            copy@ == self@,
    {
        match self {
            Node::Directory => Node::Directory,
            Node::File(content) => {
                let bytes = content.clone();
                assert(bytes@ =~= content@);
                Node::File(bytes)
            },
        }
    }
}

/// One entry of a tree.
#[derive(Debug, PartialEq, Eq)]
pub struct Entry {
    pub path: TreePath,
    pub node: Node,
}

impl View for Entry {
    type V = EntryView;

    open spec fn view(&self) -> EntryView {
        EntryView { path: self.path@, node: self.node@ }
    }
}

impl Clone for Entry {
    fn clone(&self) -> (copy: Self)
        ensures
            copy@ == self@,
    {
        Entry { path: self.path.clone(), node: self.node.clone() }
    }
}

/// A change to a tree, in specifications.
pub enum ChangeView {
    RemoveDirAll(Seq<Seq<char>>),
    CreateDirAll(Seq<Seq<char>>),
    CopyFile { from: Seq<Seq<char>>, to: Seq<Seq<char>> },
}

/// A change that was made to a tree, as the one who holds the real
/// directories has to repeat it there.
#[derive(Debug, PartialEq, Eq)]
pub enum Change {
    /// The directory at this path was removed with all that was below it.
    RemoveDirAll(TreePath),
    /// This path was made a directory, with the directories that lead to it.
    CreateDirAll(TreePath),
    /// The file at `from` was copied to `to`.
    CopyFile { from: TreePath, to: TreePath },
}

impl View for Change {
    type V = ChangeView;

    open spec fn view(&self) -> ChangeView {
        match self {
            Change::RemoveDirAll(path) => ChangeView::RemoveDirAll(path@),
            Change::CreateDirAll(path) => ChangeView::CreateDirAll(path@),
            Change::CopyFile { from, to } => ChangeView::CopyFile { from: from@, to: to@ },
        }
    }
}

/// The views of a list of changes.
pub open spec fn change_views(changes: Seq<Change>) -> Seq<ChangeView> {
    Seq::new(changes.len(), |i: int| changes[i]@)
}

/// What a directory shows of one of its entries, in specifications.
pub struct DirEntryView {
    pub path: Seq<Seq<char>>,
    pub is_dir: bool,
}

/// What a directory shows of one of its entries: the path and the kind.
#[derive(Debug, PartialEq, Eq)]
pub struct DirEntry {
    pub path: TreePath,
    pub is_dir: bool,
}

impl View for DirEntry {
    type V = DirEntryView;

    open spec fn view(&self) -> DirEntryView {
        DirEntryView { path: self.path@, is_dir: self.is_dir }
    }
}

/// The views of a list of entries.
pub open spec fn entry_views(entries: Seq<Entry>) -> Seq<EntryView> {
    Seq::new(entries.len(), |i: int| entries[i]@)
}

/// The views of a listing.
pub open spec fn listing_views(listing: Seq<DirEntry>) -> Seq<DirEntryView> {
    Seq::new(listing.len(), |i: int| listing[i]@)
}

/// The index of the first entry at `path`, if there is one.
pub open spec fn find(tree: Seq<EntryView>, path: Seq<Seq<char>>) -> Option<int>
    decreases tree.len(),
{
    if tree.len() == 0 {
        None
    } else {
        match find(tree.drop_last(), path) {
            Some(i) => Some(i),
            None => if tree.last().path == path {
                Some(tree.len() - 1)
            } else {
                None
            },
        }
    }
}

/// What is at `path`, if anything.
pub open spec fn node_at(tree: Seq<EntryView>, path: Seq<Seq<char>>) -> Option<NodeView> {
    match find(tree, path) {
        Some(i) => Some(tree[i].node),
        None => None,
    }
}

/// Whether `path` is a directory: the root, or an entry that is one.
pub open spec fn is_directory(tree: Seq<EntryView>, path: Seq<Seq<char>>) -> bool {
    path.len() == 0 || node_at(tree, path) == Some(NodeView::Directory)
}

/// The entries that are neither `base` nor below it.
pub open spec fn outside(base: Seq<Seq<char>>) -> spec_fn(EntryView) -> bool {
    |e: EntryView| !base.is_prefix_of(e.path)
}

/// The tree without `base` and all that is below it.
pub open spec fn remove_tree(tree: Seq<EntryView>, base: Seq<Seq<char>>) -> Seq<EntryView> {
    tree.filter(outside(base))
}

/// Whether `path` lies directly in the directory `dir`.
pub open spec fn lies_in(dir: Seq<Seq<char>>, path: Seq<Seq<char>>) -> bool {
    path.len() == dir.len() + 1 && dir.is_prefix_of(path)
}

/// The entries that lie directly in the directory `dir`.
pub open spec fn child_of(dir: Seq<Seq<char>>) -> spec_fn(EntryView) -> bool {
    |e: EntryView| lies_in(dir, e.path)
}

/// What a directory shows of an entry.
pub open spec fn shown(e: EntryView) -> DirEntryView {
    DirEntryView { path: e.path, is_dir: e.node is Directory }
}

/// What the directory `dir` shows: its entries, in the order of the tree.
pub open spec fn listing(tree: Seq<EntryView>, dir: Seq<Seq<char>>) -> Seq<DirEntryView> {
    tree.filter(child_of(dir)).map_values(|e: EntryView| shown(e))
}

/// Whether a file stands where a directory of `path` would have to be:
/// at `path` itself or at one of the directories that lead to it.
pub open spec fn blocked(tree: Seq<EntryView>, path: Seq<Seq<char>>) -> bool {
    exists|k: int| 1 <= k <= path.len() && #[trigger] node_at(tree, path.take(k)) is Some
        && node_at(tree, path.take(k))->0 is File
}

/// The tree with a directory at `path` and at each directory that leads to
/// it: those that are missing are added at the end, outermost first.
pub open spec fn with_directories(tree: Seq<EntryView>, path: Seq<Seq<char>>) -> Seq<EntryView>
    decreases path.len(),
{
    if path.len() == 0 {
        tree
    } else {
        let base = with_directories(tree, path.drop_last());
        if find(base, path) is Some {
            base
        } else {
            base.push(EntryView { path, node: NodeView::Directory })
        }
    }
}

/// Whether a file can be written at `path`: it has a name, its directory is
/// there, and no directory stands in its place.
pub open spec fn writable(tree: Seq<EntryView>, path: Seq<Seq<char>>) -> bool {
    &&& path.len() > 0
    &&& is_directory(tree, path.drop_last())
    &&& node_at(tree, path) != Some(NodeView::Directory)
}

/// The tree with a file of this content at `path`: in the place of the file
/// that was there, or else at the end.
pub open spec fn with_file(tree: Seq<EntryView>, path: Seq<Seq<char>>, content: Seq<u8>) -> Seq<
    EntryView,
> {
    let entry = EntryView { path, node: NodeView::File(content) };
    match find(tree, path) {
        Some(i) => tree.update(i, entry),
        None => tree.push(entry),
    }
}

/// Removing the directory at `base` with all that is below it; `None`
/// where no directory is listed there.
pub open spec fn remove_dir(tree: Seq<EntryView>, base: Seq<Seq<char>>) -> Option<Seq<EntryView>> {
    if node_at(tree, base) == Some(NodeView::Directory) {
        Some(remove_tree(tree, base))
    } else {
        None
    }
}

/// Making `path` a directory, with the directories that lead to it; `None`
/// where a file is in the way.
pub open spec fn create_dirs(tree: Seq<EntryView>, path: Seq<Seq<char>>) -> Option<Seq<EntryView>> {
    if blocked(tree, path) {
        None
    } else {
        Some(with_directories(tree, path))
    }
}

/// Copying the file at `from` to `to`; `None` where `from` is no file or
/// `to` cannot be written.
pub open spec fn copy_file(tree: Seq<EntryView>, from: Seq<Seq<char>>, to: Seq<Seq<char>>) -> Option<
    Seq<EntryView>,
> {
    match node_at(tree, from) {
        Some(NodeView::File(content)) => if writable(tree, to) {
            Some(with_file(tree, to, content))
        } else {
            None
        },
        _ => None,
    }
}

/// The tree after one change; a change that cannot be made leaves it as it
/// is.
pub open spec fn applied(tree: Seq<EntryView>, change: ChangeView) -> Seq<EntryView> {
    let made = match change {
        ChangeView::RemoveDirAll(path) => remove_dir(tree, path),
        ChangeView::CreateDirAll(path) => create_dirs(tree, path),
        ChangeView::CopyFile { from, to } => copy_file(tree, from, to),
    };
    match made {
        Some(after) => after,
        None => tree,
    }
}

/// The tree after these changes, made one after the other.
pub open spec fn replayed(tree: Seq<EntryView>, changes: Seq<ChangeView>) -> Seq<EntryView>
    decreases changes.len(),
{
    if changes.len() == 0 {
        tree
    } else {
        applied(replayed(tree, changes.drop_last()), changes.last())
    }
}

/// Whether no two entries share a path and none stands at the root.
pub open spec fn well_formed(tree: Seq<EntryView>) -> bool {
    &&& forall|i: int| 0 <= i < tree.len() ==> (#[trigger] tree[i]).path.len() > 0
    &&& forall|i: int, j: int|
        0 <= i < j < tree.len() ==> (#[trigger] tree[i]).path != (#[trigger] tree[j]).path
}

/// A tree held in memory. A tree that is built from `new` by the methods
/// below is well formed: no two of its entries share a path.
pub struct FileTree {
    entries: Vec<Entry>,
    changes: Vec<Change>,
}

impl View for FileTree {
    type V = Seq<EntryView>;

    closed spec fn view(&self) -> Seq<EntryView> {
        entry_views(self.entries@)
    }
}

impl FileTree {
    /// The changes that were made to the tree and not yet taken from it,
    /// oldest first.
    pub closed spec fn changes(&self) -> Seq<ChangeView> {
        change_views(self.changes@)
    }

    /// The tree that holds nothing but the root.
    pub fn new() -> (tree: FileTree)
        ensures
            tree@ == Seq::<EntryView>::empty(),
            tree.changes() == Seq::<ChangeView>::empty(),
            well_formed(tree@),
    {
        let tree = FileTree { entries: Vec::new(), changes: Vec::new() };
        assert(tree@ =~= Seq::<EntryView>::empty());
        assert(tree.changes() =~= Seq::<ChangeView>::empty());
        tree
    }

    /// The tree of these entries, in their order, with no change made yet.
    pub fn from_entries(entries: Vec<Entry>) -> (tree: FileTree)
        ensures
            tree@ == entry_views(entries@),
            tree.changes() == Seq::<ChangeView>::empty(),
    {
        let tree = FileTree { entries, changes: Vec::new() };
        assert(tree.changes() =~= Seq::<ChangeView>::empty());
        tree
    }

    /// Whether the tree is well formed: no two entries share a path and
    /// none stands at the root.
    pub fn is_well_formed(&self) -> (yes: bool)
        ensures
            yes == well_formed(self@),
    {
        let mut i: usize = 0;
        while i < self.entries.len()
            invariant
                i <= self.entries.len(),
                forall|a: int| 0 <= a < i ==> (#[trigger] self@[a]).path.len() > 0,
                forall|a: int, b: int|
                    0 <= a < b < i ==> (#[trigger] self@[a]).path != (#[trigger] self@[b]).path,
            decreases self.entries.len() - i,
        {
            if self.entries[i].path.len() == 0 {
                assert(self@[i as int].path.len() == 0);
                return false;
            }
            let mut j: usize = 0;
            while j < i
                invariant
                    j <= i,
                    i < self.entries.len(),
                    forall|a: int| 0 <= a < j ==> (#[trigger] self@[a]).path != self@[i as int].path,
                decreases i - j,
            {
                if self.entries[j].path.same_as(&self.entries[i].path) {
                    assert(self@[j as int].path == self@[i as int].path);
                    return false;
                }
                j += 1;
            }
            i += 1;
        }
        true
    }

    /// Hands out the changes that were made since the tree was built or
    /// since they were last taken, oldest first. The entries stay.
    pub fn take_changes(&mut self) -> (changes: Vec<Change>)
        ensures
            change_views(changes@) == old(self).changes(),
            final(self).changes() == Seq::<ChangeView>::empty(),
            final(self)@ == old(self)@,
    {
        let mut changes: Vec<Change> = Vec::new();
        core::mem::swap(&mut self.changes, &mut changes);
        assert(self.changes() =~= Seq::<ChangeView>::empty());
        changes
    }

    /// The entries, in the order of the tree.
    pub fn entries(&self) -> (entries: &Vec<Entry>)
        ensures
            entry_views(entries@) == self@,
    {
        &self.entries
    }

    /// The number of entries.
    pub fn len(&self) -> (n: usize)
        ensures
            n == self@.len(),
    {
        self.entries.len()
    }

    fn locate(&self, path: &TreePath) -> (found: Option<usize>)
        ensures
            match found {
                Some(i) => find(self@, path@) == Some(i as int) && i < self.entries@.len(),
                None => find(self@, path@) is None,
            },
    {
        let mut found: Option<usize> = None;
        let mut i: usize = 0;
        while i < self.entries.len()
            invariant
                i <= self.entries.len(),
                match found {
                    Some(k) => find(self@.take(i as int), path@) == Some(k as int) && k < i,
                    None => find(self@.take(i as int), path@) is None,
                },
            decreases self.entries.len() - i,
        {
            proof {
                assert(self@.take(i + 1).drop_last() =~= self@.take(i as int));
                assert(self@.take(i + 1).last() == self.entries@[i as int]@);
            }
            if found.is_none() && self.entries[i].path.same_as(path) {
                found = Some(i);
            }
            i += 1;
        }
        assert(self@.take(self@.len() as int) =~= self@);
        found
    }

    /// Whether `path` is a directory of the tree.
    pub fn is_dir(&self, path: &TreePath) -> (yes: bool)
        ensures
            yes == is_directory(self@, path@),
    {
        if path.len() == 0 {
            return true;
        }
        match self.locate(path) {
            Some(i) => match &self.entries[i].node {
                Node::Directory => true,
                Node::File(_) => false,
            },
            None => false,
        }
    }

    /// Whether anything is at `path`.
    pub fn holds(&self, path: &TreePath) -> (yes: bool)
        ensures
            yes == (path@.len() == 0 || node_at(self@, path@) is Some),
    {
        path.len() == 0 || self.locate(path).is_some()
    }

    /// The content of the file at `path`; `None` where no file is there.
    pub fn read_file(&self, path: &TreePath) -> (content: Option<Vec<u8>>)
        ensures
            match node_at(self@, path@) {
                Some(NodeView::File(bytes)) => content is Some && content->0@ == bytes,
                _ => content is None,
            },
    {
        match self.locate(path) {
            Some(i) => match &self.entries[i].node {
                Node::Directory => None,
                Node::File(bytes) => {
                    let copy = bytes.clone();
                    assert(copy@ =~= bytes@);
                    Some(copy)
                },
            },
            None => None,
        }
    }

    /// Removes the directory at `path` with all that is below it. Returns
    /// whether it did: where no directory is listed at `path`, nothing
    /// changes.
    pub fn remove_dir_all(&mut self, path: &TreePath) -> (removed: bool)
        ensures
            well_formed(old(self)@) ==> well_formed(final(self)@),
            match remove_dir(old(self)@, path@) {
                Some(tree) => removed && final(self)@ == tree && final(self).changes() == old(
                    self,
                ).changes().push(ChangeView::RemoveDirAll(path@)),
                None => !removed && final(self)@ == old(self)@ && final(self).changes() == old(
                    self,
                ).changes(),
            },
    {
        let listed = match self.locate(path) {
            Some(i) => match &self.entries[i].node {
                Node::Directory => true,
                Node::File(_) => false,
            },
            None => false,
        };
        if !listed {
            return false;
        }
        let mut kept: Vec<Entry> = Vec::new();
        let mut i: usize = 0;
        while i < self.entries.len()
            invariant
                i <= self.entries.len(),
                entry_views(kept@) == remove_tree(self@.take(i as int), path@),
            decreases self.entries.len() - i,
        {
            let entry = &self.entries[i];
            proof {
                broadcast use Seq::lemma_filter_push;

                assert(self@.take(i + 1) =~= self@.take(i as int).push(entry@));
            }
            let ghost before = kept@;
            if !entry.path.starts_with(path) {
                kept.push(entry.clone());
                assert(entry_views(kept@) =~= entry_views(before).push(entry@));
            }
            i += 1;
        }
        proof {
            assert(self@.take(self@.len() as int) =~= self@);
            if well_formed(self@) {
                lemma_remove_tree_well_formed(self@, path@);
            }
        }
        self.entries = kept;
        let ghost recorded = self.changes();
        let change = Change::RemoveDirAll(path.clone());
        self.changes.push(change);
        assert(self.changes() =~= recorded.push(change@));
        true
    }

    /// Makes `path` a directory, adding it and the directories that lead to
    /// it where they are missing. Returns whether it did: where a file is in
    /// the way, nothing changes.
    pub fn create_dir_all(&mut self, path: &TreePath) -> (created: bool)
        ensures
            well_formed(old(self)@) ==> well_formed(final(self)@),
            match create_dirs(old(self)@, path@) {
                Some(tree) => created && final(self)@ == tree && final(self).changes() == old(
                    self,
                ).changes().push(ChangeView::CreateDirAll(path@)),
                None => !created && final(self)@ == old(self)@ && final(self).changes() == old(
                    self,
                ).changes(),
            },
    {
        let mut prefix = TreePath::root();
        let mut k: usize = 0;
        while k < path.parts.len()
            invariant
                k <= path.parts.len(),
                prefix@ == path@.take(k as int),
                self@ == old(self)@,
                self.changes() == old(self).changes(),
                forall|j: int|
                    1 <= j <= k ==> !(#[trigger] node_at(self@, path@.take(j)) is Some && node_at(
                        self@,
                        path@.take(j),
                    )->0 is File),
            decreases path.parts.len() - k,
        {
            prefix = prefix.join(path.parts[k].as_str());
            assert(prefix@ =~= path@.take(k + 1));
            match self.locate(&prefix) {
                Some(i) => match &self.entries[i].node {
                    Node::Directory => {},
                    Node::File(_) => {
                        assert(self@[i as int].node is File);
                        assert(node_at(self@, path@.take(k + 1)) == Some(self@[i as int].node));
                        assert(blocked(self@, path@));
                        return false;
                    },
                },
                None => {},
            }
            k += 1;
        }
        assert(!blocked(self@, path@));
        let mut prefix = TreePath::root();
        let mut k: usize = 0;
        while k < path.parts.len()
            invariant
                k <= path.parts.len(),
                prefix@ == path@.take(k as int),
                self@ == with_directories(old(self)@, path@.take(k as int)),
                self.changes() == old(self).changes(),
                well_formed(old(self)@) ==> well_formed(self@),
            decreases path.parts.len() - k,
        {
            prefix = prefix.join(path.parts[k].as_str());
            proof {
                assert(prefix@ =~= path@.take(k + 1));
                assert(path@.take(k + 1).drop_last() =~= path@.take(k as int));
            }
            if self.locate(&prefix).is_none() {
                let ghost before = self@;
                let entry = Entry { path: prefix.clone(), node: Node::Directory };
                proof {
                    if well_formed(before) {
                        lemma_push_well_formed(before, entry@);
                    }
                    assert(entry_views(self.entries@.push(entry)) =~= before.push(entry@));
                }
                self.entries.push(entry);
            }
            k += 1;
        }
        assert(path@.take(path@.len() as int) =~= path@);
        let ghost recorded = self.changes();
        let change = Change::CreateDirAll(path.clone());
        self.changes.push(change);
        assert(self.changes() =~= recorded.push(change@));
        true
    }

    /// Puts a file of this content at `path`, in the place of the file that
    /// is there or as a new entry. Returns whether it did: where the path is
    /// the root, its directory is missing, or a directory stands at `path`,
    /// nothing changes.
    fn put_file(&mut self, path: &TreePath, content: Vec<u8>) -> (written: bool)
        ensures
            well_formed(old(self)@) ==> well_formed(final(self)@),
            final(self).changes() == old(self).changes(),
            writable(old(self)@, path@) ==> written && final(self)@ == with_file(
                old(self)@,
                path@,
                content@,
            ),
            !writable(old(self)@, path@) ==> !written && final(self)@ == old(self)@,
    {
        if path.len() == 0 {
            return false;
        }
        let parent = path.parent();
        if !self.is_dir(&parent) {
            return false;
        }
        let ghost before = self@;
        let entry = Entry { path: path.clone(), node: Node::File(content) };
        match self.locate(path) {
            Some(i) => {
                let replace = match &self.entries[i].node {
                    Node::Directory => false,
                    Node::File(_) => true,
                };
                if !replace {
                    return false;
                }
                proof {
                    lemma_find(before, path@);
                    if well_formed(before) {
                        lemma_update_well_formed(before, i as int, entry@);
                    }
                    assert(entry_views(self.entries@.update(i as int, entry)) =~= before.update(
                        i as int,
                        entry@,
                    ));
                }
                self.entries.set(i, entry);
                true
            },
            None => {
                proof {
                    if well_formed(before) {
                        lemma_push_well_formed(before, entry@);
                    }
                    assert(entry_views(self.entries@.push(entry)) =~= before.push(entry@));
                }
                self.entries.push(entry);
                true
            },
        }
    }

    /// Copies the file at `from` to `to`. Returns whether it did: where
    /// `from` is no file or `to` cannot be written, nothing changes.
    pub fn copy(&mut self, from: &TreePath, to: &TreePath) -> (copied: bool)
        ensures
            well_formed(old(self)@) ==> well_formed(final(self)@),
            match copy_file(old(self)@, from@, to@) {
                Some(tree) => copied && final(self)@ == tree && final(self).changes() == old(
                    self,
                ).changes().push(ChangeView::CopyFile { from: from@, to: to@ }),
                None => !copied && final(self)@ == old(self)@ && final(self).changes() == old(
                    self,
                ).changes(),
            },
    {
        let content = match self.read_file(from) {
            Some(content) => content,
            None => {
                return false;
            },
        };
        if !self.put_file(to, content) {
            return false;
        }
        let ghost recorded = self.changes();
        let change = Change::CopyFile { from: from.clone(), to: to.clone() };
        self.changes.push(change);
        assert(self.changes() =~= recorded.push(change@));
        true
    }

    /// What the directory `dir` shows, in the order of the tree; `None`
    /// where `dir` is no directory.
    pub fn read_dir(&self, dir: &TreePath) -> (shown: Option<Vec<DirEntry>>)
        ensures
            is_directory(self@, dir@) ==> shown is Some && listing_views(shown->0@) == listing(
                self@,
                dir@,
            ),
            !is_directory(self@, dir@) ==> shown is None,
    {
        if !self.is_dir(dir) {
            return None;
        }
        let mut out: Vec<DirEntry> = Vec::new();
        let mut i: usize = 0;
        while i < self.entries.len()
            invariant
                i <= self.entries.len(),
                listing_views(out@) == listing(self@.take(i as int), dir@),
            decreases self.entries.len() - i,
        {
            let entry = &self.entries[i];
            proof {
                broadcast use Seq::lemma_filter_push, Seq::lemma_push_map_commute;

                assert(self@.take(i + 1) =~= self@.take(i as int).push(entry@));
            }
            let ghost before = out@;
            let depth = entry.path.len();
            if depth > 0 && depth - 1 == dir.len() && entry.path.starts_with(dir) {
                let is_dir = match &entry.node {
                    Node::Directory => true,
                    Node::File(_) => false,
                };
                out.push(DirEntry { path: entry.path.clone(), is_dir });
                assert(listing_views(out@) =~= listing_views(before).push(shown(entry@)));
            }
            i += 1;
        }
        assert(self@.take(self@.len() as int) =~= self@);
        Some(out)
    }
}

} // verus!
