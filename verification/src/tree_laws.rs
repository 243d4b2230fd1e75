//! What holds of the operations on a tree, whatever the tree.

use crate::tree::{
    child_of, find, lies_in, listing, node_at, outside, remove_tree, replayed, shown, well_formed,
    with_directories, with_file, ChangeView, EntryView, NodeView,
};
use vstd::prelude::*;

verus! {

/// Making one list of changes and then another is making both in a row.
pub proof fn lemma_replayed_split(
    tree: Seq<EntryView>,
    first: Seq<ChangeView>,
    second: Seq<ChangeView>,
)
    ensures
        replayed(tree, first + second) == replayed(replayed(tree, first), second),
    decreases second.len(),
{
    if second.len() == 0 {
        assert(first + second =~= first);
    } else {
        assert((first + second).drop_last() =~= first + second.drop_last());
        assert((first + second).last() == second.last());
        lemma_replayed_split(tree, first, second.drop_last());
    }
}

/// What `find` returns: the first index that holds the path.
pub proof fn lemma_find(tree: Seq<EntryView>, path: Seq<Seq<char>>)
    ensures
        match find(tree, path) {
            Some(i) => 0 <= i < tree.len() && tree[i].path == path && forall|j: int|
                0 <= j < i ==> (#[trigger] tree[j]).path != path,
            None => forall|j: int| 0 <= j < tree.len() ==> (#[trigger] tree[j]).path != path,
        },
    decreases tree.len(),
{
    if tree.len() > 0 {
        lemma_find(tree.drop_last(), path);
        match find(tree.drop_last(), path) {
            Some(i) => {
                assert(tree.drop_last()[i] == tree[i]);
                assert forall|j: int| 0 <= j < i implies (#[trigger] tree[j]).path != path by {
                    assert(tree.drop_last()[j] == tree[j]);
                }
            },
            None => {
                assert forall|j: int| 0 <= j < tree.len() - 1 implies (#[trigger] tree[j]).path
                    != path by {
                    assert(tree.drop_last()[j] == tree[j]);
                }
            },
        }
    }
}

/// The entries of a well-formed tree that meet a condition are a
/// well-formed tree.
pub proof fn lemma_filter_well_formed(tree: Seq<EntryView>, pred: spec_fn(EntryView) -> bool)
    requires
        well_formed(tree),
    ensures
        well_formed(tree.filter(pred)),
    decreases tree.len(),
{
    reveal(Seq::filter);
    if tree.len() > 0 {
        let rest = tree.drop_last();
        assert forall|i: int| 0 <= i < rest.len() implies rest[i] == tree[i] by {}
        assert(well_formed(rest));
        lemma_filter_well_formed(rest, pred);
        let kept = rest.filter(pred);
        if pred(tree.last()) {
            assert forall|i: int| 0 <= i < kept.len() implies (#[trigger] kept[i]).path
                != tree.last().path by {
                assert(kept.contains(kept[i]));
                rest.lemma_filter_contains_rev(pred, kept[i]);
                let k = choose|k: int| 0 <= k < rest.len() && rest[k] == kept[i];
                assert(tree[k] == kept[i]);
            }
        }
    }
}

/// A tree without what lies below a path is still well formed.
pub proof fn lemma_remove_tree_well_formed(tree: Seq<EntryView>, base: Seq<Seq<char>>)
    requires
        well_formed(tree),
    ensures
        well_formed(remove_tree(tree, base)),
{
    lemma_filter_well_formed(tree, outside(base));
}

/// A well-formed tree stays so when an entry is added at a path that is free.
pub proof fn lemma_push_well_formed(tree: Seq<EntryView>, entry: EntryView)
    requires
        well_formed(tree),
        entry.path.len() > 0,
        find(tree, entry.path) is None,
    ensures
        well_formed(tree.push(entry)),
{
    lemma_find(tree, entry.path);
    let next = tree.push(entry);
    assert forall|i: int, j: int| 0 <= i < j < next.len() implies (#[trigger] next[i]).path != (
    #[trigger] next[j]).path by {
        assert(next[i] == tree[i]);
        if j < tree.len() {
            assert(next[j] == tree[j]);
        }
    }
    assert forall|i: int| 0 <= i < next.len() implies (#[trigger] next[i]).path.len() > 0 by {
        if i < tree.len() {
            assert(next[i] == tree[i]);
        }
    }
}

/// A well-formed tree stays so when an entry is replaced by one at the same
/// path.
pub proof fn lemma_update_well_formed(tree: Seq<EntryView>, at: int, entry: EntryView)
    requires
        well_formed(tree),
        0 <= at < tree.len(),
        entry.path == tree[at].path,
    ensures
        well_formed(tree.update(at, entry)),
{
    let next = tree.update(at, entry);
    assert forall|i: int, j: int| 0 <= i < j < next.len() implies (#[trigger] next[i]).path != (
    #[trigger] next[j]).path by {
        assert(next[i].path == tree[i].path);
        assert(next[j].path == tree[j].path);
    }
    assert forall|i: int| 0 <= i < next.len() implies (#[trigger] next[i]).path.len() > 0 by {
        assert(next[i].path == tree[i].path);
    }
}

/// Adding the directories of a path keeps a tree well formed.
pub proof fn lemma_with_directories_well_formed(tree: Seq<EntryView>, path: Seq<Seq<char>>)
    requires
        well_formed(tree),
    ensures
        well_formed(with_directories(tree, path)),
    decreases path.len(),
{
    if path.len() > 0 {
        lemma_with_directories_well_formed(tree, path.drop_last());
        let base = with_directories(tree, path.drop_last());
        if find(base, path) is None {
            lemma_push_well_formed(base, EntryView { path, node: NodeView::Directory });
        }
    }
}

/// What `find` returns once one more entry stands at the end.
pub proof fn lemma_find_push(tree: Seq<EntryView>, entry: EntryView, path: Seq<Seq<char>>)
    ensures
        find(tree.push(entry), path) == match find(tree, path) {
            Some(i) => Some(i),
            None => if entry.path == path {
                Some(tree.len() as int)
            } else {
                None
            },
        },
{
    assert(tree.push(entry).drop_last() =~= tree);
}

/// Two trees that hold the same paths in the same order find the same index.
pub proof fn lemma_find_same_paths(
    first: Seq<EntryView>,
    second: Seq<EntryView>,
    path: Seq<Seq<char>>,
)
    requires
        first.len() == second.len(),
        forall|i: int| 0 <= i < first.len() ==> (#[trigger] first[i]).path == second[i].path,
    ensures
        find(first, path) == find(second, path),
    decreases first.len(),
{
    if first.len() > 0 {
        assert forall|i: int| 0 <= i < first.drop_last().len() implies (
        #[trigger] first.drop_last()[i]).path == second.drop_last()[i].path by {
            assert(first.drop_last()[i] == first[i]);
            assert(first[i].path == second[i].path);
        }
        lemma_find_same_paths(first.drop_last(), second.drop_last(), path);
        assert(first.last() == first[first.len() - 1]);
    }
}

/// In a tree that begins with another, what is found at an index of the
/// shorter tree is found there in the shorter tree too.
pub proof fn lemma_find_in_prefix(
    short: Seq<EntryView>,
    long: Seq<EntryView>,
    path: Seq<Seq<char>>,
)
    requires
        short.is_prefix_of(long),
    ensures
        match find(long, path) {
            Some(i) => i < short.len() ==> find(short, path) == Some(i),
            None => find(short, path) is None,
        },
{
    lemma_find(long, path);
    lemma_find(short, path);
    assert forall|j: int| 0 <= j < short.len() implies short[j] == long[j] by {
        assert(short[j] == long.subrange(0, short.len() as int)[j]);
    }
    match find(long, path) {
        Some(i) => {
            if i < short.len() {
                assert(short[i].path == path);
                match find(short, path) {
                    Some(k) => {
                        assert(short[k] == long[k]);
                        assert(k == i);
                    },
                    None => {},
                }
            }
        },
        None => {
            match find(short, path) {
                Some(k) => {
                    assert(short[k] == long[k]);
                },
                None => {},
            }
        },
    }
}

/// In a tree that begins with another, what the shorter tree holds at a path
/// is what the longer one holds there.
pub proof fn lemma_node_at_extends(
    short: Seq<EntryView>,
    long: Seq<EntryView>,
    path: Seq<Seq<char>>,
)
    requires
        short.is_prefix_of(long),
        node_at(short, path) is Some,
    ensures
        node_at(long, path) == node_at(short, path),
{
    lemma_find(long, path);
    lemma_find(short, path);
    lemma_find_in_prefix(short, long, path);
    let at = find(short, path)->0;
    assert(short[at] == long.subrange(0, short.len() as int)[at]);
    assert(long[at].path == path);
}

/// What a tree holds at a path once one more entry stands at the end.
pub proof fn lemma_node_at_push(tree: Seq<EntryView>, entry: EntryView, path: Seq<Seq<char>>)
    ensures
        node_at(tree.push(entry), path) == match node_at(tree, path) {
            Some(node) => Some(node),
            None => if entry.path == path {
                Some(entry.node)
            } else {
                None
            },
        },
{
    lemma_find_push(tree, entry, path);
    lemma_find(tree, path);
}

/// What a directory shows once one more entry stands at the end of the tree.
pub proof fn lemma_listing_push(tree: Seq<EntryView>, entry: EntryView, dir: Seq<Seq<char>>)
    ensures
        listing(tree.push(entry), dir) == if lies_in(dir, entry.path) {
            listing(tree, dir).push(shown(entry))
        } else {
            listing(tree, dir)
        },
{
    broadcast use Seq::lemma_filter_push, Seq::lemma_push_map_commute;

    assert(child_of(dir)(entry) == lies_in(dir, entry.path));
}

/// Removing below a path leaves what is at every path outside it.
pub proof fn lemma_node_at_removed(
    tree: Seq<EntryView>,
    base: Seq<Seq<char>>,
    path: Seq<Seq<char>>,
)
    requires
        !base.is_prefix_of(path),
    ensures
        node_at(remove_tree(tree, base), path) == node_at(tree, path),
    decreases tree.len(),
{
    broadcast use Seq::lemma_filter_push;

    if tree.len() == 0 {
        reveal(Seq::filter);
    } else {
        let rest = tree.drop_last();
        let last = tree.last();
        assert(tree =~= rest.push(last));
        lemma_node_at_removed(rest, base, path);
        lemma_node_at_push(rest, last, path);
        lemma_node_at_push(remove_tree(rest, base), last, path);
    }
}

/// Removing below a path leaves what a directory shows, where neither the
/// directory nor any of its entries is at that path or below it.
pub proof fn lemma_listing_removed(
    tree: Seq<EntryView>,
    base: Seq<Seq<char>>,
    dir: Seq<Seq<char>>,
)
    requires
        !base.is_prefix_of(dir),
        !lies_in(dir, base),
    ensures
        listing(remove_tree(tree, base), dir) == listing(tree, dir),
    decreases tree.len(),
{
    broadcast use Seq::lemma_filter_push;

    if tree.len() == 0 {
        reveal(Seq::filter);
    } else {
        let rest = tree.drop_last();
        let last = tree.last();
        assert(tree =~= rest.push(last));
        lemma_listing_removed(rest, base, dir);
        lemma_listing_push(rest, last, dir);
        lemma_listing_push(remove_tree(rest, base), last, dir);
        if lies_in(dir, last.path) && base.is_prefix_of(last.path) {
            if base.len() <= dir.len() {
                assert(base =~= dir.subrange(0, base.len() as int)) by {
                    assert(base =~= last.path.subrange(0, base.len() as int));
                    assert(dir =~= last.path.subrange(0, dir.len() as int));
                }
            } else {
                assert(base =~= last.path) by {
                    assert(base =~= last.path.subrange(0, base.len() as int));
                }
            }
        }
    }
}

/// Adding the directories of a path leaves what a directory shows, where
/// the directory does not lead to that path.
pub proof fn lemma_listing_with_directories(
    tree: Seq<EntryView>,
    path: Seq<Seq<char>>,
    dir: Seq<Seq<char>>,
)
    requires
        !(dir.is_prefix_of(path) && dir.len() < path.len()),
    ensures
        listing(with_directories(tree, path), dir) == listing(tree, dir),
    decreases path.len(),
{
    if path.len() > 0 {
        let shorter = path.drop_last();
        if dir.is_prefix_of(shorter) && dir.len() < shorter.len() {
            assert(dir =~= path.subrange(0, dir.len() as int)) by {
                assert(dir =~= shorter.subrange(0, dir.len() as int));
            }
        }
        lemma_listing_with_directories(tree, shorter, dir);
        let base = with_directories(tree, shorter);
        let entry = EntryView { path, node: NodeView::Directory };
        lemma_listing_push(base, entry, dir);
    }
}

/// Removing below a path leaves a tree as it is where nothing of it is
/// there or below.
pub proof fn lemma_remove_tree_untouched(tree: Seq<EntryView>, base: Seq<Seq<char>>)
    requires
        forall|i: int| 0 <= i < tree.len() ==> !base.is_prefix_of((#[trigger] tree[i]).path),
    ensures
        remove_tree(tree, base) == tree,
    decreases tree.len(),
{
    broadcast use Seq::lemma_filter_push;

    if tree.len() == 0 {
        reveal(Seq::filter);
    } else {
        let rest = tree.drop_last();
        assert forall|i: int| 0 <= i < rest.len() implies !base.is_prefix_of(
            (#[trigger] rest[i]).path,
        ) by {
            assert(rest[i] == tree[i]);
        }
        lemma_remove_tree_untouched(rest, base);
        assert(tree =~= rest.push(tree.last()));
        assert(outside(base)(tree.last()));
    }
}

/// Removing below a path gives the same whether or not an entry below it
/// was replaced by another below it.
pub proof fn lemma_remove_tree_update(
    tree: Seq<EntryView>,
    at: int,
    entry: EntryView,
    base: Seq<Seq<char>>,
)
    requires
        0 <= at < tree.len(),
        base.is_prefix_of(tree[at].path),
        base.is_prefix_of(entry.path),
    ensures
        remove_tree(tree.update(at, entry), base) == remove_tree(tree, base),
    decreases tree.len(),
{
    broadcast use Seq::lemma_filter_push;

    let rest = tree.drop_last();
    assert(tree =~= rest.push(tree.last()));
    if at == tree.len() - 1 {
        assert(tree.update(at, entry) =~= rest.push(entry));
    } else {
        lemma_remove_tree_update(rest, at, entry, base);
        assert(tree.update(at, entry) =~= rest.update(at, entry).push(tree.last()));
    }
}

/// What the added directories are: the tree begins as before, what follows
/// are directories at paths that lead to `path`, and every such path is
/// found.
pub proof fn lemma_with_directories(tree: Seq<EntryView>, path: Seq<Seq<char>>)
    ensures
        tree.is_prefix_of(with_directories(tree, path)),
        forall|i: int|
            tree.len() <= i < with_directories(tree, path).len() ==> {
                let added = #[trigger] with_directories(tree, path)[i];
                added.node is Directory && added.path.len() >= 1 && added.path.is_prefix_of(path)
            },
        forall|k: int|
            1 <= k <= path.len() ==> find(with_directories(tree, path), #[trigger] path.take(k))
                is Some,
    decreases path.len(),
{
    let made = with_directories(tree, path);
    if path.len() == 0 {
        assert(tree =~= made.subrange(0, tree.len() as int));
    } else {
        let shorter = path.drop_last();
        let base = with_directories(tree, shorter);
        let entry = EntryView { path, node: NodeView::Directory };
        lemma_with_directories(tree, shorter);
        assert(tree =~= made.subrange(0, tree.len() as int)) by {
            assert(tree =~= base.subrange(0, tree.len() as int));
        }
        assert forall|i: int| tree.len() <= i < made.len() implies {
            let added = #[trigger] made[i];
            added.node is Directory && added.path.len() >= 1 && added.path.is_prefix_of(path)
        } by {
            if i < base.len() {
                let added = base[i];
                assert(made[i] == added);
                assert(added.path =~= path.subrange(0, added.path.len() as int)) by {
                    assert(added.path =~= shorter.subrange(0, added.path.len() as int));
                }
            } else {
                assert(made[i] == entry);
                assert(path =~= path.subrange(0, path.len() as int));
            }
        }
        assert forall|k: int| 1 <= k <= path.len() implies find(made, #[trigger] path.take(k))
            is Some by {
            lemma_find_push(base, entry, path.take(k));
            if k == path.len() {
                assert(path.take(k) =~= path);
            } else {
                assert(shorter.take(k) =~= path.take(k));
            }
        }
    }
}

/// Where every path that leads to `path` is found, no directory is added.
pub proof fn lemma_with_directories_present(tree: Seq<EntryView>, path: Seq<Seq<char>>)
    requires
        forall|k: int| 1 <= k <= path.len() ==> find(tree, #[trigger] path.take(k)) is Some,
    ensures
        with_directories(tree, path) == tree,
    decreases path.len(),
{
    if path.len() > 0 {
        let shorter = path.drop_last();
        assert forall|k: int| 1 <= k <= shorter.len() implies find(tree, #[trigger] shorter.take(k))
            is Some by {
            assert(shorter.take(k) =~= path.take(k));
        }
        lemma_with_directories_present(tree, shorter);
        assert(path.take(path.len() as int) =~= path);
    }
}

/// Writing a file leaves what is at every other path as it is.
pub proof fn lemma_with_file_elsewhere(
    tree: Seq<EntryView>,
    to: Seq<Seq<char>>,
    content: Seq<u8>,
    path: Seq<Seq<char>>,
)
    requires
        path != to,
    ensures
        node_at(with_file(tree, to, content), path) == node_at(tree, path),
{
    let entry = EntryView { path: to, node: NodeView::File(content) };
    lemma_find(tree, to);
    lemma_find(tree, path);
    match find(tree, to) {
        Some(at) => {
            lemma_find_same_paths(tree.update(at, entry), tree, path);
        },
        None => {
            lemma_find_push(tree, entry, path);
        },
    }
}

/// Writing a file below a path does not change what is left when all below
/// that path is removed.
pub proof fn lemma_with_file_below(
    tree: Seq<EntryView>,
    to: Seq<Seq<char>>,
    content: Seq<u8>,
    base: Seq<Seq<char>>,
)
    requires
        base.is_prefix_of(to),
    ensures
        remove_tree(with_file(tree, to, content), base) == remove_tree(tree, base),
{
    broadcast use Seq::lemma_filter_push;

    let entry = EntryView { path: to, node: NodeView::File(content) };
    lemma_find(tree, to);
    match find(tree, to) {
        Some(at) => {
            lemma_remove_tree_update(tree, at, entry, base);
        },
        None => {
            assert(!outside(base)(entry));
        },
    }
}

} // verus!
