//! What holds of patching slices, whatever the tree: what a patch leaves
//! alone, that patching twice is patching once, and that the recorded
//! changes explain the tree.

use crate::console::command::ProcessOutputView;
use crate::console::error::{bare, kind_of, CauseView, ErrorKind, ErrorView};
use crate::tree::{
    applied, blocked, copy_file, create_dirs, find, is_directory, listing, node_at, outside,
    remove_dir, remove_tree, replayed, with_directories, ChangeView, DirEntryView, EntryView,
    NodeView,
};
use crate::tree_laws::{
    lemma_find, lemma_find_in_prefix, lemma_find_push, lemma_node_at_extends, lemma_node_at_removed,
    lemma_remove_tree_untouched, lemma_replayed_split, lemma_with_directories,
    lemma_with_directories_present, lemma_with_file_below, lemma_with_file_elsewhere,
};
use crate::xcframework::{
    copy_headers, create_bundle, find_slices, generated_headers, headers_dir,
    lemma_patch_slices_stops, namespace_dir, patch_bundle, patch_slice, patch_slices, refused,
};
use vstd::prelude::*;
use vstd::seq_lib::group_filter_ensures;

verus! {

/// A slice without a header directory is not patched: the error is of the
/// validation class and names the missing directory, and the tree is as it
/// was.
pub proof fn lemma_missing_headers_change_nothing(
    tree: Seq<EntryView>,
    slice: Seq<Seq<char>>,
    generated_dir: Seq<Seq<char>>,
    bundle_name: Seq<char>,
)
    requires
        node_at(tree, headers_dir(slice)) != Some(NodeView::Directory),
    ensures
        patch_slice(tree, slice, generated_dir, bundle_name) == refused(
            tree,
            CauseView::MissingHeaders { headers: headers_dir(slice) },
        ),
        kind_of(CauseView::MissingHeaders { headers: headers_dir(slice) }) == ErrorKind::Validation,
{
}

/// Copying into a namespace below `base` changes nothing outside `base`, and
/// leaves what is at `base` itself as it is.
pub proof fn lemma_copy_headers_below(
    tree: Seq<EntryView>,
    files: Seq<DirEntryView>,
    namespace: Seq<Seq<char>>,
    base: Seq<Seq<char>>,
)
    requires
        base.is_prefix_of(namespace),
    ensures
        remove_tree(copy_headers(tree, files, namespace).tree, base) == remove_tree(tree, base),
        node_at(copy_headers(tree, files, namespace).tree, base) == node_at(tree, base),
    decreases files.len(),
{
    if files.len() > 0 {
        lemma_copy_headers_below(tree, files.drop_last(), namespace, base);
        let before = copy_headers(tree, files.drop_last(), namespace).tree;
        if copy_headers(tree, files.drop_last(), namespace).outcome is Ok {
            let from = files.last().path;
            let to = namespace.push(from.last());
            assert(base.is_prefix_of(to)) by {
                assert(base =~= namespace.subrange(0, base.len() as int));
                assert(base =~= to.subrange(0, base.len() as int));
            }
            assert(to != base);
            match node_at(before, from) {
                Some(NodeView::File(content)) => {
                    lemma_with_file_below(before, to, content, base);
                    lemma_with_file_elsewhere(before, to, content, base);
                },
                _ => {},
            }
        }
    }
}

/// What a prepared slice looks like: where nothing of the tree is at the
/// header directory of the slice or below it, making the namespace directory
/// adds the directories that lead to the slice where they are missing, then
/// the header directory, then the namespace directory; and nothing before
/// these two is at the header directory or below it.
pub proof fn lemma_prepared_shape(
    cleared: Seq<EntryView>,
    slice: Seq<Seq<char>>,
    bundle_name: Seq<char>,
)
    requires
        forall|i: int|
            0 <= i < cleared.len() ==> !headers_dir(slice).is_prefix_of(
                (#[trigger] cleared[i]).path,
            ),
    ensures
        ({
            let headers = headers_dir(slice);
            let namespace = namespace_dir(slice, bundle_name);
            let base = with_directories(cleared, slice);
            &&& with_directories(cleared, headers) == base.push(
                EntryView { path: headers, node: NodeView::Directory },
            )
            &&& with_directories(cleared, namespace) == base.push(
                EntryView { path: headers, node: NodeView::Directory },
            ).push(EntryView { path: namespace, node: NodeView::Directory })
            &&& forall|i: int|
                0 <= i < base.len() ==> !headers.is_prefix_of((#[trigger] base[i]).path)
            &&& find(base, headers) is None
            &&& find(base, namespace) is None
        }),
{
    let headers = headers_dir(slice);
    let namespace = namespace_dir(slice, bundle_name);
    let base = with_directories(cleared, slice);
    let headers_entry = EntryView { path: headers, node: NodeView::Directory };
    lemma_with_directories(cleared, slice);
    assert(headers.drop_last() =~= slice);
    assert(namespace.drop_last() =~= headers);
    assert(headers.is_prefix_of(headers)) by {
        assert(headers =~= headers.subrange(0, headers.len() as int));
    }
    assert(headers.is_prefix_of(namespace)) by {
        assert(headers =~= namespace.subrange(0, headers.len() as int));
    }
    assert forall|i: int| 0 <= i < base.len() implies !headers.is_prefix_of(
        (#[trigger] base[i]).path,
    ) by {
        if i < cleared.len() {
            assert(base[i] == base.subrange(0, cleared.len() as int)[i]);
            assert(base[i] == cleared[i]);
        }
    }
    lemma_find(base, headers);
    lemma_find(base, namespace);
    lemma_find_push(base, headers_entry, namespace);
}

/// Preparing a slice that was prepared before gives the same tree: once the
/// headers of a slice are removed and its namespace directory is made,
/// removing the headers and making the namespace directory once more changes
/// nothing.
pub proof fn lemma_prepared_again(
    cleared: Seq<EntryView>,
    slice: Seq<Seq<char>>,
    bundle_name: Seq<char>,
)
    requires
        forall|i: int|
            0 <= i < cleared.len() ==> !headers_dir(slice).is_prefix_of(
                (#[trigger] cleared[i]).path,
            ),
        !blocked(cleared, namespace_dir(slice, bundle_name)),
    ensures
        ({
            let headers = headers_dir(slice);
            let namespace = namespace_dir(slice, bundle_name);
            let prepared = with_directories(cleared, namespace);
            let again = remove_tree(prepared, headers);
            &&& node_at(prepared, headers) == Some(NodeView::Directory)
            &&& !blocked(again, namespace)
            &&& with_directories(again, namespace) == prepared
        }),
{
    broadcast use Seq::lemma_filter_push;

    let headers = headers_dir(slice);
    let namespace = namespace_dir(slice, bundle_name);
    let base = with_directories(cleared, slice);
    let headers_entry = EntryView { path: headers, node: NodeView::Directory };
    let namespace_entry = EntryView { path: namespace, node: NodeView::Directory };
    lemma_prepared_shape(cleared, slice, bundle_name);
    lemma_with_directories(cleared, slice);
    assert(headers.drop_last() =~= slice);
    assert(namespace.drop_last() =~= headers);
    assert(headers.is_prefix_of(headers)) by {
        assert(headers =~= headers.subrange(0, headers.len() as int));
    }
    assert(headers.is_prefix_of(namespace)) by {
        assert(headers =~= namespace.subrange(0, headers.len() as int));
    }
    let first = base.push(headers_entry);
    let prepared = first.push(namespace_entry);
    lemma_find_push(base, headers_entry, headers);
    lemma_find_push(base, headers_entry, namespace);
    lemma_find_push(first, namespace_entry, headers);
    assert(node_at(prepared, headers) == Some(NodeView::Directory));
    lemma_remove_tree_untouched(base, headers);
    assert(!outside(headers)(headers_entry));
    assert(!outside(headers)(namespace_entry));
    assert(remove_tree(first, headers) == base);
    assert(remove_tree(prepared, headers) == base);
    lemma_with_directories_present(base, slice);
    assert(with_directories(base, headers) == first);
    assert(with_directories(base, namespace) == prepared);
    assert forall|k: int| 1 <= k <= namespace.len() implies !(#[trigger] node_at(
        base,
        namespace.take(k),
    ) is Some && node_at(base, namespace.take(k))->0 is File) by {
        let path = namespace.take(k);
        lemma_find(base, path);
        lemma_find_in_prefix(cleared, base, path);
        match find(base, path) {
            Some(at) => {
                if at < cleared.len() {
                    assert(base[at] == base.subrange(0, cleared.len() as int)[at]);
                    assert(node_at(cleared, path) == Some(base[at].node));
                }
            },
            None => {},
        }
    }
}

/// Patching is idempotent. Patching a slice once more, right after it was
/// patched, leaves the tree exactly as the first time left it, whether the
/// first time succeeded or not. It also ends as the first time ended and
/// records the same changes, with one exception: where the first time could
/// not make the namespace directory, the header directory is gone, and the
/// second time says so.
pub proof fn lemma_patch_slice_idempotent(
    tree: Seq<EntryView>,
    slice: Seq<Seq<char>>,
    generated_dir: Seq<Seq<char>>,
    bundle_name: Seq<char>,
)
    ensures
        ({
            let once = patch_slice(tree, slice, generated_dir, bundle_name);
            let twice = patch_slice(once.tree, slice, generated_dir, bundle_name);
            let namespace = namespace_dir(slice, bundle_name);
            &&& twice.tree == once.tree
            &&& once.outcome != Err::<(), ErrorView>(
                bare(CauseView::CreateFailed { directory: namespace }),
            ) ==> twice == once
        }),
{
    broadcast use group_filter_ensures;

    let headers = headers_dir(slice);
    let namespace = namespace_dir(slice, bundle_name);
    let source = generated_headers(generated_dir);
    assert(headers.is_prefix_of(headers)) by {
        assert(headers =~= headers.subrange(0, headers.len() as int));
    }
    assert(headers.is_prefix_of(namespace)) by {
        assert(headers =~= namespace.subrange(0, headers.len() as int));
    }
    match remove_dir(tree, headers) {
        None => {},
        Some(cleared) => {
            assert forall|i: int| 0 <= i < cleared.len() implies !headers.is_prefix_of(
                (#[trigger] cleared[i]).path,
            ) by {
                assert(outside(headers)(cleared[i]));
            }
            match create_dirs(cleared, namespace) {
                None => {
                    lemma_find(cleared, headers);
                },
                Some(prepared) => {
                    lemma_prepared_again(cleared, slice, bundle_name);
                    if is_directory(prepared, source) {
                        let files = listing(prepared, source);
                        lemma_copy_headers_below(prepared, files, namespace, headers);
                    }
                },
            }
        },
    }
}

/// Patching a slice leaves what is outside its header directory: whatever
/// the tree held at a path that is neither the header directory of the slice
/// nor below it, it holds there afterwards, however the patch ended.
pub proof fn lemma_patch_slice_frame(
    tree: Seq<EntryView>,
    slice: Seq<Seq<char>>,
    generated_dir: Seq<Seq<char>>,
    bundle_name: Seq<char>,
    path: Seq<Seq<char>>,
)
    requires
        !headers_dir(slice).is_prefix_of(path),
        node_at(tree, path) is Some,
    ensures
        node_at(patch_slice(tree, slice, generated_dir, bundle_name).tree, path) == node_at(
            tree,
            path,
        ),
{
    let headers = headers_dir(slice);
    let namespace = namespace_dir(slice, bundle_name);
    let source = generated_headers(generated_dir);
    match remove_dir(tree, headers) {
        None => {},
        Some(cleared) => {
            lemma_node_at_removed(tree, headers, path);
            match create_dirs(cleared, namespace) {
                None => {},
                Some(prepared) => {
                    lemma_with_directories(cleared, namespace);
                    lemma_node_at_extends(cleared, prepared, path);
                    if is_directory(prepared, source) {
                        let files = listing(prepared, source);
                        let after = copy_headers(prepared, files, namespace).tree;
                        assert(headers.is_prefix_of(namespace)) by {
                            assert(headers =~= namespace.subrange(0, headers.len() as int));
                        }
                        lemma_copy_headers_below(prepared, files, namespace, headers);
                        lemma_node_at_removed(after, headers, path);
                        lemma_node_at_removed(prepared, headers, path);
                    }
                },
            }
        },
    }
}

/// Patching slices leaves what is outside their header directories.
pub proof fn lemma_patch_slices_frame(
    tree: Seq<EntryView>,
    slices: Seq<Seq<Seq<char>>>,
    generated_dir: Seq<Seq<char>>,
    bundle_name: Seq<char>,
    path: Seq<Seq<char>>,
)
    requires
        forall|i: int|
            0 <= i < slices.len() ==> !headers_dir(#[trigger] slices[i]).is_prefix_of(path),
        node_at(tree, path) is Some,
    ensures
        node_at(patch_slices(tree, slices, generated_dir, bundle_name).tree, path) == node_at(
            tree,
            path,
        ),
    decreases slices.len(),
{
    if slices.len() > 0 {
        let earlier = slices.drop_last();
        assert forall|i: int| 0 <= i < earlier.len() implies !headers_dir(
            #[trigger] earlier[i],
        ).is_prefix_of(path) by {
            assert(earlier[i] == slices[i]);
        }
        lemma_patch_slices_frame(tree, earlier, generated_dir, bundle_name, path);
        let before = patch_slices(tree, earlier, generated_dir, bundle_name);
        if before.outcome is Ok {
            assert(slices.last() == slices[slices.len() - 1]);
            lemma_patch_slice_frame(before.tree, slices.last(), generated_dir, bundle_name, path);
        }
    }
}

/// The first slice that fails ends the patch of a bundle. Where the slice at
/// index `failed` fails, the slices after it count for nothing: tree, changes
/// and error are those of the slices up to it. And what the tree held
/// outside the header directories of the slices up to it, such as all that
/// belongs to a later slice, it holds as before.
pub proof fn lemma_failed_slice_ends_the_patch(
    tree: Seq<EntryView>,
    slices: Seq<Seq<Seq<char>>>,
    generated_dir: Seq<Seq<char>>,
    bundle_name: Seq<char>,
    failed: int,
    path: Seq<Seq<char>>,
)
    requires
        0 <= failed < slices.len(),
        patch_slices(tree, slices.take(failed + 1), generated_dir, bundle_name).outcome is Err,
        forall|i: int| 0 <= i <= failed ==> !headers_dir(#[trigger] slices[i]).is_prefix_of(path),
        node_at(tree, path) is Some,
    ensures
        patch_slices(tree, slices, generated_dir, bundle_name) == patch_slices(
            tree,
            slices.take(failed + 1),
            generated_dir,
            bundle_name,
        ),
        node_at(patch_slices(tree, slices, generated_dir, bundle_name).tree, path) == node_at(
            tree,
            path,
        ),
{
    let tried = slices.take(failed + 1);
    lemma_patch_slices_stops(tree, slices, generated_dir, bundle_name, failed + 1);
    assert forall|i: int| 0 <= i < tried.len() implies !headers_dir(
        #[trigger] tried[i],
    ).is_prefix_of(path) by {
        assert(tried[i] == slices[i]);
    }
    lemma_patch_slices_frame(tree, tried, generated_dir, bundle_name, path);
}

/// Making one more change after others.
pub proof fn lemma_replayed_push(tree: Seq<EntryView>, changes: Seq<ChangeView>, change: ChangeView)
    ensures
        replayed(tree, changes.push(change)) == applied(replayed(tree, changes), change),
{
    assert(changes.push(change).drop_last() =~= changes);
}

/// The changes of copying headers explain the tree: made one after the
/// other on the tree as it was, they give the tree as the work left it.
pub proof fn lemma_copy_headers_replay(
    tree: Seq<EntryView>,
    files: Seq<DirEntryView>,
    namespace: Seq<Seq<char>>,
)
    ensures
        replayed(tree, copy_headers(tree, files, namespace).changes) == copy_headers(
            tree,
            files,
            namespace,
        ).tree,
    decreases files.len(),
{
    if files.len() > 0 {
        lemma_copy_headers_replay(tree, files.drop_last(), namespace);
        let before = copy_headers(tree, files.drop_last(), namespace);
        if before.outcome is Ok {
            let from = files.last().path;
            let to = namespace.push(from.last());
            if copy_file(before.tree, from, to) is Some {
                lemma_replayed_push(tree, before.changes, ChangeView::CopyFile { from, to });
            }
        }
    }
}

/// The changes of patching a slice explain the tree: made one after the
/// other on the tree as it was, they give the tree as the work left it,
/// whether the work succeeded or not.
pub proof fn lemma_patch_slice_replay(
    tree: Seq<EntryView>,
    slice: Seq<Seq<char>>,
    generated_dir: Seq<Seq<char>>,
    bundle_name: Seq<char>,
)
    ensures
        replayed(tree, patch_slice(tree, slice, generated_dir, bundle_name).changes) == patch_slice(
            tree,
            slice,
            generated_dir,
            bundle_name,
        ).tree,
{
    let headers = headers_dir(slice);
    let namespace = namespace_dir(slice, bundle_name);
    let source = generated_headers(generated_dir);
    match remove_dir(tree, headers) {
        None => {},
        Some(cleared) => {
            let removed = seq![ChangeView::RemoveDirAll(headers)];
            assert(replayed(tree, removed) == cleared) by {
                let none = Seq::<ChangeView>::empty();
                assert(removed =~= none.push(ChangeView::RemoveDirAll(headers)));
                assert(replayed(tree, none) == tree);
                lemma_replayed_push(tree, none, ChangeView::RemoveDirAll(headers));
            }
            match create_dirs(cleared, namespace) {
                None => {
                    assert(removed + Seq::<ChangeView>::empty() =~= removed);
                },
                Some(prepared) => {
                    let made = removed.push(ChangeView::CreateDirAll(namespace));
                    assert(replayed(tree, made) == prepared) by {
                        lemma_replayed_push(tree, removed, ChangeView::CreateDirAll(namespace));
                    }
                    if !is_directory(prepared, source) {
                        assert(made + Seq::<ChangeView>::empty() =~= made);
                    } else {
                        let files = listing(prepared, source);
                        lemma_copy_headers_replay(prepared, files, namespace);
                        lemma_replayed_split(
                            tree,
                            made,
                            copy_headers(prepared, files, namespace).changes,
                        );
                    }
                },
            }
        },
    }
}

/// The changes of patching slices explain the tree.
pub proof fn lemma_patch_slices_replay(
    tree: Seq<EntryView>,
    slices: Seq<Seq<Seq<char>>>,
    generated_dir: Seq<Seq<char>>,
    bundle_name: Seq<char>,
)
    ensures
        replayed(tree, patch_slices(tree, slices, generated_dir, bundle_name).changes)
            == patch_slices(tree, slices, generated_dir, bundle_name).tree,
    decreases slices.len(),
{
    if slices.len() > 0 {
        lemma_patch_slices_replay(tree, slices.drop_last(), generated_dir, bundle_name);
        let before = patch_slices(tree, slices.drop_last(), generated_dir, bundle_name);
        if before.outcome is Ok {
            let one = patch_slice(before.tree, slices.last(), generated_dir, bundle_name);
            lemma_patch_slice_replay(before.tree, slices.last(), generated_dir, bundle_name);
            lemma_replayed_split(tree, before.changes, one.changes);
        }
    }
}

/// The changes that are recorded while a bundle is finished explain the
/// tree: whoever makes them, one after the other, on directories that are as
/// the tree was, ends with directories that are as the tree is, whether the
/// work succeeded or stopped at a failure.
pub proof fn lemma_create_bundle_replay(
    tree: Seq<EntryView>,
    toolchain: ProcessOutputView,
    output_dir: Seq<Seq<char>>,
    generated_dir: Seq<Seq<char>>,
    bundle_name: Seq<char>,
)
    ensures
        replayed(tree, patch_bundle(tree, output_dir, generated_dir, bundle_name).changes)
            == patch_bundle(tree, output_dir, generated_dir, bundle_name).tree,
        replayed(
            tree,
            create_bundle(tree, toolchain, output_dir, generated_dir, bundle_name).changes,
        ) == create_bundle(tree, toolchain, output_dir, generated_dir, bundle_name).tree,
{
    match find_slices(tree, output_dir) {
        Err(_) => {},
        Ok(slices) => {
            lemma_patch_slices_replay(tree, slices, generated_dir, bundle_name);
        },
    }
}

} // verus!
