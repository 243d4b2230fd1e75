//! What a slice holds once it is patched: nothing but the namespace
//! directory in its headers, and in the namespace directory the generated
//! headers, each under its name and with its bytes.

use crate::patch_laws::lemma_prepared_shape;
use crate::tree::{
    child_of, find, lies_in, listing, node_at, outside, remove_tree, shown, well_formed,
    with_directories, DirEntryView, EntryView, NodeView,
};
use crate::tree_laws::{
    lemma_filter_well_formed, lemma_find, lemma_find_in_prefix, lemma_listing_push,
    lemma_listing_removed, lemma_listing_with_directories, lemma_node_at_extends,
    lemma_node_at_removed, lemma_remove_tree_well_formed, lemma_with_directories,
    lemma_with_directories_well_formed,
};
use crate::xcframework::{copy_headers, generated_headers, headers_dir, namespace_dir, patch_slice};
use vstd::prelude::*;
use vstd::seq_lib::group_filter_ensures;

verus! {

/// The entry that a listed header becomes in the namespace directory: it has
/// the name of the header and what the tree holds at the header.
pub open spec fn copied(
    tree: Seq<EntryView>,
    file: DirEntryView,
    namespace: Seq<Seq<char>>,
) -> EntryView {
    EntryView { path: namespace.push(file.path.last()), node: node_at(tree, file.path)->0 }
}

/// The entries that the listed headers become, in their order.
pub open spec fn copies(
    tree: Seq<EntryView>,
    files: Seq<DirEntryView>,
    namespace: Seq<Seq<char>>,
) -> Seq<EntryView> {
    files.map_values(|file: DirEntryView| copied(tree, file, namespace))
}

/// What the namespace directory shows of a header that was copied into it.
pub open spec fn shown_copy(file: DirEntryView, namespace: Seq<Seq<char>>) -> DirEntryView {
    DirEntryView { path: namespace.push(file.path.last()), is_dir: false }
}

/// What the namespace directory shows of the headers that were copied into
/// it.
pub open spec fn shown_copies(files: Seq<DirEntryView>, namespace: Seq<Seq<char>>) -> Seq<
    DirEntryView,
> {
    files.map_values(|file: DirEntryView| shown_copy(file, namespace))
}

/// A directory in which no entry of the tree lies shows nothing.
pub proof fn lemma_listing_none(tree: Seq<EntryView>, dir: Seq<Seq<char>>)
    requires
        forall|i: int| 0 <= i < tree.len() ==> !lies_in(dir, (#[trigger] tree[i]).path),
    ensures
        listing(tree, dir) == Seq::<DirEntryView>::empty(),
    decreases tree.len(),
{
    if tree.len() == 0 {
        reveal(Seq::filter);
        assert(listing(tree, dir) =~= Seq::<DirEntryView>::empty());
    } else {
        let rest = tree.drop_last();
        assert forall|i: int| 0 <= i < rest.len() implies !lies_in(
            dir,
            (#[trigger] rest[i]).path,
        ) by {
            assert(rest[i] == tree[i]);
        }
        lemma_listing_none(rest, dir);
        assert(tree =~= rest.push(tree.last()));
        assert(tree.last() == tree[tree.len() - 1]);
        lemma_listing_push(rest, tree.last(), dir);
    }
}

/// Where every copy succeeds, the headers are added at the end of the tree,
/// in their order: provided that nothing lay in the namespace directory
/// before, that no header is itself in the namespace directory, and that no
/// two headers share a name.
pub proof fn lemma_copy_headers_appends(
    tree: Seq<EntryView>,
    files: Seq<DirEntryView>,
    namespace: Seq<Seq<char>>,
)
    requires
        copy_headers(tree, files, namespace).outcome is Ok,
        forall|i: int| 0 <= i < tree.len() ==> !lies_in(namespace, (#[trigger] tree[i]).path),
        forall|j: int| 0 <= j < files.len() ==> !lies_in(namespace, (#[trigger] files[j]).path),
        forall|i: int, j: int|
            0 <= i < j < files.len() ==> (#[trigger] files[i]).path.last() != (
            #[trigger] files[j]).path.last(),
    ensures
        copy_headers(tree, files, namespace).tree == tree + copies(tree, files, namespace),
        forall|j: int|
            0 <= j < files.len() ==> node_at(tree, (#[trigger] files[j]).path) is Some && node_at(
                tree,
                files[j].path,
            )->0 is File,
    decreases files.len(),
{
    if files.len() == 0 {
        assert(tree + copies(tree, files, namespace) =~= tree);
    } else {
        let earlier = files.drop_last();
        let given = files.last();
        let before = copy_headers(tree, earlier, namespace);
        assert forall|j: int| 0 <= j < earlier.len() implies earlier[j] == files[j] by {}
        assert(given == files[files.len() - 1]);
        lemma_copy_headers_appends(tree, earlier, namespace);
        let held = before.tree;
        let from = given.path;
        let to = namespace.push(from.last());
        assert(tree =~= held.subrange(0, tree.len() as int));
        assert(lies_in(namespace, to)) by {
            assert(namespace =~= to.subrange(0, namespace.len() as int));
        }
        assert forall|x: int| tree.len() <= x < held.len() implies lies_in(
            namespace,
            (#[trigger] held[x]).path,
        ) && held[x].path.last() == earlier[x - tree.len()].path.last() by {
            let file = earlier[x - tree.len()];
            assert(held[x] == copied(tree, file, namespace));
            assert(namespace =~= held[x].path.subrange(0, namespace.len() as int));
        }
        lemma_find(held, from);
        lemma_find_in_prefix(tree, held, from);
        assert(find(held, to) is None) by {
            lemma_find(held, to);
            if find(held, to) is Some {
                let y = find(held, to)->0;
                if y < tree.len() {
                    assert(held[y] == held.subrange(0, tree.len() as int)[y]);
                    assert(tree[y].path == to);
                } else {
                    assert(files[y - tree.len()].path.last() == given.path.last());
                }
            }
        }
        match node_at(held, from) {
            Some(NodeView::File(content)) => {
                let at = find(held, from)->0;
                assert(at < tree.len());
                assert(held[at] == held.subrange(0, tree.len() as int)[at]);
                assert(node_at(tree, from) == Some(NodeView::File(content)));
                let entry = EntryView { path: to, node: NodeView::File(content) };
                assert(copy_headers(tree, files, namespace).tree == held.push(entry));
                assert(entry == copied(tree, given, namespace));
                assert(copies(tree, files, namespace) =~= copies(tree, earlier, namespace).push(
                    entry,
                ));
                assert(held.push(entry) =~= tree + copies(tree, files, namespace));
            },
            _ => {},
        }
    }
}

/// What a directory shows once the headers are added to the tree: the
/// namespace directory shows them after what it showed before, every other
/// directory shows what it showed before.
pub proof fn lemma_listing_copies(
    tree: Seq<EntryView>,
    files: Seq<DirEntryView>,
    namespace: Seq<Seq<char>>,
    dir: Seq<Seq<char>>,
)
    requires
        forall|j: int|
            0 <= j < files.len() ==> node_at(tree, (#[trigger] files[j]).path) is Some && node_at(
                tree,
                files[j].path,
            )->0 is File,
    ensures
        listing(tree + copies(tree, files, namespace), dir) == if dir == namespace {
            listing(tree, dir) + shown_copies(files, namespace)
        } else {
            listing(tree, dir)
        },
    decreases files.len(),
{
    if files.len() == 0 {
        assert(tree + copies(tree, files, namespace) =~= tree);
        assert(listing(tree, dir) + shown_copies(files, namespace) =~= listing(tree, dir));
    } else {
        let earlier = files.drop_last();
        let given = files.last();
        assert forall|j: int| 0 <= j < earlier.len() implies earlier[j] == files[j] by {}
        assert(given == files[files.len() - 1]);
        lemma_listing_copies(tree, earlier, namespace, dir);
        let held = tree + copies(tree, earlier, namespace);
        let entry = copied(tree, given, namespace);
        assert(tree + copies(tree, files, namespace) =~= held.push(entry));
        lemma_listing_push(held, entry, dir);
        assert(namespace =~= entry.path.subrange(0, namespace.len() as int));
        if lies_in(dir, entry.path) {
            assert(dir =~= namespace);
        }
        assert(shown(entry) == shown_copy(given, namespace));
        assert(shown_copies(files, namespace) =~= shown_copies(earlier, namespace).push(
            shown_copy(given, namespace),
        ));
        if dir == namespace {
            assert(listing(tree, dir) + shown_copies(files, namespace) =~= (listing(tree, dir)
                + shown_copies(earlier, namespace)).push(shown_copy(given, namespace)));
        }
    }
}

/// Once the headers are added to the tree, the tree holds at the name of a
/// header in the namespace directory what it held at the header.
pub proof fn lemma_node_at_copy(
    tree: Seq<EntryView>,
    files: Seq<DirEntryView>,
    namespace: Seq<Seq<char>>,
    which: int,
)
    requires
        0 <= which < files.len(),
        node_at(tree, files[which].path) is Some,
        forall|i: int| 0 <= i < tree.len() ==> !lies_in(namespace, (#[trigger] tree[i]).path),
        forall|i: int, j: int|
            0 <= i < j < files.len() ==> (#[trigger] files[i]).path.last() != (
            #[trigger] files[j]).path.last(),
    ensures
        node_at(
            tree + copies(tree, files, namespace),
            namespace.push(files[which].path.last()),
        ) == node_at(tree, files[which].path),
{
    let made = tree + copies(tree, files, namespace);
    let to = namespace.push(files[which].path.last());
    assert(namespace =~= to.subrange(0, namespace.len() as int));
    assert(made[tree.len() + which] == copied(tree, files[which], namespace));
    lemma_find(made, to);
    let at = find(made, to)->0;
    if at < tree.len() {
        assert(made[at] == tree[at]);
        assert(lies_in(namespace, tree[at].path));
    } else {
        assert(made[at] == copied(tree, files[at - tree.len()], namespace));
        assert(files[at - tree.len()].path.last() == to.last());
        assert(to.last() == files[which].path.last());
        assert(at - tree.len() == which);
    }
}

/// What a patched slice holds. Where a slice of a well-formed tree was
/// patched with success, the tree is the prepared tree, in which the headers
/// of the slice are removed and its namespace directory is made, with the
/// headers that the prepared tree lists as generated added at the end; the
/// header directory of the slice shows the namespace directory and nothing
/// else; the namespace directory shows the generated headers under their
/// names, in their order; and each of them holds the bytes of the generated
/// header.
pub proof fn lemma_patched_headers(
    tree: Seq<EntryView>,
    slice: Seq<Seq<char>>,
    generated_dir: Seq<Seq<char>>,
    bundle_name: Seq<char>,
)
    requires
        well_formed(tree),
        patch_slice(tree, slice, generated_dir, bundle_name).outcome is Ok,
    ensures
        ({
            let headers = headers_dir(slice);
            let namespace = namespace_dir(slice, bundle_name);
            let prepared = with_directories(remove_tree(tree, headers), namespace);
            let files = listing(prepared, generated_headers(generated_dir));
            let patched = patch_slice(tree, slice, generated_dir, bundle_name).tree;
            &&& patched == prepared + copies(prepared, files, namespace)
            &&& listing(patched, headers) == seq![DirEntryView { path: namespace, is_dir: true }]
            &&& listing(patched, namespace) == shown_copies(files, namespace)
            &&& forall|j: int|
                0 <= j < files.len() ==> {
                    let from = (#[trigger] files[j]).path;
                    &&& node_at(prepared, from) is Some
                    &&& node_at(prepared, from)->0 is File
                    &&& node_at(patched, namespace.push(from.last())) == node_at(prepared, from)
                }
        }),
{
    broadcast use group_filter_ensures;

    let headers = headers_dir(slice);
    let namespace = namespace_dir(slice, bundle_name);
    let source = generated_headers(generated_dir);
    let cleared = remove_tree(tree, headers);
    let prepared = with_directories(cleared, namespace);
    let files = listing(prepared, source);
    let patched = patch_slice(tree, slice, generated_dir, bundle_name).tree;
    assert(patched == copy_headers(prepared, files, namespace).tree);
    assert forall|i: int| 0 <= i < cleared.len() implies !headers.is_prefix_of(
        (#[trigger] cleared[i]).path,
    ) by {
        assert(outside(headers)(cleared[i]));
    }
    lemma_prepared_shape(cleared, slice, bundle_name);
    let base = with_directories(cleared, slice);
    let headers_entry = EntryView { path: headers, node: NodeView::Directory };
    let namespace_entry = EntryView { path: namespace, node: NodeView::Directory };
    let first = base.push(headers_entry);
    assert(prepared == first.push(namespace_entry));
    assert(headers =~= namespace.subrange(0, headers.len() as int));
    assert(namespace.drop_last() =~= headers);
    // Nothing of the prepared tree lies in the namespace directory.
    assert forall|i: int| 0 <= i < prepared.len() implies !lies_in(
        namespace,
        (#[trigger] prepared[i]).path,
    ) by {
        if i < base.len() {
            assert(prepared[i] == base[i]);
            if lies_in(namespace, base[i].path) {
                assert(headers =~= base[i].path.subrange(0, headers.len() as int)) by {
                    assert(namespace =~= base[i].path.subrange(0, namespace.len() as int));
                }
            }
        }
    }
    // The listed headers have different names, and none is in the namespace
    // directory.
    lemma_remove_tree_well_formed(tree, headers);
    lemma_with_directories_well_formed(cleared, namespace);
    let listed = prepared.filter(child_of(source));
    lemma_filter_well_formed(prepared, child_of(source));
    assert forall|j: int| 0 <= j < files.len() implies (#[trigger] files[j]).path
        == listed[j].path && lies_in(source, listed[j].path) by {
        assert(files[j] == shown(listed[j]));
        assert(child_of(source)(listed[j]));
    }
    assert forall|i: int, j: int| 0 <= i < j < files.len() implies (#[trigger] files[i]).path.last()
        != (#[trigger] files[j]).path.last() by {
        if files[i].path.last() == files[j].path.last() {
            assert(files[i].path =~= source.push(files[i].path.last())) by {
                assert(source =~= files[i].path.subrange(0, source.len() as int));
            }
            assert(files[j].path =~= source.push(files[j].path.last())) by {
                assert(source =~= files[j].path.subrange(0, source.len() as int));
            }
            assert(listed[i].path == listed[j].path);
        }
    }
    assert forall|j: int| 0 <= j < files.len() implies !lies_in(
        namespace,
        (#[trigger] files[j]).path,
    ) by {
        if lies_in(namespace, files[j].path) {
            assert(listed.contains(listed[j]));
            prepared.lemma_filter_contains_rev(child_of(source), listed[j]);
            let k = choose|k: int| 0 <= k < prepared.len() && prepared[k] == listed[j];
            assert(lies_in(namespace, prepared[k].path));
        }
    }
    lemma_copy_headers_appends(prepared, files, namespace);
    // What the two directories show.
    assert forall|i: int| 0 <= i < base.len() implies !lies_in(
        headers,
        (#[trigger] base[i]).path,
    ) by {
        if lies_in(headers, base[i].path) {
            assert(headers.is_prefix_of(base[i].path));
        }
    }
    lemma_listing_none(base, headers);
    lemma_listing_push(base, headers_entry, headers);
    lemma_listing_push(first, namespace_entry, headers);
    assert(listing(prepared, headers) =~= seq![DirEntryView { path: namespace, is_dir: true }]);
    lemma_listing_none(prepared, namespace);
    lemma_listing_copies(prepared, files, namespace, headers);
    lemma_listing_copies(prepared, files, namespace, namespace);
    assert(listing(patched, namespace) =~= shown_copies(files, namespace));
    assert forall|j: int| 0 <= j < files.len() implies {
        let from = (#[trigger] files[j]).path;
        &&& node_at(prepared, from) is Some
        &&& node_at(prepared, from)->0 is File
        &&& node_at(patched, namespace.push(from.last())) == node_at(prepared, from)
    } by {
        lemma_node_at_copy(prepared, files, namespace, j);
    }
}

/// Where the generated headers are apart from the headers of the slice, so
/// that neither directory leads to the other, a patch with success gives the
/// slice the generated headers as the tree held them before: the namespace
/// directory shows them under their names, in their order, each holds the
/// bytes of the generated header, the header directory of the slice shows
/// nothing but the namespace directory, and the generated headers are as
/// they were.
pub proof fn lemma_patch_namespaces_generated_headers(
    tree: Seq<EntryView>,
    slice: Seq<Seq<char>>,
    generated_dir: Seq<Seq<char>>,
    bundle_name: Seq<char>,
)
    requires
        well_formed(tree),
        patch_slice(tree, slice, generated_dir, bundle_name).outcome is Ok,
        !headers_dir(slice).is_prefix_of(generated_headers(generated_dir)),
        !generated_headers(generated_dir).is_prefix_of(headers_dir(slice)),
    ensures
        ({
            let headers = headers_dir(slice);
            let namespace = namespace_dir(slice, bundle_name);
            let source = generated_headers(generated_dir);
            let generated = listing(tree, source);
            let patched = patch_slice(tree, slice, generated_dir, bundle_name).tree;
            &&& listing(patched, headers) == seq![DirEntryView { path: namespace, is_dir: true }]
            &&& listing(patched, namespace) == shown_copies(generated, namespace)
            &&& listing(patched, source) == generated
            &&& forall|j: int|
                0 <= j < generated.len() ==> {
                    let from = (#[trigger] generated[j]).path;
                    &&& node_at(tree, from) is Some
                    &&& node_at(tree, from)->0 is File
                    &&& node_at(patched, namespace.push(from.last())) == node_at(tree, from)
                    &&& node_at(patched, from) == node_at(tree, from)
                }
        }),
{
    broadcast use group_filter_ensures;

    let headers = headers_dir(slice);
    let namespace = namespace_dir(slice, bundle_name);
    let source = generated_headers(generated_dir);
    let cleared = remove_tree(tree, headers);
    let prepared = with_directories(cleared, namespace);
    let files = listing(prepared, source);
    let generated = listing(tree, source);
    let patched = patch_slice(tree, slice, generated_dir, bundle_name).tree;
    lemma_patched_headers(tree, slice, generated_dir, bundle_name);
    assert(namespace.drop_last() =~= headers);
    assert(headers.drop_last() =~= slice);
    // The directory of generated headers shows the same before and after the
    // slice is prepared.
    if lies_in(source, headers) {
        assert(source =~= headers.subrange(0, source.len() as int));
    }
    lemma_listing_removed(tree, headers, source);
    if source.is_prefix_of(namespace) && source.len() < namespace.len() {
        assert(source =~= headers.subrange(0, source.len() as int)) by {
            assert(source =~= namespace.subrange(0, source.len() as int));
        }
    }
    lemma_listing_with_directories(cleared, namespace, source);
    assert(files == generated);
    if source == namespace {
        assert(headers =~= source.subrange(0, headers.len() as int));
    }
    lemma_listing_copies(prepared, files, namespace, source);
    lemma_with_directories(cleared, namespace);
    let listed = tree.filter(child_of(source));
    assert forall|j: int| 0 <= j < generated.len() implies {
        let from = (#[trigger] generated[j]).path;
        &&& node_at(tree, from) is Some
        &&& node_at(tree, from)->0 is File
        &&& node_at(patched, namespace.push(from.last())) == node_at(tree, from)
        &&& node_at(patched, from) == node_at(tree, from)
    } by {
        let from = generated[j].path;
        assert(generated[j] == shown(listed[j]));
        assert(child_of(source)(listed[j]));
        assert(lies_in(source, from));
        // the header is in the tree
        assert(listed.contains(listed[j]));
        tree.lemma_filter_contains_rev(child_of(source), listed[j]);
        lemma_find(tree, from);
        // and outside the headers of the slice
        if headers.is_prefix_of(from) {
            if headers.len() <= source.len() {
                assert(headers =~= source.subrange(0, headers.len() as int)) by {
                    assert(headers =~= from.subrange(0, headers.len() as int));
                    assert(source =~= from.subrange(0, source.len() as int));
                }
            } else {
                assert(headers =~= from) by {
                    assert(headers =~= from.subrange(0, headers.len() as int));
                }
                assert(source =~= headers.subrange(0, source.len() as int));
            }
        }
        lemma_node_at_removed(tree, headers, from);
        lemma_node_at_extends(cleared, prepared, from);
        assert(prepared.is_prefix_of(patched)) by {
            assert(prepared =~= patched.subrange(0, prepared.len() as int));
        }
        lemma_node_at_extends(prepared, patched, from);
    }
}

} // verus!
