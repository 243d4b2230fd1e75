//! Finding the slices of a framework bundle and giving each of them a
//! namespaced header tree.
//!
//! The toolchain leaves the headers of a slice directly in its `headers`
//! directory. Patching a slice removes that directory and fills
//! `headers/<bundle name>/` with the generated headers instead.

use crate::console::command::{
    text_views, CommandDescriptor, CommandView, ProcessOutput, ProcessOutputView,
};
use crate::console::error::{bare, within, Cause, CauseView, Context, ContextView, Error, ErrorView};
use crate::path::{path_views, rendered, TreePath};
use crate::tree::{
    child_of, copy_file, create_dirs, is_directory, listing, listing_views, remove_dir, shown,
    well_formed, ChangeView, DirEntry, DirEntryView, EntryView, FileTree,
};
use vstd::prelude::*;
use vstd::seq_lib::group_filter_ensures;
use vstd::string::{StrSliceExecFns, StringExecFns};

verus! {

/// Whether `pattern` occurs in `text` as a run of consecutive characters.
pub open spec fn has_infix(text: Seq<char>, pattern: Seq<char>) -> bool {
    exists|i: int|
        0 <= i && i + pattern.len() <= text.len() && #[trigger] text.subrange(
            i,
            i + pattern.len(),
        ) == pattern
}

/// The text that marks the name of a bundle.
pub open spec fn bundle_marker() -> Seq<char> {
    ".xcframework"@
}

/// Whether a listed entry is a bundle: its name holds the marker.
pub open spec fn is_bundle(entry: DirEntryView) -> bool {
    entry.path.len() > 0 && has_infix(entry.path.last(), bundle_marker())
}

/// The index of the first listed entry that is a bundle, if there is one.
pub open spec fn first_bundle(shown: Seq<DirEntryView>) -> Option<int>
    decreases shown.len(),
{
    if shown.len() == 0 {
        None
    } else {
        match first_bundle(shown.drop_last()) {
            Some(i) => Some(i),
            None => if is_bundle(shown.last()) {
                Some(shown.len() - 1)
            } else {
                None
            },
        }
    }
}

/// The paths of the listed entries that are directories, in their order.
pub open spec fn directories_of(shown: Seq<DirEntryView>) -> Seq<Seq<Seq<char>>> {
    shown.filter(|e: DirEntryView| e.is_dir).map_values(|e: DirEntryView| e.path)
}

/// The slices of the bundle in `output_dir`: the directories directly inside
/// the first entry of `output_dir` that is a bundle.
pub open spec fn find_slices(tree: Seq<EntryView>, output_dir: Seq<Seq<char>>) -> Result<
    Seq<Seq<Seq<char>>>,
    ErrorView,
> {
    if !is_directory(tree, output_dir) {
        Err(bare(CauseView::ListFailed { directory: output_dir }))
    } else {
        match first_bundle(listing(tree, output_dir)) {
            None => Err(bare(CauseView::BundleNotFound { searched: output_dir })),
            Some(i) => {
                let bundle = listing(tree, output_dir)[i].path;
                if !is_directory(tree, bundle) {
                    Err(bare(CauseView::ListFailed { directory: bundle }))
                } else {
                    Ok(directories_of(listing(tree, bundle)))
                }
            },
        }
    }
}

/// The header directory of a slice.
pub open spec fn headers_dir(slice: Seq<Seq<char>>) -> Seq<Seq<char>> {
    slice.push("headers"@)
}

/// The directory inside the headers of a slice that is named after the
/// bundle.
pub open spec fn namespace_dir(slice: Seq<Seq<char>>, bundle_name: Seq<char>) -> Seq<Seq<char>> {
    headers_dir(slice).push(bundle_name)
}

/// The directory that holds the generated headers.
pub open spec fn generated_headers(generated_dir: Seq<Seq<char>>) -> Seq<Seq<char>> {
    generated_dir.push("headers"@)
}

/// What a piece of work has made of a tree.
pub struct Patched {
    /// The tree after the work.
    pub tree: Seq<EntryView>,
    /// The changes that the work made, in their order.
    pub changes: Seq<ChangeView>,
    /// How the work ended.
    pub outcome: Result<(), ErrorView>,
}

/// Work that ends at once with this error and changes nothing.
pub open spec fn refused(tree: Seq<EntryView>, cause: CauseView) -> Patched {
    Patched { tree, changes: Seq::empty(), outcome: Err(bare(cause)) }
}

/// The work `first` followed by the work `then`, which began where `first`
/// ended.
pub open spec fn followed_by(first: Seq<ChangeView>, then: Patched) -> Patched {
    Patched { changes: first + then.changes, ..then }
}

/// The same work as it leaves the step `context`: its error, if it has one,
/// is wrapped.
pub open spec fn in_context(work: Patched, context: ContextView) -> Patched {
    match work.outcome {
        Ok(()) => work,
        Err(e) => Patched { outcome: Err(within(e, context)), ..work },
    }
}

/// The work of copying the listed entries, in their order, into `namespace`,
/// each under its own name. The first entry that cannot be copied ends it.
pub open spec fn copy_headers(
    tree: Seq<EntryView>,
    files: Seq<DirEntryView>,
    namespace: Seq<Seq<char>>,
) -> Patched
    decreases files.len(),
{
    if files.len() == 0 {
        Patched { tree, changes: Seq::empty(), outcome: Ok(()) }
    } else {
        let before = copy_headers(tree, files.drop_last(), namespace);
        if before.outcome is Err {
            before
        } else {
            let from = files.last().path;
            let to = namespace.push(from.last());
            match copy_file(before.tree, from, to) {
                Some(after) => Patched {
                    tree: after,
                    changes: before.changes.push(ChangeView::CopyFile { from, to }),
                    outcome: Ok(()),
                },
                None => Patched {
                    outcome: Err(bare(CauseView::CopyFailed { from, to })),
                    ..before
                },
            }
        }
    }
}

/// The work of patching one slice: its header directory is removed, the
/// namespace directory is made in its place, and every entry directly inside
/// the generated headers is copied there. What was done before a failure
/// stays done.
pub open spec fn patch_slice(
    tree: Seq<EntryView>,
    slice: Seq<Seq<char>>,
    generated_dir: Seq<Seq<char>>,
    bundle_name: Seq<char>,
) -> Patched {
    let headers = headers_dir(slice);
    match remove_dir(tree, headers) {
        None => refused(tree, CauseView::MissingHeaders { headers }),
        Some(cleared) => {
            let namespace = namespace_dir(slice, bundle_name);
            let removed = seq![ChangeView::RemoveDirAll(headers)];
            match create_dirs(cleared, namespace) {
                None => followed_by(
                    removed,
                    refused(cleared, CauseView::CreateFailed { directory: namespace }),
                ),
                Some(prepared) => {
                    let source = generated_headers(generated_dir);
                    let made = removed.push(ChangeView::CreateDirAll(namespace));
                    if !is_directory(prepared, source) {
                        followed_by(
                            made,
                            refused(prepared, CauseView::ReadFailed { directory: source }),
                        )
                    } else {
                        followed_by(
                            made,
                            copy_headers(prepared, listing(prepared, source), namespace),
                        )
                    }
                },
            }
        },
    }
}

/// The work of patching these slices in their order. The first slice that
/// fails ends it, and its error names the slice.
pub open spec fn patch_slices(
    tree: Seq<EntryView>,
    slices: Seq<Seq<Seq<char>>>,
    generated_dir: Seq<Seq<char>>,
    bundle_name: Seq<char>,
) -> Patched
    decreases slices.len(),
{
    if slices.len() == 0 {
        Patched { tree, changes: Seq::empty(), outcome: Ok(()) }
    } else {
        let before = patch_slices(tree, slices.drop_last(), generated_dir, bundle_name);
        if before.outcome is Err {
            before
        } else {
            followed_by(
                before.changes,
                in_context(
                    patch_slice(before.tree, slices.last(), generated_dir, bundle_name),
                    ContextView::Slice(slices.last()),
                ),
            )
        }
    }
}

/// The work of patching the bundle in `output_dir`: its slices are looked up
/// once, in the tree as it is given, and then patched in their order.
pub open spec fn patch_bundle(
    tree: Seq<EntryView>,
    output_dir: Seq<Seq<char>>,
    generated_dir: Seq<Seq<char>>,
    bundle_name: Seq<char>,
) -> Patched {
    match find_slices(tree, output_dir) {
        Err(e) => Patched {
            tree,
            changes: Seq::empty(),
            outcome: Err(within(e, ContextView::Inspecting)),
        },
        Ok(slices) => patch_slices(tree, slices, generated_dir, bundle_name),
    }
}

/// The work that is left once the toolchain has run: where it reported
/// failure, nothing is changed and the error holds what the toolchain wrote
/// to its standard error; else the bundle is patched.
pub open spec fn create_bundle(
    tree: Seq<EntryView>,
    toolchain: ProcessOutputView,
    output_dir: Seq<Seq<char>>,
    generated_dir: Seq<Seq<char>>,
    bundle_name: Seq<char>,
) -> Patched {
    if toolchain.success {
        in_context(
            patch_bundle(tree, output_dir, generated_dir, bundle_name),
            ContextView::Bundle,
        )
    } else {
        refused(tree, CauseView::CommandFailed { stderr: toolchain.stderr })
    }
}

/// The arguments that name the libraries: for each of them `-library`, its
/// path, `-headers` and the header directory.
pub open spec fn library_arguments(libraries: Seq<Seq<char>>, headers: Seq<char>) -> Seq<Seq<char>>
    decreases libraries.len(),
{
    if libraries.len() == 0 {
        Seq::empty()
    } else {
        library_arguments(libraries.drop_last(), headers) + seq![
            "-library"@,
            libraries.last(),
            "-headers"@,
            headers,
        ]
    }
}

/// Where the toolchain is told to put the bundle.
pub open spec fn bundle_location(output_dir: Seq<Seq<char>>, bundle_name: Seq<char>) -> Seq<char> {
    rendered(output_dir) + "/"@ + bundle_name + ".xcframework"@
}

/// The toolchain's invocation that makes one bundle of these libraries.
pub open spec fn toolchain_invocation(
    libraries: Seq<Seq<char>>,
    bundle_name: Seq<char>,
    generated_dir: Seq<Seq<char>>,
    output_dir: Seq<Seq<char>>,
) -> CommandView {
    CommandView {
        program: "xcodebuild"@,
        arguments: seq!["-create-xcframework"@] + library_arguments(
            libraries,
            rendered(generated_headers(generated_dir)),
        ) + seq!["-output"@, bundle_location(output_dir, bundle_name)],
    }
}

/// Once a slice has failed, a longer list of slices gives the same tree and
/// the same error.
pub proof fn lemma_patch_slices_stops(
    tree: Seq<EntryView>,
    slices: Seq<Seq<Seq<char>>>,
    generated_dir: Seq<Seq<char>>,
    bundle_name: Seq<char>,
    done: int,
)
    requires
        0 <= done <= slices.len(),
        patch_slices(tree, slices.take(done), generated_dir, bundle_name).outcome is Err,
    ensures
        patch_slices(tree, slices, generated_dir, bundle_name) == patch_slices(
            tree,
            slices.take(done),
            generated_dir,
            bundle_name,
        ),
    decreases slices.len(),
{
    if done == slices.len() {
        assert(slices.take(done) =~= slices);
    } else {
        assert(slices.drop_last().take(done) =~= slices.take(done));
        lemma_patch_slices_stops(tree, slices.drop_last(), generated_dir, bundle_name, done);
    }
}

/// Whether the tree went from `before` to `after` by this work and `outcome`
/// is how the work ended: the tree is what the work made of it, and the
/// changes of the work were added to those that the tree held.
pub open spec fn did(
    before: &FileTree,
    after: &FileTree,
    outcome: Result<(), Error>,
    work: Patched,
) -> bool {
    &&& after@ == work.tree
    &&& after.changes() == before.changes() + work.changes
    &&& outcome_view(outcome) == work.outcome
}

/// An outcome in specifications.
pub open spec fn outcome_view(outcome: Result<(), Error>) -> Result<(), ErrorView> {
    match outcome {
        Ok(()) => Ok(()),
        Err(e) => Err(e@),
    }
}

/// Once a copy has failed, a longer list of entries gives the same tree and
/// the same error.
pub proof fn lemma_copy_headers_stops(
    tree: Seq<EntryView>,
    files: Seq<DirEntryView>,
    namespace: Seq<Seq<char>>,
    done: int,
)
    requires
        0 <= done <= files.len(),
        copy_headers(tree, files.take(done), namespace).outcome is Err,
    ensures
        copy_headers(tree, files, namespace) == copy_headers(tree, files.take(done), namespace),
    decreases files.len(),
{
    if done == files.len() {
        assert(files.take(done) =~= files);
    } else {
        assert(files.drop_last().take(done) =~= files.take(done));
        lemma_copy_headers_stops(tree, files.drop_last(), namespace, done);
    }
}

/// Whether `pattern` occurs in `text`.
pub fn contains_text(text: &str, pattern: &str) -> (found: bool)
    ensures
        found == has_infix(text@, pattern@),
{
    let n = text.unicode_len();
    let m = pattern.unicode_len();
    if m > n {
        return false;
    }
    let last = n - m;
    let mut i: usize = 0;
    loop
        invariant
            n == text@.len(),
            m == pattern@.len(),
            last == n - m,
            i <= last,
            forall|k: int| 0 <= k < i ==> #[trigger] text@.subrange(k, k + m) != pattern@,
        decreases last - i,
    {
        let mut j: usize = 0;
        let mut same = true;
        while j < m && same
            invariant
                n == text@.len(),
                m == pattern@.len(),
                last == n - m,
                i <= last,
                j <= m,
                same ==> forall|l: int| 0 <= l < j ==> text@[i + l] == pattern@[l],
                !same ==> text@.subrange(i as int, i + m) != pattern@,
            decreases m - j, same as int,
        {
            if text.get_char(i + j) != pattern.get_char(j) {
                same = false;
                assert(text@.subrange(i as int, i + m)[j as int] != pattern@[j as int]);
            } else {
                j += 1;
            }
        }
        if same {
            assert(text@.subrange(i as int, i + m) =~= pattern@);
            return true;
        }
        if i == last {
            return false;
        }
        i += 1;
    }
}

/// Whether a listed entry is a bundle.
pub fn entry_is_bundle(entry: &DirEntry) -> (yes: bool)
    ensures
        yes == is_bundle(entry@),
{
    match entry.path.file_name() {
        Some(name) => contains_text(name.as_str(), ".xcframework"),
        None => false,
    }
}

/// Looks in `output_dir` for the bundle and returns the slices in it: the
/// directories directly inside the bundle, in the order in which the bundle
/// shows them. Where several entries of `output_dir` are bundles, the one
/// that `output_dir` shows first is taken.
pub fn search_subframework_paths(tree: &FileTree, output_dir: &TreePath) -> (found: Result<
    Vec<TreePath>,
    Error,
>)
    ensures
        match find_slices(tree@, output_dir@) {
            Ok(slices) => found is Ok && path_views(found->Ok_0@) == slices,
            Err(e) => found is Err && found->Err_0@ == e,
        },
{
    let shown = match tree.read_dir(output_dir) {
        Some(shown) => shown,
        None => {
            return Err(Error::new(Cause::ListFailed { directory: output_dir.clone() }));
        },
    };
    let ghost all = listing(tree@, output_dir@);
    let mut bundle: Option<usize> = None;
    let mut i: usize = 0;
    while i < shown.len()
        invariant
            i <= shown.len(),
            listing_views(shown@) == all,
            match bundle {
                Some(k) => first_bundle(all.take(i as int)) == Some(k as int) && k < i,
                None => first_bundle(all.take(i as int)) is None,
            },
        decreases shown.len() - i,
    {
        proof {
            assert(all.take(i + 1).drop_last() =~= all.take(i as int));
            assert(all.take(i + 1).last() == shown@[i as int]@);
        }
        if bundle.is_none() && entry_is_bundle(&shown[i]) {
            bundle = Some(i);
        }
        i += 1;
    }
    assert(all.take(all.len() as int) =~= all);
    let at = match bundle {
        Some(at) => at,
        None => {
            return Err(Error::new(Cause::BundleNotFound { searched: output_dir.clone() }));
        },
    };
    let bundle_path = &shown[at].path;
    assert(bundle_path@ == all[at as int].path);
    let inside = match tree.read_dir(bundle_path) {
        Some(inside) => inside,
        None => {
            return Err(Error::new(Cause::ListFailed { directory: bundle_path.clone() }));
        },
    };
    let ghost content = listing(tree@, bundle_path@);
    let ghost is_dir = |e: DirEntryView| e.is_dir;
    let ghost path_of = |e: DirEntryView| e.path;
    let mut slices: Vec<TreePath> = Vec::new();
    let mut j: usize = 0;
    while j < inside.len()
        invariant
            j <= inside.len(),
            listing_views(inside@) == content,
            is_dir == |e: DirEntryView| e.is_dir,
            path_of == |e: DirEntryView| e.path,
            path_views(slices@) == content.take(j as int).filter(is_dir).map_values(path_of),
        decreases inside.len() - j,
    {
        let ghost before = path_views(slices@);
        proof {
            broadcast use Seq::lemma_filter_push, Seq::lemma_push_map_commute;

            assert(content.take(j + 1) =~= content.take(j as int).push(inside@[j as int]@));
        }
        if inside[j].is_dir {
            slices.push(inside[j].path.clone());
            assert(path_views(slices@) =~= before.push(inside@[j as int]@.path));
        }
        j += 1;
    }
    assert(content.take(content.len() as int) =~= content);
    Ok(slices)
}

/// Gives the slice at `sf_dir` a namespaced header tree: removes its
/// `headers` directory, makes `headers/<xcframework_name>/`, and copies every
/// entry directly inside `<generated_dir>/headers` there under its own name.
/// Directories inside the generated headers are not walked: one of them makes
/// the copy fail. The first failure ends the work, and what was done before
/// it stays done.
pub fn patch_subframework(
    tree: &mut FileTree,
    sf_dir: &TreePath,
    generated_dir: &TreePath,
    xcframework_name: &str,
) -> (outcome: Result<(), Error>)
    ensures
        did(
            old(tree),
            final(tree),
            outcome,
            patch_slice(old(tree)@, sf_dir@, generated_dir@, xcframework_name@),
        ),
        well_formed(old(tree)@) ==> well_formed(final(tree)@),
{
    let ghost recorded = tree.changes();
    let headers = sf_dir.join("headers");
    if !tree.remove_dir_all(&headers) {
        assert(recorded + Seq::<ChangeView>::empty() =~= recorded);
        return Err(Error::new(Cause::MissingHeaders { headers }));
    }
    let ghost removed = seq![ChangeView::RemoveDirAll(headers@)];
    let namespace = headers.join(xcframework_name);
    if !tree.create_dir_all(&namespace) {
        assert(recorded + (removed + Seq::<ChangeView>::empty()) =~= recorded.push(removed[0]));
        return Err(Error::new(Cause::CreateFailed { directory: namespace }));
    }
    let ghost made = removed.push(ChangeView::CreateDirAll(namespace@));
    let source = generated_dir.join("headers");
    let files = match tree.read_dir(&source) {
        Some(files) => files,
        None => {
            assert(recorded + (made + Seq::<ChangeView>::empty()) =~= recorded.push(
                made[0],
            ).push(made[1]));
            return Err(Error::new(Cause::ReadFailed { directory: source }));
        },
    };
    let ghost prepared = tree@;
    let ghost all = listing(prepared, source@);
    assert(tree.changes() =~= recorded + (made + Seq::<ChangeView>::empty()));
    let mut i: usize = 0;
    while i < files.len()
        invariant
            i <= files.len(),
            listing_views(files@) == all,
            all == listing(prepared, source@),
            patch_slice(old(tree)@, sf_dir@, generated_dir@, xcframework_name@) == followed_by(
                made,
                copy_headers(prepared, all, namespace@),
            ),
            copy_headers(prepared, all.take(i as int), namespace@).tree == tree@,
            copy_headers(prepared, all.take(i as int), namespace@).outcome is Ok,
            tree.changes() == recorded + (made + copy_headers(
                prepared,
                all.take(i as int),
                namespace@,
            ).changes),
            recorded == old(tree).changes(),
            well_formed(old(tree)@) ==> well_formed(tree@),
        decreases files.len() - i,
    {
        let from = &files[i].path;
        proof {
            broadcast use group_filter_ensures;

            assert(all.take(i + 1).drop_last() =~= all.take(i as int));
            assert(all.take(i + 1).last() == files@[i as int]@);
            let listed = prepared.filter(child_of(source@));
            assert(all[i as int] == shown(listed[i as int]));
            assert(child_of(source@)(listed[i as int]));
        }
        // A listed entry lies in a directory, so it has a name.
        let name = match from.file_name() {
            Some(name) => name,
            None => String::new(),
        };
        let to = namespace.join(name.as_str());
        let ghost before = copy_headers(prepared, all.take(i as int), namespace@);
        let ghost step = copy_headers(prepared, all.take(i + 1), namespace@);
        if !tree.copy(from, &to) {
            proof {
                assert(step == (Patched {
                    outcome: Err(bare(CauseView::CopyFailed { from: from@, to: to@ })),
                    ..before
                }));
                lemma_copy_headers_stops(prepared, all, namespace@, i + 1);
            }
            return Err(Error::new(Cause::CopyFailed { from: from.clone(), to }));
        }
        proof {
            let copied = ChangeView::CopyFile { from: from@, to: to@ };
            assert(step == (Patched {
                tree: tree@,
                changes: before.changes.push(copied),
                outcome: Ok(()),
            }));
            assert(recorded + (made + before.changes.push(copied)) =~= (recorded + (made
                + before.changes)).push(copied));
        }
        i += 1;
    }
    assert(all.take(all.len() as int) =~= all);
    Ok(())
}

/// Patches every slice of the bundle in `output_dir`, in the order in which
/// the bundle shows them. The slices are looked up first; a failure there is
/// returned as it leaves that step. The first slice that fails ends the work
/// with an error that names it: the slices before it stay patched, itself as
/// far as it got, and those after it are not touched.
pub fn patch_xcframework(
    tree: &mut FileTree,
    output_dir: &TreePath,
    generated_dir: &TreePath,
    xcframework_name: &str,
) -> (outcome: Result<(), Error>)
    ensures
        did(
            old(tree),
            final(tree),
            outcome,
            patch_bundle(old(tree)@, output_dir@, generated_dir@, xcframework_name@),
        ),
        well_formed(old(tree)@) ==> well_formed(final(tree)@),
{
    let ghost recorded = tree.changes();
    let subframeworks = match search_subframework_paths(tree, output_dir) {
        Ok(subframeworks) => subframeworks,
        Err(e) => {
            assert(recorded + Seq::<ChangeView>::empty() =~= recorded);
            return Err(e.context(Context::Inspecting));
        },
    };
    let ghost slices = path_views(subframeworks@);
    assert(recorded + Seq::<ChangeView>::empty() =~= recorded);
    let mut i: usize = 0;
    while i < subframeworks.len()
        invariant
            i <= subframeworks.len(),
            slices == path_views(subframeworks@),
            patch_bundle(old(tree)@, output_dir@, generated_dir@, xcframework_name@)
                == patch_slices(old(tree)@, slices, generated_dir@, xcframework_name@),
            patch_slices(
                old(tree)@,
                slices.take(i as int),
                generated_dir@,
                xcframework_name@,
            ).tree == tree@,
            patch_slices(
                old(tree)@,
                slices.take(i as int),
                generated_dir@,
                xcframework_name@,
            ).outcome is Ok,
            tree.changes() == recorded + patch_slices(
                old(tree)@,
                slices.take(i as int),
                generated_dir@,
                xcframework_name@,
            ).changes,
            recorded == old(tree).changes(),
            well_formed(old(tree)@) ==> well_formed(tree@),
        decreases subframeworks.len() - i,
    {
        let subframework = &subframeworks[i];
        let ghost before = patch_slices(
            old(tree)@,
            slices.take(i as int),
            generated_dir@,
            xcframework_name@,
        );
        let ghost one = patch_slice(tree@, subframework@, generated_dir@, xcframework_name@);
        let ghost step = patch_slices(
            old(tree)@,
            slices.take(i + 1),
            generated_dir@,
            xcframework_name@,
        );
        proof {
            assert(slices.take(i + 1).drop_last() =~= slices.take(i as int));
            assert(slices.take(i + 1).last() == subframework@);
            assert(step == followed_by(
                before.changes,
                in_context(one, ContextView::Slice(subframework@)),
            ));
            assert(recorded + (before.changes + one.changes) =~= (recorded + before.changes)
                + one.changes);
        }
        match patch_subframework(tree, subframework, generated_dir, xcframework_name) {
            Ok(()) => {},
            Err(e) => {
                proof {
                    lemma_patch_slices_stops(
                        old(tree)@,
                        slices,
                        generated_dir@,
                        xcframework_name@,
                        i + 1,
                    );
                }
                return Err(e.context(Context::Slice(subframework.clone())));
            },
        }
        i += 1;
    }
    assert(slices.take(slices.len() as int) =~= slices);
    Ok(())
}

/// The command that makes the bundle: the toolchain is told each library
/// with the generated headers, and to put the bundle named after
/// `xcframework_name` into `output_dir`.
pub fn toolchain_command(
    libraries: &Vec<String>,
    xcframework_name: &str,
    generated_dir: &TreePath,
    output_dir: &TreePath,
) -> (command: CommandDescriptor)
    ensures
        command@ == toolchain_invocation(
            text_views(libraries@),
            xcframework_name@,
            generated_dir@,
            output_dir@,
        ),
{
    let headers = generated_dir.join("headers").display();
    let mut arguments: Vec<String> = Vec::new();
    arguments.push(String::from_str("-create-xcframework"));
    let ghost named = text_views(libraries@);
    let mut i: usize = 0;
    assert(text_views(arguments@) =~= seq!["-create-xcframework"@] + library_arguments(
        named.take(0),
        headers@,
    ));
    while i < libraries.len()
        invariant
            i <= libraries.len(),
            named == text_views(libraries@),
            text_views(arguments@) == seq!["-create-xcframework"@] + library_arguments(
                named.take(i as int),
                headers@,
            ),
        decreases libraries.len() - i,
    {
        let ghost before = text_views(arguments@);
        proof {
            assert(named.take(i + 1).drop_last() =~= named.take(i as int));
            assert(named.take(i + 1).last() == libraries@[i as int]@);
        }
        arguments.push(String::from_str("-library"));
        arguments.push(libraries[i].clone());
        arguments.push(String::from_str("-headers"));
        arguments.push(headers.clone());
        assert(text_views(arguments@) =~= before + seq![
            "-library"@,
            libraries@[i as int]@,
            "-headers"@,
            headers@,
        ]);
        i += 1;
    }
    assert(named.take(named.len() as int) =~= named);
    let ghost before = text_views(arguments@);
    let mut location = output_dir.display();
    location.append("/");
    location.append(xcframework_name);
    location.append(".xcframework");
    arguments.push(String::from_str("-output"));
    arguments.push(location);
    assert(text_views(arguments@) =~= before + seq!["-output"@, location@]);
    let command = CommandDescriptor { program: String::from_str("xcodebuild"), arguments };
    assert(command@.arguments =~= text_views(arguments@));
    command
}

/// Finishes the bundle once the toolchain has run. Where the toolchain
/// reported failure, the error holds what it wrote to its standard error and
/// the tree is not touched; else the bundle in `output_dir` is patched, and a
/// failure there is returned as it leaves that step.
pub fn create_xcframework(
    tree: &mut FileTree,
    toolchain: ProcessOutput,
    xcframework_name: &str,
    generated_dir: &TreePath,
    output_dir: &TreePath,
) -> (outcome: Result<(), Error>)
    ensures
        did(
            old(tree),
            final(tree),
            outcome,
            create_bundle(old(tree)@, toolchain@, output_dir@, generated_dir@, xcframework_name@),
        ),
        well_formed(old(tree)@) ==> well_formed(final(tree)@),
{
    assert(tree.changes() + Seq::<ChangeView>::empty() =~= tree.changes());
    if toolchain.success {
        match patch_xcframework(tree, output_dir, generated_dir, xcframework_name) {
            Ok(()) => Ok(()),
            Err(e) => Err(e.context(Context::Bundle)),
        }
    } else {
        Err(Error::from_stderr(toolchain.stderr))
    }
}

} // verus!
