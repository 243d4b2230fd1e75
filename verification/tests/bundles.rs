use framework_bundler::console::command::{CommandDescriptor, ProcessOutput};
use framework_bundler::console::error::{Cause, Context, Error, ErrorKind};
use framework_bundler::path::TreePath;
use framework_bundler::tree::{Change, Entry, FileTree, Node};
use framework_bundler::xcframework::{
    contains_text, create_xcframework, patch_subframework, patch_xcframework,
    search_subframework_paths, toolchain_command,
};

fn at(text: &str) -> TreePath {
    let mut path = TreePath::root();
    for part in text.split('/') {
        path = path.join(part);
    }
    path
}

fn folder(text: &str) -> Entry {
    Entry { path: at(text), node: Node::Directory }
}

fn header(text: &str, content: &str) -> Entry {
    Entry { path: at(text), node: Node::File(content.as_bytes().to_vec()) }
}

fn generated() -> Vec<Entry> {
    vec![
        folder("gen"),
        folder("gen/headers"),
        header("gen/headers/A.h", "// A"),
        header("gen/headers/B.h", "// B"),
    ]
}

fn slice(name: &str) -> Vec<Entry> {
    let base = format!("out/Core.xcframework/{name}");
    vec![
        folder(&base),
        folder(&format!("{base}/headers")),
        header(&format!("{base}/headers/A.h"), "stale A"),
        header(&format!("{base}/headers/old.h"), "stale"),
        header(&format!("{base}/libcore.a"), "binary"),
    ]
}

fn bundle_with(slices: &[&str]) -> FileTree {
    let mut entries = generated();
    entries.push(folder("out"));
    entries.push(folder("out/Core.xcframework"));
    entries.push(header("out/Core.xcframework/Info.plist", "<plist/>"));
    for name in slices {
        entries.extend(slice(name));
    }
    FileTree::from_entries(entries)
}

#[test]
fn contains_text_finds_a_run_of_characters() {
    assert!(contains_text("Core.xcframework", ".xcframework"));
    assert!(contains_text(".xcframework", ".xcframework"));
    assert!(contains_text("a.xcframework.zip", ".xcframework"));
    assert!(!contains_text("Core.framework", ".xcframework"));
    assert!(!contains_text(".xcframewor", ".xcframework"));
    assert!(!contains_text("", ".xcframework"));
    assert!(contains_text("anything", ""));
    assert!(contains_text("", ""));
    assert!(contains_text("äö.xcframework", ".xcframework"));
    assert!(contains_text("aab", "ab"));
    assert!(!contains_text("aba", "bb"));
}

#[test]
fn search_without_a_bundle_is_a_validation_error() {
    let tree = FileTree::from_entries(vec![
        folder("out"),
        folder("out/Core.framework"),
        header("out/notes.txt", ""),
    ]);
    let error = search_subframework_paths(&tree, &at("out")).unwrap_err();
    assert_eq!(error.kind(), ErrorKind::Validation);
    assert_eq!(error, Error::new(Cause::BundleNotFound { searched: at("out") }));
    assert_eq!(error.message(), "failed to find .xcframework in out");
}

#[test]
fn search_returns_exactly_the_two_slices() {
    let tree = bundle_with(&["ios-arm64", "macos-arm64_x86_64"]);
    let found = search_subframework_paths(&tree, &at("out")).unwrap();
    assert_eq!(
        found,
        vec![
            at("out/Core.xcframework/ios-arm64"),
            at("out/Core.xcframework/macos-arm64_x86_64"),
        ]
    );
}

#[test]
fn search_in_an_empty_bundle_finds_no_slice() {
    let tree = FileTree::from_entries(vec![
        folder("out"),
        folder("out/Core.xcframework"),
        header("out/Core.xcframework/Info.plist", ""),
    ]);
    assert_eq!(search_subframework_paths(&tree, &at("out")), Ok(vec![]));
}

#[test]
fn search_takes_the_first_of_several_bundles() {
    let tree = FileTree::from_entries(vec![
        folder("out"),
        folder("out/other"),
        folder("out/Second.xcframework"),
        folder("out/First.xcframework"),
        folder("out/First.xcframework/ios"),
        folder("out/Second.xcframework/macos"),
    ]);
    assert_eq!(
        search_subframework_paths(&tree, &at("out")),
        Ok(vec![at("out/Second.xcframework/macos")])
    );
}

#[test]
fn search_in_what_is_no_directory_fails_to_list() {
    let tree = FileTree::from_entries(vec![header("out", "")]);
    let error = search_subframework_paths(&tree, &at("out")).unwrap_err();
    assert_eq!(error, Error::new(Cause::ListFailed { directory: at("out") }));
    assert_eq!(error.kind(), ErrorKind::Io);
    assert_eq!(error.message(), "Failed to read directory out");
    let missing = search_subframework_paths(&tree, &at("elsewhere")).unwrap_err();
    assert_eq!(missing, Error::new(Cause::ListFailed { directory: at("elsewhere") }));
}

#[test]
fn search_fails_where_the_bundle_is_a_file() {
    let tree = FileTree::from_entries(vec![
        folder("out"),
        header("out/Core.xcframework", "not a directory"),
    ]);
    assert_eq!(
        search_subframework_paths(&tree, &at("out")),
        Err(Error::new(Cause::ListFailed { directory: at("out/Core.xcframework") }))
    );
}

#[test]
fn patch_puts_generated_headers_under_the_bundle_name() {
    let mut tree = bundle_with(&["ios-arm64"]);
    let slice_dir = at("out/Core.xcframework/ios-arm64");
    assert_eq!(patch_subframework(&mut tree, &slice_dir, &at("gen"), "Core"), Ok(()));
    let headers = slice_dir.join("headers");
    let namespace = headers.join("Core");
    assert_eq!(tree.read_file(&namespace.join("A.h")), Some(b"// A".to_vec()));
    assert_eq!(tree.read_file(&namespace.join("B.h")), Some(b"// B".to_vec()));
    assert!(!tree.holds(&headers.join("A.h")));
    assert!(!tree.holds(&headers.join("B.h")));
    assert!(!tree.holds(&headers.join("old.h")));
    let shown = tree.read_dir(&headers).unwrap();
    assert_eq!(shown.len(), 1);
    assert_eq!(shown[0].path, namespace);
    assert!(shown[0].is_dir);
    let inside = tree.read_dir(&namespace).unwrap();
    assert_eq!(inside.len(), 2);
    assert_eq!(inside[0].path, namespace.join("A.h"));
    assert_eq!(inside[1].path, namespace.join("B.h"));
    assert_eq!(tree.read_file(&slice_dir.join("libcore.a")), Some(b"binary".to_vec()));
    assert_eq!(tree.read_file(&at("gen/headers/A.h")), Some(b"// A".to_vec()));
}

#[test]
fn patch_records_what_it_did() {
    let mut tree = bundle_with(&["ios-arm64"]);
    let slice_dir = at("out/Core.xcframework/ios-arm64");
    assert_eq!(patch_subframework(&mut tree, &slice_dir, &at("gen"), "Core"), Ok(()));
    let namespace = slice_dir.join("headers").join("Core");
    assert_eq!(
        tree.take_changes(),
        vec![
            Change::RemoveDirAll(slice_dir.join("headers")),
            Change::CreateDirAll(namespace.clone()),
            Change::CopyFile { from: at("gen/headers/A.h"), to: namespace.join("A.h") },
            Change::CopyFile { from: at("gen/headers/B.h"), to: namespace.join("B.h") },
        ]
    );
}

#[test]
fn patch_twice_gives_the_same_tree() {
    let mut tree = bundle_with(&["ios-arm64"]);
    let slice_dir = at("out/Core.xcframework/ios-arm64");
    assert_eq!(patch_subframework(&mut tree, &slice_dir, &at("gen"), "Core"), Ok(()));
    let once = tree.entries().clone();
    assert_eq!(patch_subframework(&mut tree, &slice_dir, &at("gen"), "Core"), Ok(()));
    assert_eq!(tree.entries(), &once);
    let namespace = slice_dir.join("headers").join("Core");
    assert_eq!(tree.read_file(&namespace.join("A.h")), Some(b"// A".to_vec()));
    assert_eq!(tree.read_file(&namespace.join("B.h")), Some(b"// B".to_vec()));
}

#[test]
fn patch_without_headers_fails_and_changes_nothing() {
    let mut entries = generated();
    entries.push(folder("out"));
    entries.push(folder("out/Core.xcframework"));
    entries.push(folder("out/Core.xcframework/ios-arm64"));
    entries.push(header("out/Core.xcframework/ios-arm64/libcore.a", "binary"));
    let before = entries.clone();
    let mut tree = FileTree::from_entries(entries);
    let slice_dir = at("out/Core.xcframework/ios-arm64");
    let error = patch_subframework(&mut tree, &slice_dir, &at("gen"), "Core").unwrap_err();
    assert_eq!(error.kind(), ErrorKind::Validation);
    assert_eq!(error, Error::new(Cause::MissingHeaders { headers: slice_dir.join("headers") }));
    assert_eq!(
        error.message(),
        "Failed to remove unpatched directory out/Core.xcframework/ios-arm64/headers"
    );
    assert_eq!(tree.entries(), &before);
    assert_eq!(tree.take_changes(), vec![]);
}

#[test]
fn patch_fails_where_headers_is_a_file() {
    let mut tree = FileTree::from_entries(vec![
        folder("gen"),
        folder("gen/headers"),
        folder("slice"),
        header("slice/headers", "a file"),
    ]);
    let error = patch_subframework(&mut tree, &at("slice"), &at("gen"), "Core").unwrap_err();
    assert_eq!(error, Error::new(Cause::MissingHeaders { headers: at("slice/headers") }));
    assert_eq!(tree.len(), 4);
}

#[test]
fn patch_without_generated_headers_fails_after_the_removal() {
    let mut tree = FileTree::from_entries(vec![
        folder("slice"),
        folder("slice/headers"),
        header("slice/headers/old.h", "stale"),
        folder("gen"),
    ]);
    let error = patch_subframework(&mut tree, &at("slice"), &at("gen"), "Core").unwrap_err();
    assert_eq!(error.kind(), ErrorKind::Io);
    assert_eq!(error, Error::new(Cause::ReadFailed { directory: at("gen/headers") }));
    assert_eq!(
        error.message(),
        "Failed to read from the generated header directory gen/headers"
    );
    assert_eq!(
        tree.entries(),
        &vec![
            folder("slice"),
            folder("gen"),
            folder("slice/headers"),
            folder("slice/headers/Core"),
        ]
    );
}

#[test]
fn patch_stops_at_a_directory_among_the_generated_headers() {
    let mut tree = FileTree::from_entries(vec![
        folder("slice"),
        folder("slice/headers"),
        folder("gen"),
        folder("gen/headers"),
        header("gen/headers/A.h", "// A"),
        folder("gen/headers/nested"),
        header("gen/headers/nested/N.h", "// N"),
        header("gen/headers/Z.h", "// Z"),
    ]);
    let error = patch_subframework(&mut tree, &at("slice"), &at("gen"), "Core").unwrap_err();
    assert_eq!(error.kind(), ErrorKind::Io);
    assert_eq!(
        error,
        Error::new(Cause::CopyFailed {
            from: at("gen/headers/nested"),
            to: at("slice/headers/Core/nested"),
        })
    );
    assert_eq!(
        error.message(),
        "Failed to copy header file from gen/headers/nested to slice/headers/Core/nested"
    );
    assert_eq!(tree.read_file(&at("slice/headers/Core/A.h")), Some(b"// A".to_vec()));
    assert!(!tree.holds(&at("slice/headers/Core/Z.h")));
    assert!(!tree.holds(&at("slice/headers/Core/nested")));
}

#[test]
fn patch_fails_where_a_file_blocks_the_namespace_directory() {
    let mut tree = FileTree::from_entries(vec![
        header("out", "a file where a directory should be"),
        folder("out/slice/headers"),
        folder("gen"),
        folder("gen/headers"),
    ]);
    let error = patch_subframework(&mut tree, &at("out/slice"), &at("gen"), "Core").unwrap_err();
    assert_eq!(error.kind(), ErrorKind::Io);
    assert_eq!(
        error,
        Error::new(Cause::CreateFailed { directory: at("out/slice/headers/Core") })
    );
    assert_eq!(
        error.message(),
        "Failed to create empty patched directory out/slice/headers/Core"
    );
    assert!(!tree.holds(&at("out/slice/headers")));
    assert_eq!(tree.take_changes(), vec![Change::RemoveDirAll(at("out/slice/headers"))]);
}

#[test]
fn patch_with_no_generated_headers_leaves_an_empty_namespace() {
    let mut tree = FileTree::from_entries(vec![
        folder("slice"),
        folder("slice/headers"),
        header("slice/headers/old.h", "stale"),
        folder("gen"),
        folder("gen/headers"),
    ]);
    assert_eq!(patch_subframework(&mut tree, &at("slice"), &at("gen"), "Core"), Ok(()));
    assert_eq!(tree.read_dir(&at("slice/headers/Core")), Some(vec![]));
    assert!(!tree.holds(&at("slice/headers/old.h")));
}

#[test]
fn bundle_patch_reaches_every_slice() {
    let mut tree = bundle_with(&["ios-arm64", "ios-sim", "macos"]);
    assert_eq!(patch_xcframework(&mut tree, &at("out"), &at("gen"), "Core"), Ok(()));
    for name in ["ios-arm64", "ios-sim", "macos"] {
        let namespace = at("out/Core.xcframework").join(name).join("headers").join("Core");
        assert_eq!(tree.read_file(&namespace.join("A.h")), Some(b"// A".to_vec()));
        assert_eq!(tree.read_file(&namespace.join("B.h")), Some(b"// B".to_vec()));
        assert!(!tree.holds(&namespace.parent().join("old.h")));
    }
}

#[test]
fn bundle_patch_stops_at_the_second_of_three_slices() {
    let mut entries = generated();
    entries.push(folder("out"));
    entries.push(folder("out/Core.xcframework"));
    entries.extend(slice("first"));
    entries.push(folder("out/Core.xcframework/second"));
    entries.push(header("out/Core.xcframework/second/libcore.a", "binary"));
    entries.extend(slice("third"));
    let mut tree = FileTree::from_entries(entries);
    let error = patch_xcframework(&mut tree, &at("out"), &at("gen"), "Core").unwrap_err();
    let second = at("out/Core.xcframework/second");
    assert_eq!(
        error,
        Error::new(Cause::MissingHeaders { headers: second.join("headers") })
            .context(Context::Slice(second.clone()))
    );
    assert_eq!(error.contexts, vec![Context::Slice(second.clone())]);
    assert!(error.message().contains("out/Core.xcframework/second"));
    assert_eq!(
        error.message(),
        "Failed to patch out/Core.xcframework/second: Failed to remove unpatched directory out/Core.xcframework/second/headers"
    );
    let first = at("out/Core.xcframework/first/headers");
    assert_eq!(tree.read_file(&first.join("Core").join("A.h")), Some(b"// A".to_vec()));
    assert_eq!(tree.read_file(&first.join("Core").join("B.h")), Some(b"// B".to_vec()));
    assert!(!tree.holds(&first.join("old.h")));
    let third = at("out/Core.xcframework/third/headers");
    assert_eq!(tree.read_file(&third.join("A.h")), Some(b"stale A".to_vec()));
    assert_eq!(tree.read_file(&third.join("old.h")), Some(b"stale".to_vec()));
    assert!(!tree.holds(&third.join("Core")));
    let changes = tree.take_changes();
    assert_eq!(changes.len(), 4);
    assert_eq!(changes[0], Change::RemoveDirAll(first));
}

#[test]
fn bundle_patch_without_a_bundle_says_what_it_was_doing() {
    let mut tree = FileTree::from_entries(vec![folder("out"), folder("gen")]);
    let error = patch_xcframework(&mut tree, &at("out"), &at("gen"), "Core").unwrap_err();
    assert_eq!(error.kind(), ErrorKind::Validation);
    assert_eq!(
        error,
        Error::new(Cause::BundleNotFound { searched: at("out") }).context(Context::Inspecting)
    );
    assert_eq!(
        error.message(),
        "Failed to get subframework components: failed to find .xcframework in out"
    );
    assert_eq!(tree.entries(), &vec![folder("out"), folder("gen")]);
}

#[test]
fn toolchain_failure_is_returned_with_its_standard_error() {
    let mut tree = bundle_with(&["ios-arm64"]);
    let before = tree.entries().clone();
    let toolchain = ProcessOutput { success: false, stderr: b"unsupported architecture".to_vec() };
    let error =
        create_xcframework(&mut tree, toolchain, "Core", &at("gen"), &at("out")).unwrap_err();
    assert_eq!(error.kind(), ErrorKind::Process);
    assert_eq!(
        error.cause,
        Cause::CommandFailed { stderr: b"unsupported architecture".to_vec() }
    );
    assert_eq!(error.contexts, vec![]);
    assert_eq!(error.message(), "unsupported architecture");
    assert!(error.message().contains("unsupported architecture"));
    assert_eq!(tree.entries(), &before);
    assert_eq!(tree.take_changes(), vec![]);
}

#[test]
fn toolchain_failure_with_bytes_that_are_no_text_is_shown_lossy() {
    let error = Error::from_stderr(vec![b'o', b'k', 0xff, b'!']);
    assert_eq!(error.message(), "ok\u{fffd}!");
    assert_eq!(error.cause, Cause::CommandFailed { stderr: vec![b'o', b'k', 0xff, b'!'] });
}

#[test]
fn toolchain_success_leads_to_the_patch() {
    let mut tree = bundle_with(&["ios-arm64", "macos"]);
    let toolchain = ProcessOutput { success: true, stderr: b"warning: something".to_vec() };
    assert_eq!(create_xcframework(&mut tree, toolchain, "Core", &at("gen"), &at("out")), Ok(()));
    let namespace = at("out/Core.xcframework/macos/headers/Core");
    assert_eq!(tree.read_file(&namespace.join("B.h")), Some(b"// B".to_vec()));
}

#[test]
fn patch_failure_after_the_toolchain_is_wrapped() {
    let mut tree = FileTree::from_entries(vec![
        folder("out"),
        folder("out/Core.xcframework"),
        folder("out/Core.xcframework/ios"),
        folder("gen"),
    ]);
    let toolchain = ProcessOutput { success: true, stderr: vec![] };
    let error =
        create_xcframework(&mut tree, toolchain, "Core", &at("gen"), &at("out")).unwrap_err();
    assert_eq!(
        error.contexts,
        vec![Context::Slice(at("out/Core.xcframework/ios")), Context::Bundle]
    );
    assert_eq!(
        error.message(),
        "Failed to patch the XCFramework: Failed to patch out/Core.xcframework/ios: Failed to remove unpatched directory out/Core.xcframework/ios/headers"
    );
}

#[test]
fn toolchain_command_names_every_library_with_the_headers() {
    let libraries = vec![
        "target/aarch64-apple-ios/release/libcore.a".to_string(),
        "target/universal-macos/release/libcore.a".to_string(),
    ];
    let command = toolchain_command(&libraries, "Core", &at("gen"), &at("out/dir"));
    assert_eq!(
        command,
        CommandDescriptor {
            program: "xcodebuild".to_string(),
            arguments: vec![
                "-create-xcframework".to_string(),
                "-library".to_string(),
                "target/aarch64-apple-ios/release/libcore.a".to_string(),
                "-headers".to_string(),
                "gen/headers".to_string(),
                "-library".to_string(),
                "target/universal-macos/release/libcore.a".to_string(),
                "-headers".to_string(),
                "gen/headers".to_string(),
                "-output".to_string(),
                "out/dir/Core.xcframework".to_string(),
            ],
        }
    );
}

#[test]
fn toolchain_command_without_libraries_still_names_the_output() {
    let command = toolchain_command(&vec![], "Core", &at("gen"), &at("out"));
    assert_eq!(
        command.arguments,
        vec![
            "-create-xcframework".to_string(),
            "-output".to_string(),
            "out/Core.xcframework".to_string(),
        ]
    );
}

#[test]
fn patch_twice_after_a_failed_copy_gives_the_same_tree_and_error() {
    let mut tree = FileTree::from_entries(vec![
        folder("slice"),
        folder("slice/headers"),
        folder("gen"),
        folder("gen/headers"),
        header("gen/headers/A.h", "// A"),
        folder("gen/headers/nested"),
    ]);
    let first = patch_subframework(&mut tree, &at("slice"), &at("gen"), "Core");
    let once = tree.entries().clone();
    let first_changes = tree.take_changes();
    let second = patch_subframework(&mut tree, &at("slice"), &at("gen"), "Core");
    assert!(first.is_err());
    assert_eq!(second, first);
    assert_eq!(tree.entries(), &once);
    assert_eq!(tree.take_changes(), first_changes);
}

#[test]
fn patch_twice_after_a_blocked_namespace_leaves_the_tree_but_not_the_error() {
    let mut tree = FileTree::from_entries(vec![
        header("out", "a file where a directory should be"),
        folder("out/slice/headers"),
        folder("gen"),
        folder("gen/headers"),
    ]);
    let first = patch_subframework(&mut tree, &at("out/slice"), &at("gen"), "Core");
    let once = tree.entries().clone();
    let second = patch_subframework(&mut tree, &at("out/slice"), &at("gen"), "Core");
    assert_eq!(
        first,
        Err(Error::new(Cause::CreateFailed { directory: at("out/slice/headers/Core") }))
    );
    assert_eq!(
        second,
        Err(Error::new(Cause::MissingHeaders { headers: at("out/slice/headers") }))
    );
    assert_eq!(tree.entries(), &once);
}

#[test]
fn patch_where_the_generated_headers_are_the_namespace_directory_leaves_it_empty() {
    let mut tree = FileTree::from_entries(vec![
        folder("slice"),
        folder("slice/headers"),
        folder("slice/headers/headers"),
        header("slice/headers/headers/A.h", "// A"),
    ]);
    assert_eq!(
        patch_subframework(&mut tree, &at("slice"), &at("slice/headers"), "headers"),
        Ok(())
    );
    assert_eq!(
        tree.entries(),
        &vec![folder("slice"), folder("slice/headers"), folder("slice/headers/headers")]
    );
}

#[test]
fn recorded_changes_lead_from_the_old_tree_to_the_new() {
    let mut entries = generated();
    entries.push(folder("out"));
    entries.push(folder("out/Core.xcframework"));
    entries.extend(slice("first"));
    entries.push(folder("out/Core.xcframework/second"));
    entries.extend(slice("third"));
    for success in [true, false] {
        let mut tree = FileTree::from_entries(entries.clone());
        let toolchain = ProcessOutput { success, stderr: vec![] };
        let outcome = create_xcframework(&mut tree, toolchain, "Core", &at("gen"), &at("out"));
        assert!(outcome.is_err());
        let mut repeated = FileTree::from_entries(entries.clone());
        for change in tree.take_changes() {
            let done = match &change {
                Change::RemoveDirAll(path) => repeated.remove_dir_all(path),
                Change::CreateDirAll(path) => repeated.create_dir_all(path),
                Change::CopyFile { from, to } => repeated.copy(from, to),
            };
            assert!(done);
        }
        assert_eq!(repeated.entries(), tree.entries());
        assert_eq!(success, tree.entries() != &entries);
    }
}

#[test]
fn generated_headers_stay_as_they_were() {
    let mut tree = bundle_with(&["ios-arm64"]);
    let before = tree.read_dir(&at("gen/headers"));
    assert_eq!(patch_xcframework(&mut tree, &at("out"), &at("gen"), "Core"), Ok(()));
    assert_eq!(tree.read_dir(&at("gen/headers")), before);
    assert_eq!(tree.read_file(&at("gen/headers/B.h")), Some(b"// B".to_vec()));
}
