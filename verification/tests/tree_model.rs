use framework_bundler::path::TreePath;
use framework_bundler::tree::{Change, DirEntry, Entry, FileTree, Node};

fn path(text: &str) -> TreePath {
    let mut path = TreePath::root();
    for part in text.split('/') {
        path = path.join(part);
    }
    path
}

fn dir(text: &str) -> Entry {
    Entry { path: path(text), node: Node::Directory }
}

fn file(text: &str, content: &str) -> Entry {
    Entry { path: path(text), node: Node::File(content.as_bytes().to_vec()) }
}

#[test]
fn join_appends_one_component() {
    let joined = TreePath::root().join("out").join("Core.xcframework");
    assert_eq!(joined.len(), 2);
    assert_eq!(joined.display(), "out/Core.xcframework");
    assert_eq!(joined.parts, vec!["out".to_string(), "Core.xcframework".to_string()]);
}

#[test]
fn root_is_empty_and_shows_as_nothing() {
    let root = TreePath::root();
    assert_eq!(root.len(), 0);
    assert_eq!(root.display(), "");
    assert_eq!(root.file_name(), None);
    assert_eq!(root.parent(), TreePath::root());
}

#[test]
fn single_component_shows_without_separator() {
    assert_eq!(path("out").display(), "out");
}

#[test]
fn parent_drops_the_last_component() {
    assert_eq!(path("a/b/c").parent(), path("a/b"));
    assert_eq!(path("a").parent(), TreePath::root());
}

#[test]
fn file_name_is_the_last_component() {
    assert_eq!(path("a/b/c.h").file_name(), Some("c.h".to_string()));
}

#[test]
fn starts_with_goes_by_components() {
    assert!(path("a/b/c").starts_with(&path("a/b")));
    assert!(path("a/b").starts_with(&path("a/b")));
    assert!(path("a/b").starts_with(&TreePath::root()));
    assert!(!path("a/bc").starts_with(&path("a/b")));
    assert!(!path("a").starts_with(&path("a/b")));
}

#[test]
fn same_as_compares_every_component() {
    assert!(path("a/b").same_as(&path("a/b")));
    assert!(!path("a/b").same_as(&path("a/c")));
    assert!(!path("a/b").same_as(&path("a")));
    assert!(TreePath::root().same_as(&TreePath::root()));
}

#[test]
fn clone_keeps_the_components() {
    let original = path("a/b");
    assert_eq!(original.clone(), original);
}

#[test]
fn new_tree_is_empty() {
    let tree = FileTree::new();
    assert_eq!(tree.len(), 0);
    assert!(tree.is_dir(&TreePath::root()));
    assert!(!tree.is_dir(&path("a")));
    assert!(tree.holds(&TreePath::root()));
    assert!(!tree.holds(&path("a")));
    assert_eq!(tree.read_dir(&TreePath::root()), Some(vec![]));
}

#[test]
fn from_entries_keeps_the_order() {
    let tree = FileTree::from_entries(vec![dir("b"), dir("a"), file("a/x", "1")]);
    assert_eq!(tree.entries(), &vec![dir("b"), dir("a"), file("a/x", "1")]);
    assert_eq!(
        tree.read_dir(&TreePath::root()),
        Some(vec![
            DirEntry { path: path("b"), is_dir: true },
            DirEntry { path: path("a"), is_dir: true },
        ])
    );
}

#[test]
fn create_dir_all_adds_missing_directories_outermost_first() {
    let mut tree = FileTree::new();
    assert!(tree.create_dir_all(&path("a/b/c")));
    assert_eq!(tree.entries(), &vec![dir("a"), dir("a/b"), dir("a/b/c")]);
    assert!(tree.create_dir_all(&path("a/b")));
    assert_eq!(tree.len(), 3);
    assert!(tree.create_dir_all(&path("a/d")));
    assert_eq!(tree.entries(), &vec![dir("a"), dir("a/b"), dir("a/b/c"), dir("a/d")]);
}

#[test]
fn create_dir_all_of_the_root_changes_nothing() {
    let mut tree = FileTree::new();
    assert!(tree.create_dir_all(&TreePath::root()));
    assert_eq!(tree.len(), 0);
}

#[test]
fn create_dir_all_fails_where_a_file_is_in_the_way() {
    let mut tree = FileTree::from_entries(vec![dir("a"), file("a/b", "x")]);
    assert!(!tree.create_dir_all(&path("a/b/c")));
    assert!(!tree.create_dir_all(&path("a/b")));
    assert_eq!(tree.entries(), &vec![dir("a"), file("a/b", "x")]);
    assert_eq!(tree.take_changes(), vec![]);
}

#[test]
fn remove_dir_all_removes_the_directory_and_all_below() {
    let mut tree = FileTree::from_entries(vec![
        dir("a"),
        dir("a/b"),
        file("a/b/x", "1"),
        dir("a/bc"),
        file("a/y", "2"),
        dir("a/b/d"),
    ]);
    assert!(tree.remove_dir_all(&path("a/b")));
    assert_eq!(tree.entries(), &vec![dir("a"), dir("a/bc"), file("a/y", "2")]);
}

#[test]
fn remove_dir_all_fails_on_what_is_no_directory() {
    let mut tree = FileTree::from_entries(vec![dir("a"), file("a/x", "1")]);
    assert!(!tree.remove_dir_all(&path("a/x")));
    assert!(!tree.remove_dir_all(&path("b")));
    assert!(!tree.remove_dir_all(&TreePath::root()));
    assert_eq!(tree.entries(), &vec![dir("a"), file("a/x", "1")]);
    assert_eq!(tree.take_changes(), vec![]);
}

#[test]
fn copy_adds_a_file_with_the_same_bytes() {
    let mut tree = FileTree::from_entries(vec![dir("a"), file("a/x", "hello"), dir("b")]);
    assert!(tree.copy(&path("a/x"), &path("b/y")));
    assert_eq!(tree.read_file(&path("b/y")), Some(b"hello".to_vec()));
    assert_eq!(tree.read_file(&path("a/x")), Some(b"hello".to_vec()));
    assert_eq!(
        tree.entries(),
        &vec![dir("a"), file("a/x", "hello"), dir("b"), file("b/y", "hello")]
    );
}

#[test]
fn copy_replaces_a_file_in_its_place() {
    let mut tree = FileTree::from_entries(vec![
        dir("a"),
        file("a/x", "new"),
        file("a/y", "old"),
        file("a/z", "other"),
    ]);
    assert!(tree.copy(&path("a/x"), &path("a/y")));
    assert_eq!(
        tree.entries(),
        &vec![dir("a"), file("a/x", "new"), file("a/y", "new"), file("a/z", "other")]
    );
}

#[test]
fn copy_to_the_top_of_the_tree_needs_no_directory() {
    let mut tree = FileTree::from_entries(vec![file("x", "1")]);
    assert!(tree.copy(&path("x"), &path("y")));
    assert_eq!(tree.read_file(&path("y")), Some(b"1".to_vec()));
}

#[test]
fn copy_fails_without_source_or_destination() {
    let mut tree = FileTree::from_entries(vec![dir("a"), file("a/x", "1"), dir("a/d")]);
    assert!(!tree.copy(&path("a/missing"), &path("a/y")));
    assert!(!tree.copy(&path("a/d"), &path("a/y")));
    assert!(!tree.copy(&path("a/x"), &path("nowhere/y")));
    assert!(!tree.copy(&path("a/x"), &path("a/d")));
    assert!(!tree.copy(&path("a/x"), &path("a/x/inside")));
    assert!(!tree.copy(&path("a/x"), &TreePath::root()));
    assert_eq!(tree.entries(), &vec![dir("a"), file("a/x", "1"), dir("a/d")]);
    assert_eq!(tree.take_changes(), vec![]);
}

#[test]
fn read_file_gives_nothing_for_directories_and_gaps() {
    let tree = FileTree::from_entries(vec![dir("a"), file("a/x", "1")]);
    assert_eq!(tree.read_file(&path("a")), None);
    assert_eq!(tree.read_file(&path("a/y")), None);
    assert_eq!(tree.read_file(&TreePath::root()), None);
    assert_eq!(tree.read_file(&path("a/x")), Some(b"1".to_vec()));
}

#[test]
fn read_dir_shows_direct_entries_only() {
    let tree = FileTree::from_entries(vec![
        dir("a"),
        dir("a/b"),
        file("a/b/deep", "1"),
        file("a/x", "2"),
        dir("ab"),
    ]);
    assert_eq!(
        tree.read_dir(&path("a")),
        Some(vec![
            DirEntry { path: path("a/b"), is_dir: true },
            DirEntry { path: path("a/x"), is_dir: false },
        ])
    );
    assert_eq!(tree.read_dir(&path("a/x")), None);
    assert_eq!(tree.read_dir(&path("missing")), None);
    assert_eq!(tree.read_dir(&path("ab")), Some(vec![]));
}

#[test]
fn changes_are_recorded_in_order_and_taken_once() {
    let mut tree = FileTree::from_entries(vec![dir("a"), file("a/x", "1")]);
    assert!(tree.create_dir_all(&path("b/c")));
    assert!(tree.copy(&path("a/x"), &path("b/c/x")));
    assert!(tree.remove_dir_all(&path("a")));
    assert_eq!(
        tree.take_changes(),
        vec![
            Change::CreateDirAll(path("b/c")),
            Change::CopyFile { from: path("a/x"), to: path("b/c/x") },
            Change::RemoveDirAll(path("a")),
        ]
    );
    assert_eq!(tree.take_changes(), vec![]);
    assert_eq!(tree.entries(), &vec![dir("b"), dir("b/c"), file("b/c/x", "1")]);
}

#[test]
fn well_formed_trees_have_one_entry_per_path_and_none_at_the_root() {
    assert!(FileTree::new().is_well_formed());
    assert!(FileTree::from_entries(vec![dir("a"), file("a/x", "1"), dir("b")]).is_well_formed());
    assert!(!FileTree::from_entries(vec![dir("a"), file("a", "1")]).is_well_formed());
    assert!(!FileTree::from_entries(vec![dir("a"), dir("b"), dir("a")]).is_well_formed());
    let rooted = Entry { path: TreePath::root(), node: Node::Directory };
    assert!(!FileTree::from_entries(vec![dir("a"), rooted]).is_well_formed());
}

#[test]
fn operations_keep_a_tree_well_formed() {
    let mut tree = FileTree::from_entries(vec![dir("a"), file("a/x", "1"), file("a/y", "2")]);
    assert!(tree.create_dir_all(&path("b/c")));
    assert!(tree.copy(&path("a/x"), &path("b/c/x")));
    assert!(tree.copy(&path("a/y"), &path("b/c/x")));
    assert!(tree.remove_dir_all(&path("a")));
    assert!(tree.is_well_formed());
    assert_eq!(tree.read_file(&path("b/c/x")), Some(b"2".to_vec()));
}
