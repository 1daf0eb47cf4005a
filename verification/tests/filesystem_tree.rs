use tessy::filesystem::{FilesystemNode, NodeKind};

fn path(components: &[&str]) -> Vec<String> {
    components.iter().map(|s| s.to_string()).collect()
}

fn new_file() -> FilesystemNode {
    FilesystemNode::File { size: None, modified_time: None }
}

fn directory(children: Vec<(&str, FilesystemNode)>) -> FilesystemNode {
    FilesystemNode::Directory {
        children: children.into_iter().map(|(name, node)| (name.to_string(), node)).collect(),
    }
}

fn shown(node: &FilesystemNode) -> String {
    format!("{:?}", node)
}

#[test]
fn files_are_inserted_without_size_and_time_beside_what_is_there() {
    let mut n = FilesystemNode::root();
    assert!(n.try_insert_path(path(&["a", "b"])).is_ok());
    assert!(n.try_insert_path(path(&["a", "c"])).is_ok());
    let expected = directory(vec![("a", directory(vec![("b", new_file()), ("c", new_file())]))]);
    assert_eq!(shown(&n), shown(&expected));
    assert!(n.try_insert_path(path(&["a", "c"])).is_ok());
    assert_eq!(shown(&n), shown(&expected));
}

#[test]
fn a_refused_insert_leaves_the_file_a_file() {
    let mut n = FilesystemNode::root();
    assert!(n.try_insert_path(path(&["a"])).is_ok());
    let error = n.try_insert_path(path(&["a", "b"])).unwrap_err();
    assert_eq!(error.path(), &path(&["a", "b"]));
    assert_eq!(shown(&n), shown(&directory(vec![("a", new_file())])));
}

#[test]
fn other_files_keep_their_size_and_time() {
    let known = FilesystemNode::File { size: Some(42), modified_time: Some((7, 9)) };
    let mut n = directory(vec![("kept", known), ("d", directory(vec![]))]);
    assert!(n.try_insert_path(path(&["d", "new"])).is_ok());
    let expected = directory(vec![
        ("kept", FilesystemNode::File { size: Some(42), modified_time: Some((7, 9)) }),
        ("d", directory(vec![("new", new_file())])),
    ]);
    assert_eq!(shown(&n), shown(&expected));
    assert!(n.try_insert_path(path(&["kept"])).is_ok());
    let replaced = directory(vec![("kept", new_file()), ("d", directory(vec![("new", new_file())]))]);
    assert_eq!(shown(&n), shown(&replaced));
}

#[test]
fn test_try_from_string_paths() {
    let paths = vec![path(&["path", "to", "file1.txt"]), path(&["path", "to", "file2.txt"])];
    let tree = FilesystemNode::from_paths(paths);
    assert_eq!(tree.kind_at(&path(&[])), Some(NodeKind::Directory));
    assert_eq!(tree.kind_at(&path(&["path"])), Some(NodeKind::Directory));
    assert_eq!(tree.kind_at(&path(&["path", "to"])), Some(NodeKind::Directory));
    assert_eq!(tree.kind_at(&path(&["path", "to", "file1.txt"])), Some(NodeKind::File));
    assert_eq!(tree.kind_at(&path(&["path", "to", "file2.txt"])), Some(NodeKind::File));
    assert_eq!(tree.kind_at(&path(&["path", "to", "file3.txt"])), None);
    assert_eq!(tree.kind_at(&path(&["path", "to", "file1.txt", "x"])), None);
}

#[test]
fn the_root_is_an_empty_directory() {
    let root = FilesystemNode::root();
    assert!(matches!(&root, FilesystemNode::Directory { children } if children.is_empty()));
    assert_eq!(root.kind_at(&path(&[])), Some(NodeKind::Directory));
    assert_eq!(root.kind_at(&path(&["a"])), None);
}

#[test]
fn inserting_creates_the_directories_on_the_way() {
    let mut tree = FilesystemNode::root();
    assert!(tree.try_insert_path(path(&["a", "b", "c"])).is_ok());
    assert_eq!(tree.kind_at(&path(&["a"])), Some(NodeKind::Directory));
    assert_eq!(tree.kind_at(&path(&["a", "b"])), Some(NodeKind::Directory));
    assert_eq!(tree.kind_at(&path(&["a", "b", "c"])), Some(NodeKind::File));
    match &tree {
        FilesystemNode::Directory { children } => {
            assert_eq!(children.len(), 1);
            assert_eq!(children[0].0, "a");
        }
        other => panic!("unexpected {:?}", other),
    }
}

#[test]
fn inserting_beneath_a_file_is_refused_and_changes_nothing() {
    let mut tree = FilesystemNode::root();
    tree.try_insert_path(path(&["a", "file"])).unwrap();
    let error = tree.try_insert_path(path(&["a", "file", "below", "deeper"])).unwrap_err();
    assert_eq!(error.path(), &path(&["a", "file", "below", "deeper"]));
    assert_eq!(error.message(), "Cannot insert a file into a file");
    assert_eq!(tree.kind_at(&path(&["a", "file"])), Some(NodeKind::File));
    assert_eq!(tree.kind_at(&path(&["a", "file", "below"])), None);
    match &tree {
        FilesystemNode::Directory { children } => match &children[0].1 {
            FilesystemNode::Directory { children } => assert_eq!(children.len(), 1),
            other => panic!("unexpected {:?}", other),
        },
        other => panic!("unexpected {:?}", other),
    }
}

#[test]
fn inserting_into_a_file_node_is_refused() {
    let mut file = FilesystemNode::File { size: Some(3), modified_time: None };
    assert!(file.try_insert_path(path(&["a"])).is_err());
    assert!(file.try_insert_path(path(&[])).is_ok());
    assert!(matches!(file, FilesystemNode::File { size: Some(3), modified_time: None }));
}

#[test]
fn inserting_over_a_directory_replaces_it_by_a_file() {
    let mut tree = FilesystemNode::root();
    tree.try_insert_path(path(&["a", "b", "c"])).unwrap();
    tree.try_insert_path(path(&["a", "other"])).unwrap();
    tree.try_insert_path(path(&["a", "b"])).unwrap();
    assert_eq!(tree.kind_at(&path(&["a", "b"])), Some(NodeKind::File));
    assert_eq!(tree.kind_at(&path(&["a", "b", "c"])), None);
    assert_eq!(tree.kind_at(&path(&["a", "other"])), Some(NodeKind::File));
}

#[test]
fn inserting_the_empty_path_changes_nothing() {
    let mut tree = FilesystemNode::root();
    tree.try_insert_path(path(&["a"])).unwrap();
    assert!(tree.try_insert_path(path(&[])).is_ok());
    assert_eq!(tree.kind_at(&path(&[])), Some(NodeKind::Directory));
    assert_eq!(tree.kind_at(&path(&["a"])), Some(NodeKind::File));
}

#[test]
fn a_path_that_cannot_be_inserted_is_passed_over() {
    let tree = FilesystemNode::from_paths(vec![
        path(&["a"]),
        path(&["a", "b"]),
        path(&["c", "d"]),
        path(&[]),
        path(&["c", "d", "e"]),
        path(&["c", "f"]),
    ]);
    assert_eq!(tree.kind_at(&path(&["a"])), Some(NodeKind::File));
    assert_eq!(tree.kind_at(&path(&["a", "b"])), None);
    assert_eq!(tree.kind_at(&path(&["c"])), Some(NodeKind::Directory));
    assert_eq!(tree.kind_at(&path(&["c", "d"])), Some(NodeKind::File));
    assert_eq!(tree.kind_at(&path(&["c", "d", "e"])), None);
    assert_eq!(tree.kind_at(&path(&["c", "f"])), Some(NodeKind::File));
}
