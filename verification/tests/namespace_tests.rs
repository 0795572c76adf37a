use nameres::namespaces::{NamespaceId, NamespaceTreeRoot};

fn path(segments: &[&str]) -> Vec<String> {
    segments.iter().map(|s| s.to_string()).collect()
}

#[test]
fn insert_is_idempotent() {
    let mut root = NamespaceTreeRoot::default();
    let a = root.insert_or_find_namespace(&path(&["A", "B", "C"]));
    let b = root.insert_or_find_namespace(&path(&["A", "B", "C"]));
    let c = root.insert_or_find_namespace(&path(&["A", "B", "C"]));
    assert_eq!(a, b);
    assert_eq!(b, c);
}

#[test]
fn distinct_paths_distinct_ids() {
    let mut root = NamespaceTreeRoot::default();
    let abc = root.insert_or_find_namespace(&path(&["A", "B", "C"]));
    let ab = root.insert_or_find_namespace(&path(&["A", "B"]));
    let d = root.insert_or_find_namespace(&path(&["D"]));
    assert_ne!(abc, ab);
    assert_ne!(abc, d);
    assert_ne!(ab, d);
}

#[test]
fn reinsert_creates_no_nodes() {
    let mut root = NamespaceTreeRoot::default();
    let first = root.insert_or_find_namespace(&path(&["A", "B"]));
    let assigner_before = root.assigner;
    let second = root.insert_or_find_namespace(&path(&["A", "B"]));
    assert_eq!(first, second);
    assert_eq!(root.assigner, assigner_before);
}

#[test]
fn find_namespace_sees_intermediate_nodes() {
    let mut root = NamespaceTreeRoot::default();
    root.insert_or_find_namespace(&path(&["A", "B", "C"]));
    assert!(root.find_namespace(&path(&["A"])).is_some());
    assert!(root.find_namespace(&path(&["A", "B"])).is_some());
    assert!(root.find_namespace(&path(&["A", "B", "C"])).is_some());
    assert!(root.find_namespace(&path(&["A", "C"])).is_none());
}

#[test]
fn find_id_reconstructs_the_path() {
    let mut root = NamespaceTreeRoot::default();
    let id = root.insert_or_find_namespace(&path(&["A", "B", "C"]));
    let (names, node) = root.find_id(id);
    assert_eq!(names, path(&["A", "B", "C"]));
    assert_eq!(node.expect("id should be found").id, id);
}

#[test]
fn find_id_rejects_unissued_ids() {
    let mut root = NamespaceTreeRoot::default();
    root.insert_or_find_namespace(&path(&["A"]));
    let (names, node) = root.find_id(NamespaceId(999));
    assert!(names.is_empty());
    assert!(node.is_none());
}

#[test]
fn new_namespace_node_consumes_an_id() {
    let mut root = NamespaceTreeRoot::default();
    root.insert_or_find_namespace(&path(&["A"]));
    let before = root.assigner;
    let node = root.new_namespace_node(Vec::new());
    assert_eq!(node.id, NamespaceId(before + 1));
    assert_eq!(root.assigner, before + 1);
}

#[test]
fn root_id_is_zero() {
    let root = NamespaceTreeRoot::default();
    assert_eq!(root.root_id(), NamespaceId(0));
    assert_eq!(root.tree().id(), NamespaceId(0));
}

#[test]
fn empty_path_names_the_root() {
    let mut root = NamespaceTreeRoot::default();
    let id = root.insert_or_find_namespace(&Vec::new());
    assert_eq!(id, root.root_id());
    assert_eq!(root.find_namespace(&Vec::new()), Some(root.root_id()));
}
