use treesync::diff::compute_patch_set;
use treesync::patch::apply_patch_set;
use treesync::prop::{PropValue, Property};
use treesync::snapshot::InstanceSnapshot;
use treesync::tree::{InstanceTree, TreeError};

fn prop(key: &str, val: &str) -> Property {
    Property { key: key.to_string(), value: PropValue::Str(val.to_string()) }
}

fn snap(name: &str, class: &str, props: Vec<Property>, children: Vec<InstanceSnapshot>) -> InstanceSnapshot {
    InstanceSnapshot {
        name: name.to_string(),
        class: class.to_string(),
        properties: props,
        children,
        source_path: None,
    }
}

fn node_names(tree: &InstanceTree, ids: &[usize]) -> Vec<String> {
    let mut out: Vec<String> = ids
        .iter()
        .map(|id| tree.get(*id).unwrap().name.clone())
        .collect();
    out.sort();
    out
}

#[test]
fn diff_of_matching_snapshot_is_empty() {
    let s = snap(
        "Root",
        "DataModel",
        vec![prop("X", "1")],
        vec![snap("A", "Folder", vec![prop("Y", "2")], vec![])],
    );
    let tree = InstanceTree::new(s);
    let root = tree.get_root_id();
    let again = InstanceSnapshot::from_tree(&tree, root);
    let patch = compute_patch_set(again, &tree, root);
    assert!(patch.is_empty());
}

#[test]
fn update_add_remove_scenario() {
    // live root has children [A:Folder, B:Script]; the snapshot asks for
    // [A:Folder with X="2", C:Folder]
    let live = snap(
        "Root",
        "DataModel",
        vec![],
        vec![
            snap("A", "Folder", vec![prop("X", "1")], vec![]),
            snap("B", "Script", vec![], vec![]),
        ],
    );
    let mut tree = InstanceTree::new(live);
    let root = tree.get_root_id();
    let b_id = tree.get(root).unwrap().children[1];
    let desired = snap(
        "Root",
        "DataModel",
        vec![],
        vec![
            snap("A", "Folder", vec![prop("X", "2")], vec![]),
            snap("C", "Folder", vec![], vec![]),
        ],
    );
    let patch = compute_patch_set(desired, &tree, root);
    assert_eq!(patch.removed.len(), 1);
    assert_eq!(patch.removed[0], b_id);
    assert_eq!(patch.added.len(), 1);
    assert_eq!(patch.added[0].parent, root);
    assert_eq!(patch.added[0].snapshot.name, "C");
    assert_eq!(patch.updated.len(), 1);
    assert_eq!(patch.updated[0].changed_properties.len(), 1);
    assert_eq!(patch.updated[0].changed_properties[0].0, "X");
    assert!(patch.updated[0].changed_name.is_none());
    assert!(patch.updated[0].changed_class.is_none());

    apply_patch_set(&mut tree, patch).unwrap();
    assert!(tree.get(b_id).is_none());
    let children = tree.get(root).unwrap().children.clone();
    assert_eq!(children.len(), 2);
    assert_eq!(node_names(&tree, &children), vec!["A".to_string(), "C".to_string()]);
}

#[test]
fn second_sync_is_a_no_op() {
    let live = snap(
        "Root",
        "DataModel",
        vec![],
        vec![
            snap("A", "Folder", vec![prop("X", "1"), prop("LiveOnly", "keep")], vec![]),
            snap("B", "Script", vec![], vec![]),
        ],
    );
    let mut tree = InstanceTree::new(live);
    let root = tree.get_root_id();
    let desired = || snap(
        "Root",
        "DataModel",
        vec![],
        vec![
            snap("A", "Folder", vec![prop("X", "2")], vec![snap("Sub", "Part", vec![], vec![])]),
            snap("C", "Folder", vec![], vec![]),
        ],
    );
    let patch = compute_patch_set(desired(), &tree, root);
    apply_patch_set(&mut tree, patch).unwrap();
    // properties the snapshot does not mention are preserved
    let a_id = *tree
        .get(root)
        .unwrap()
        .children
        .iter()
        .find(|c| tree.get(**c).unwrap().name == "A")
        .unwrap();
    let a = tree.get(a_id).unwrap();
    assert!(a.properties.iter().any(|p| p.key == "LiveOnly"));
    assert!(a.properties.iter().any(|p| p.key == "X" && matches!(&p.value, PropValue::Str(s) if s == "2")));
    // a second sync finds nothing to do
    let patch2 = compute_patch_set(desired(), &tree, root);
    assert!(patch2.is_empty());
}

#[test]
fn unmatched_live_child_is_removed_and_gone() {
    let live = snap(
        "Root",
        "DataModel",
        vec![],
        vec![snap("Old", "Part", vec![], vec![snap("Deep", "Part", vec![], vec![])])],
    );
    let mut tree = InstanceTree::new(live);
    let root = tree.get_root_id();
    let old_id = tree.get(root).unwrap().children[0];
    let deep_id = tree.get(old_id).unwrap().children[0];
    let desired = snap("Root", "DataModel", vec![], vec![]);
    let patch = compute_patch_set(desired, &tree, root);
    assert_eq!(patch.removed, vec![old_id]);
    apply_patch_set(&mut tree, patch).unwrap();
    assert!(tree.get(old_id).is_none());
    assert!(tree.get(deep_id).is_none());
}

#[test]
fn multi_rooted_model_is_rejected() {
    let container = snap(
        "Container",
        "DataModel",
        vec![],
        vec![
            snap("One", "Folder", vec![], vec![]),
            snap("Two", "Folder", vec![], vec![]),
        ],
    );
    let tree = InstanceTree::new(container);
    match treesync::process_model_tree(&tree) {
        Err(TreeError::MultipleRoots { count }) => assert_eq!(count, 2),
        _ => panic!("two top-level instances must be rejected"),
    }
}

#[test]
fn single_rooted_model_is_rerooted() {
    let container = snap(
        "Container",
        "DataModel",
        vec![],
        vec![snap("Model", "Folder", vec![prop("K", "v")], vec![snap("Inner", "Part", vec![], vec![])])],
    );
    let tree = InstanceTree::new(container);
    let rerooted = treesync::process_model_tree(&tree).unwrap();
    let root = rerooted.get_root_id();
    let root_node = rerooted.get(root).unwrap();
    assert_eq!(root_node.name, "Model");
    assert_eq!(root_node.class, "Folder");
    assert_eq!(root_node.children.len(), 1);
    assert_eq!(rerooted.get(root_node.children[0]).unwrap().name, "Inner");
}

#[test]
fn tree_mutations() {
    let live = snap("Root", "DataModel", vec![], vec![]);
    let mut tree = InstanceTree::new(live);
    let root = tree.get_root_id();
    assert!(matches!(tree.remove(root), Err(TreeError::RemoveRoot { .. })));
    assert!(matches!(tree.remove(999), Err(TreeError::NotFound { .. })));
    let id = tree.insert(root, snap("N", "Folder", vec![prop("a", "1")], vec![])).unwrap();
    tree.rename(id, "M".to_string()).unwrap();
    tree.set_class(id, "Part".to_string()).unwrap();
    tree.set_properties(
        id,
        vec![
            ("a".to_string(), None),
            ("b".to_string(), Some(PropValue::Int(7))),
        ],
    )
    .unwrap();
    let n = tree.get(id).unwrap();
    assert_eq!(n.name, "M");
    assert_eq!(n.class, "Part");
    assert!(!n.properties.iter().any(|p| p.key == "a"));
    assert!(n.properties.iter().any(|p| p.key == "b" && matches!(p.value, PropValue::Int(7))));
    tree.remove(id).unwrap();
    assert!(tree.get(id).is_none());
}

#[test]
fn add_with_unresolved_parent_is_rejected() {
    let live = snap("Root", "DataModel", vec![], vec![]);
    let mut tree = InstanceTree::new(live);
    let patch = treesync::patch::PatchSet {
        removed: vec![],
        added: vec![treesync::patch::PatchAdd {
            parent: 12345,
            snapshot: snap("Orphan", "Folder", vec![], vec![]),
        }],
        updated: vec![],
    };
    match apply_patch_set(&mut tree, patch) {
        Err(TreeError::UnresolvedParent { parent }) => assert_eq!(parent, 12345),
        _ => panic!("an addition under a parent that never materializes must fail"),
    }
}

#[test]
fn update_of_missing_id_is_not_found() {
    let live = snap("Root", "DataModel", vec![], vec![]);
    let mut tree = InstanceTree::new(live);
    let patch = treesync::patch::PatchSet {
        removed: vec![],
        added: vec![],
        updated: vec![treesync::patch::PatchUpdate {
            id: 7,
            changed_name: Some("N".to_string()),
            changed_class: None,
            changed_properties: vec![],
        }],
    };
    assert!(matches!(apply_patch_set(&mut tree, patch), Err(TreeError::NotFound { id: 7 })));
}
