use treesync::{roots_for_output, FileKind};
use treesync::snapshot::InstanceSnapshot;
use treesync::tree::InstanceTree;

#[test]
fn file_kinds_by_extension() {
    assert_eq!(FileKind::from_extension(&"rbxlx".to_string()), Some(FileKind::Rbxlx));
    assert_eq!(FileKind::from_extension(&"rbxmx".to_string()), Some(FileKind::Rbxmx));
    assert_eq!(FileKind::from_extension(&"rbxl".to_string()), Some(FileKind::Rbxl));
    assert_eq!(FileKind::from_extension(&"rbxm".to_string()), Some(FileKind::Rbxm));
    assert_eq!(FileKind::from_extension(&"json".to_string()), None);
    assert_eq!(FileKind::from_extension(&"".to_string()), None);
}

#[test]
fn output_roots_differ_for_models_and_places() {
    let s = InstanceSnapshot {
        name: "Root".to_string(),
        class: "DataModel".to_string(),
        properties: vec![],
        children: vec![
            InstanceSnapshot {
                name: "A".to_string(),
                class: "Folder".to_string(),
                properties: vec![],
                children: vec![],
                source_path: None,
            },
        ],
        source_path: None,
    };
    let tree = InstanceTree::new(s);
    let root = tree.get_root_id();
    let child = tree.get(root).unwrap().children[0];
    assert_eq!(roots_for_output(FileKind::Rbxm, &tree), vec![root]);
    assert_eq!(roots_for_output(FileKind::Rbxmx, &tree), vec![root]);
    assert_eq!(roots_for_output(FileKind::Rbxl, &tree), vec![child]);
    assert_eq!(roots_for_output(FileKind::Rbxlx, &tree), vec![child]);
}
