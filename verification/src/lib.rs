pub mod diff;
pub mod vfs;
pub mod patch;
pub mod prop;
pub mod snapshot;
pub mod tree;

use vstd::prelude::*;
use crate::tree::{InstanceTree, TreeError};
use crate::snapshot::{InstanceSnapshot, snapshot_matches_at};

verus! {

/// The kinds of serialized instance-tree file this library understands.
#[derive(Debug, Clone, Copy, PartialEq, Eq, Structural)]
pub enum FileKind {
    /// An XML model file.
    Rbxmx,
    /// An XML place file.
    Rbxlx,
    /// A binary model file.
    Rbxm,
    /// A binary place file.
    Rbxl,
}

impl FileKind {
    /// Classifies a file by its extension; unknown extensions are rejected.
    pub fn from_extension(ext: &String) -> (r: Option<FileKind>)
        ensures
            r == Some(FileKind::Rbxlx) <==> ext@ == "rbxlx"@,
            r == Some(FileKind::Rbxmx) <==> ext@ == "rbxmx"@,
            r == Some(FileKind::Rbxl) <==> ext@ == "rbxl"@,
            r == Some(FileKind::Rbxm) <==> ext@ == "rbxm"@,
            r is None <==> (ext@ != "rbxlx"@ && ext@ != "rbxmx"@ && ext@ != "rbxl"@ && ext@ != "rbxm"@),
    {
        proof {
            reveal_strlit("rbxlx");
            reveal_strlit("rbxmx");
            reveal_strlit("rbxl");
            reveal_strlit("rbxm");
            assert("rbxlx"@ != "rbxmx"@) by {
                assert("rbxlx"@[3] != "rbxmx"@[3]);
            }
            assert("rbxl"@ != "rbxm"@) by {
                assert("rbxl"@[3] != "rbxm"@[3]);
            }
            assert("rbxlx"@.len() == 5 && "rbxmx"@.len() == 5);
            assert("rbxl"@.len() == 4 && "rbxm"@.len() == 4);
        }
        if *ext == "rbxlx".to_owned() {
            Some(FileKind::Rbxlx)
        } else if *ext == "rbxmx".to_owned() {
            Some(FileKind::Rbxmx)
        } else if *ext == "rbxl".to_owned() {
            Some(FileKind::Rbxl)
        } else if *ext == "rbxm".to_owned() {
            Some(FileKind::Rbxm)
        } else {
            None
        }
    }

    /// A model file holds the root instance itself; a place file holds
    /// only the root's children.
    pub fn is_model(self) -> (r: bool)
        ensures
            r <==> (self == FileKind::Rbxm || self == FileKind::Rbxmx),
    {
        match self {
            FileKind::Rbxm => true,
            FileKind::Rbxmx => true,
            _ => false,
        }
    }
}

/// The arguments of one patch run: a project description, an input serialized
/// tree, and where to write the patched tree.
pub struct PatchCommand {
    pub project: String,
    pub input: String,
    pub output: String,
}

/// The identifiers a serialized output holds: a model file holds the tree's
/// root itself; a place file holds only the root's children, since its
/// container is implicit.
pub fn roots_for_output(kind: FileKind, tree: &InstanceTree) -> (r: Vec<usize>)
    requires
        tree.wf(),
    ensures
        (kind == FileKind::Rbxm || kind == FileKind::Rbxmx) ==> r@ == seq![tree.root],
        (kind == FileKind::Rbxl || kind == FileKind::Rbxlx) ==> r@ == tree.node(
            tree.root as int,
        ).children@,
{
    if kind.is_model() {
        let mut v: Vec<usize> = Vec::new();
        v.push(tree.get_root_id());
        proof {
            assert(v@ =~= seq![tree.root]);
        }
        v
    } else {
        let node = tree.get(tree.get_root_id()).unwrap();
        let n = node.children.len();
        let mut v: Vec<usize> = Vec::new();
        let mut i: usize = 0;
        while i < n
            invariant
                n == node.children@.len(),
                0 <= i <= n,
                v@ == node.children@.take(i as int),
            decreases n - i,
        {
            let ghost v0 = v@;
            v.push(node.children[i]);
            proof {
                assert(v@ =~= node.children@.take(i as int + 1));
            }
            i = i + 1;
        }
        proof {
            assert(node.children@.take(n as int) =~= node.children@);
        }
        v
    }
}

/// A serialized model carries its instances under an implicit container
/// root. Exactly one top-level instance is accepted: the tree is re-rooted
/// at it (the result realizes the same subtree, with fresh identifiers).
/// More or fewer top-level instances are a structural violation, reported
/// before any diff is attempted.
pub fn process_model_tree(tree: &InstanceTree) -> (r: Result<InstanceTree, TreeError>)
    requires
        tree.wf(),
    ensures
        r is Ok <==> tree.node(tree.root as int).children@.len() == 1,
        r is Err ==> r == Err::<InstanceTree, TreeError>(
            TreeError::MultipleRoots { count: tree.node(tree.root as int).children@.len() as usize },
        ),
        r is Ok ==> {
            let t2 = r->Ok_0;
            &&& t2.wf()
            &&& t2.root == 0
            &&& exists|s: InstanceSnapshot|
                snapshot_matches_at(
                    *tree,
                    tree.node(tree.root as int).children@[0] as int,
                    s,
                ) && #[trigger] snapshot_matches_at(t2, 0, s)
        },
{
    let root_id = tree.get_root_id();
    let node = tree.get(root_id).unwrap();
    let cnt = node.children.len();
    if cnt == 1 {
        let child = node.children[0];
        proof {
            assert(tree.node_ok(root_id as int));
            assert(tree.child_ok(root_id as int, 0));
        }
        let snap = InstanceSnapshot::from_tree(tree, child);
        let ghost s = snap;
        let t2 = InstanceTree::new(snap);
        proof {
            assert(snapshot_matches_at(*tree, tree.node(tree.root as int).children@[0] as int, s));
            assert(snapshot_matches_at(t2, 0, s));
        }
        Ok(t2)
    } else {
        Err(TreeError::MultipleRoots { count: cnt })
    }
}

} // verus!
