use vstd::prelude::*;
use crate::prop::{props_view, Property, dup_props, keys_unique};
use crate::tree::InstanceTree;

verus! {

/// A detached description of a desired subtree. It is not part of any tree:
/// it carries no identifier, and owns its children recursively. The source
/// path is builder metadata, carried only for diagnostics.
pub struct InstanceSnapshot {
    pub name: String,
    pub class: String,
    pub properties: Vec<Property>,
    pub children: Vec<InstanceSnapshot>,
    pub source_path: Option<String>,
}

/// The live node `id` realizes the snapshot `s` exactly: same name, class and
/// properties, and its children realize the snapshot's children index for
/// index. Every node of the realized subtree lies in the range `[lo, hi)`.
pub open spec fn snapshot_matches_in(
    t: InstanceTree,
    id: int,
    s: InstanceSnapshot,
    lo: int,
    hi: int,
) -> bool
    decreases s,
{
    &&& lo <= id < hi
    &&& t.live(id)
    &&& t.node(id).name@ == s.name@
    &&& t.node(id).class@ == s.class@
    &&& props_view(t.node(id).properties@) == props_view(s.properties@)
    &&& t.node(id).children@.len() == s.children@.len()
    &&& forall|k: int|
        0 <= k < s.children@.len() ==> snapshot_matches_in(
            t,
            t.node(id).children@[k] as int,
            #[trigger] s.children@[k],
            lo,
            hi,
        )
}

/// The live node `id` realizes the snapshot `s` exactly.
pub open spec fn snapshot_matches_at(t: InstanceTree, id: int, s: InstanceSnapshot) -> bool {
    snapshot_matches_in(t, id, s, 0, t.nodes@.len() as int)
}

/// A realization inside `[lo, hi)` also lies inside any wider range.
pub proof fn lemma_matches_widen(
    t: InstanceTree,
    id: int,
    s: InstanceSnapshot,
    lo: int,
    hi: int,
    lo2: int,
    hi2: int,
)
    requires
        snapshot_matches_in(t, id, s, lo, hi),
        lo2 <= lo,
        hi <= hi2,
    ensures
        snapshot_matches_in(t, id, s, lo2, hi2),
    decreases s,
{
    assert forall|k: int| 0 <= k < s.children@.len() implies snapshot_matches_in(
        t,
        t.node(id).children@[k] as int,
        #[trigger] s.children@[k],
        lo2,
        hi2,
    ) by {
        lemma_matches_widen(t, t.node(id).children@[k] as int, s.children@[k], lo, hi, lo2, hi2);
    }
}

/// A realization is kept by any change that leaves the nodes of `[lo, hi)`
/// as they were.
pub proof fn lemma_matches_frame(
    t1: InstanceTree,
    t2: InstanceTree,
    id: int,
    s: InstanceSnapshot,
    lo: int,
    hi: int,
)
    requires
        snapshot_matches_in(t1, id, s, lo, hi),
        forall|j: int| lo <= j < hi && t1.live(j) ==> t2.live(j) && t2.node(j) == t1.node(j),
    ensures
        snapshot_matches_in(t2, id, s, lo, hi),
    decreases s,
{
    assert forall|k: int| 0 <= k < s.children@.len() implies snapshot_matches_in(
        t2,
        t2.node(id).children@[k] as int,
        #[trigger] s.children@[k],
        lo,
        hi,
    ) by {
        assert(snapshot_matches_in(t1, t1.node(id).children@[k] as int, s.children@[k], lo, hi));
        lemma_matches_frame(t1, t2, t1.node(id).children@[k] as int, s.children@[k], lo, hi);
    }
}

impl InstanceSnapshot {
    /// Builds a snapshot of the live subtree rooted at `id`: the desired
    /// description a tree would produce of itself.
    pub fn from_tree(t: &InstanceTree, id: usize) -> (s: InstanceSnapshot)
        requires
            t.wf(),
            t.live(id as int),
        ensures
            snapshot_matches_at(*t, id as int, s),
            tree_props_unique(*t) ==> snapshot_wf(s),
        decreases t.nodes@.len() - id,
    {
        let node = t.get(id).unwrap();
        let mut children: Vec<InstanceSnapshot> = Vec::new();
        let n = node.children.len();
        let mut k: usize = 0;
        while k < n
            invariant
                t.wf(),
                t.live(id as int),
                *node == t.node(id as int),
                n == node.children@.len(),
                0 <= k <= n,
                children@.len() == k,
                forall|j: int|
                    0 <= j < k ==> snapshot_matches_in(
                        *t,
                        t.node(id as int).children@[j] as int,
                        #[trigger] children@[j],
                        0,
                        t.nodes@.len() as int,
                    ),
                tree_props_unique(*t) ==> forall|j: int|
                    0 <= j < k ==> snapshot_wf(#[trigger] children@[j]),
            decreases n - k,
        {
            let c = node.children[k];
            proof {
                assert(t.node_ok(id as int));
                assert(t.child_ok(id as int, k as int));
                assert(id < c < t.nodes@.len());
            }
            let cs = InstanceSnapshot::from_tree(t, c);
            children.push(cs);
            k = k + 1;
        }
        let s = InstanceSnapshot {
            name: node.name.clone(),
            class: node.class.clone(),
            properties: dup_props(&node.properties),
            children,
            source_path: None,
        };
        proof {
            assert(snapshot_matches_in(*t, id as int, s, 0, t.nodes@.len() as int));
            if tree_props_unique(*t) {
                assert(keys_unique(props_view(t.node(id as int).properties@)));
                assert(props_view(s.properties@) == props_view(t.node(id as int).properties@));
                assert(snapshot_wf(s));
            }
        }
        s
    }
}

/// Every live node of the tree keeps its property keys unique.
pub open spec fn tree_props_unique(t: InstanceTree) -> bool {
    forall|i: int| #[trigger] t.live(i) ==> keys_unique(props_view(t.node(i).properties@))
}

/// The snapshot is well formed: its property keys are unique, recursively.
pub open spec fn snapshot_wf(s: InstanceSnapshot) -> bool
    decreases s,
{
    &&& keys_unique(props_view(s.properties@))
    &&& forall|k: int| 0 <= k < s.children@.len() ==> snapshot_wf(#[trigger] s.children@[k])
}


} // verus!
