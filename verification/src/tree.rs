use vstd::prelude::*;
use crate::prop::{props_view, Property, PropValue, PropVal, lookup_v, upsert_prop, remove_prop};
use crate::snapshot::{InstanceSnapshot, snapshot_matches_at, snapshot_matches_in, lemma_matches_frame, lemma_matches_widen, snapshot_wf, tree_props_unique};
use crate::prop::keys_unique;

verus! {

/// The failures of tree lookup and mutation: a missing identifier, an attempt
/// to remove the tree's own root, and an added subtree whose stated parent
/// never materializes.
#[derive(Debug)]
pub enum TreeError {
    NotFound { id: usize },
    RemoveRoot { id: usize },
    UnresolvedParent { parent: usize },
    MultipleRoots { count: usize },
}

/// One node of the live tree: a name, a class, its properties, its parent
/// (absent only for the root) and its children, all by identifier.
pub struct Instance {
    pub name: String,
    pub class: String,
    pub properties: Vec<Property>,
    pub parent: Option<usize>,
    pub children: Vec<usize>,
}

/// An owned, mutable arena of instances. Identifiers are arena slots; a
/// removed node leaves its slot empty forever, so identifiers are stable.
pub struct InstanceTree {
    pub nodes: Vec<Option<Instance>>,
    pub root: usize,
}

impl InstanceTree {
    /// The identifier resolves to a live node.
    pub open spec fn live(self, id: int) -> bool {
        0 <= id < self.nodes@.len() && self.nodes@[id] is Some
    }

    /// The node behind a live identifier.
    pub open spec fn node(self, id: int) -> Instance
        recommends
            self.live(id),
    {
        self.nodes@[id]->0
    }

    /// The `k`-th child of node `i` is a later live node that points back.
    pub open spec fn child_ok(self, i: int, k: int) -> bool
        recommends
            self.live(i),
            0 <= k < self.node(i).children@.len(),
    {
        let c = self.node(i).children@[k] as int;
        &&& i < c < self.nodes@.len()
        &&& self.live(c)
        &&& self.node(c).parent == Some(i as usize)
    }

    /// Per-node shape: a non-root node points at an earlier live parent that
    /// lists it; children are later live nodes, listed once, pointing back.
    pub open spec fn node_ok(self, i: int) -> bool
        recommends
            self.live(i),
    {
        &&& (i != self.root ==> self.node(i).parent is Some)
        &&& (self.node(i).parent is Some ==> {
            let p = self.node(i).parent->0 as int;
            &&& 0 <= p < i
            &&& self.live(p)
            &&& self.node(p).children@.contains(i as usize)
        })
        &&& forall|k: int| 0 <= k < self.node(i).children@.len() ==> #[trigger] self.child_ok(i, k)
        &&& forall|k1: int, k2: int|
            0 <= k1 < k2 < self.node(i).children@.len() ==> #[trigger] self.node(
                i,
            ).children@[k1] != #[trigger] self.node(i).children@[k2]
    }

    /// Well-formedness: single live root without parent, and every live node
    /// in shape. Parents precede children, so the tree is acyclic.
    pub open spec fn wf(self) -> bool {
        &&& self.live(self.root as int)
        &&& self.node(self.root as int).parent is None
        &&& forall|i: int| #[trigger] self.live(i) ==> self.node_ok(i)
    }

    /// `a` lies on the parent chain of `j`: `j` is `a` itself or one of its
    /// descendants.
    pub open spec fn under(self, j: int, a: int) -> bool
        decreases (if j >= 0 { j } else { 0 }),
    {
        if j == a {
            true
        } else if 0 <= j && self.live(j) && self.node(j).parent is Some && 0 <= self.node(
            j,
        ).parent->0 < j {
            self.under(self.node(j).parent->0 as int, a)
        } else {
            false
        }
    }

    /// Exposes the root identifier.
    pub fn get_root_id(&self) -> (r: usize)
        ensures
            r == self.root,
    {
        self.root
    }

    /// Looks an identifier up; absent exactly when the identifier does not
    /// resolve to a live node.
    pub fn get(&self, id: usize) -> (r: Option<&Instance>)
        ensures
            r is Some <==> self.live(id as int),
            r is Some ==> *r->0 == self.node(id as int),
    {
        if id < self.nodes.len() {
            self.nodes[id].as_ref()
        } else {
            None
        }
    }

    /// Swaps the content of one arena slot.
    fn replace_slot(&mut self, i: usize, v: Option<Instance>) -> (prev: Option<Instance>)
        requires
            i < old(self).nodes@.len(),
        ensures
            final(self).nodes@ == old(self).nodes@.update(i as int, v),
            final(self).root == old(self).root,
            prev == old(self).nodes@[i as int],
    {
        let prev = self.nodes.remove(i);
        self.nodes.insert(i, v);
        proof {
            assert(self.nodes@ =~= old(self).nodes@.update(i as int, v));
        }
        prev
    }

    /// Builds a fresh tree that realizes the snapshot; the snapshot's root
    /// becomes the tree's root, with identifier zero.
    pub fn new(snapshot: InstanceSnapshot) -> (t: InstanceTree)
        ensures
            t.wf(),
            t.root == 0,
            snapshot_matches_at(t, 0, snapshot),
            snapshot_wf(snapshot) ==> tree_props_unique(t),
    {
        let InstanceSnapshot { name, class, properties, children, source_path: _ } = snapshot;
        let root_inst = Instance { name, class, properties, parent: None, children: Vec::new() };
        let mut nodes: Vec<Option<Instance>> = Vec::new();
        nodes.push(Some(root_inst));
        let mut t = InstanceTree { nodes, root: 0 };
        proof {
            assert forall|i: int| #[trigger] t.live(i) implies t.node_ok(i) by {
                assert(i == 0);
                assert(t.node(0).children@.len() == 0);
            }
        }
        let ghost t1 = t;
        t.append_children(0, children);
        proof {
            let hi = t.nodes@.len() as int;
            assert(children@ == snapshot.children@);
            assert(t.node(0).children@.len() == snapshot.children@.len());
            assert forall|k: int| 0 <= k < snapshot.children@.len() implies snapshot_matches_in(
                t,
                t.node(0).children@[k] as int,
                #[trigger] snapshot.children@[k],
                0,
                hi,
            ) by {
                assert(snapshot_matches_in(t, t.node(0).children@[0 + k] as int, children@[k], 1, hi));
                lemma_matches_widen(t, t.node(0).children@[k] as int, snapshot.children@[k], 1, hi, 0, hi);
            }
            assert(snapshot_matches_in(t, 0, snapshot, 0, hi));
            if snapshot_wf(snapshot) {
                assert(tree_props_unique(t1)) by {
                    assert forall|i: int| #[trigger] t1.live(i) implies keys_unique(
                        props_view(t1.node(i).properties@),
                    ) by {
                        assert(i == 0);
                    }
                }
                assert forall|k: int| 0 <= k < children@.len() implies snapshot_wf(
                    #[trigger] children@[k],
                ) by {
                    assert(snapshot_wf(snapshot.children@[k]));
                }
                assert(tree_props_unique(t));
            }
        }
        t
    }

    /// Materializes a snapshot as a fresh subtree under a live parent,
    /// returning the new root's identifier; fails only when the parent does
    /// not resolve.
    pub fn insert(&mut self, parent_id: usize, snapshot: InstanceSnapshot) -> (r: Result<
        usize,
        TreeError,
    >)
        requires
            old(self).wf(),
        ensures
            final(self).wf(),
            final(self).root == old(self).root,
            r is Ok <==> old(self).live(parent_id as int),
            tree_props_unique(*old(self)) && snapshot_wf(snapshot) ==> tree_props_unique(
                *final(self),
            ),
            r is Err ==> *final(self) == *old(self) && r == Err::<usize, TreeError>(
                TreeError::NotFound { id: parent_id },
            ),
            r is Ok ==> {
                let id = r->Ok_0;
                &&& id == old(self).nodes@.len()
                &&& snapshot_matches_in(
                    *final(self),
                    id as int,
                    snapshot,
                    old(self).nodes@.len() as int,
                    final(self).nodes@.len() as int,
                )
                &&& final(self).node(id as int).parent == Some(parent_id)
                &&& forall|i: int|
                    #[trigger] old(self).live(i) && i != parent_id ==> final(self).live(i)
                        && final(self).node(i) == old(self).node(i)
                &&& forall|i: int|
                    0 <= i < old(self).nodes@.len() && !old(self).live(i) ==> !final(self).live(i)
                &&& final(self).live(parent_id as int)
                &&& final(self).node(parent_id as int) == (Instance {
                    children: final(self).node(parent_id as int).children,
                    ..old(self).node(parent_id as int)
                })
                &&& final(self).node(parent_id as int).children@ == old(self).node(
                    parent_id as int,
                ).children@.push(id)
            },
    {
        if parent_id < self.nodes.len() && self.nodes[parent_id].is_some() {
            let id = self.insert_subtree(parent_id, snapshot);
            Ok(id)
        } else {
            Err(TreeError::NotFound { id: parent_id })
        }
    }

    /// Appends one fresh node realizing the snapshot's own fields under the
    /// given parent, then materializes the snapshot's children below it.
    #[verifier::rlimit(100)]
    fn insert_subtree(&mut self, parent: usize, s: InstanceSnapshot) -> (id: usize)
        requires
            old(self).wf(),
            old(self).live(parent as int),
        ensures
            final(self).wf(),
            final(self).root == old(self).root,
            id == old(self).nodes@.len(),
            tree_props_unique(*old(self)) && snapshot_wf(s) ==> tree_props_unique(*final(self)),
            snapshot_matches_in(
                *final(self),
                id as int,
                s,
                old(self).nodes@.len() as int,
                final(self).nodes@.len() as int,
            ),
            final(self).node(id as int).parent == Some(parent),
            forall|i: int|
                #[trigger] old(self).live(i) && i != parent ==> final(self).live(i) && final(self).node(i) == old(self).node(i),
            forall|i: int|
                0 <= i < old(self).nodes@.len() && !old(self).live(i) ==> !final(self).live(i),
            final(self).live(parent as int),
            final(self).node(parent as int) == (Instance {
                children: final(self).node(parent as int).children,
                ..old(self).node(parent as int)
            }),
            final(self).node(parent as int).children@ == old(self).node(
                parent as int,
            ).children@.push(id),
        decreases s,
    {
        let ghost t0 = *self;
        let id = self.nodes.len();
        let InstanceSnapshot { name, class, properties, children, source_path: _ } = s;
        let inst = Instance { name, class, properties, parent: Some(parent), children: Vec::new() };
        self.nodes.push(Some(inst));
        proof {
            assert(self.nodes@[parent as int] == t0.nodes@[parent as int]);
            assert(self.nodes@[id as int] == Some(inst));
        }
        // link the fresh node under its parent
        let prev = self.replace_slot(parent, None);
        if let Some(mut pinst) = prev {
            proof {
                assert(pinst == t0.node(parent as int));
            }
            pinst.children.push(id);
            proof {
                assert(pinst.children@ == t0.node(parent as int).children@.push(id));
            }
            let _ = self.replace_slot(parent, Some(pinst));
        } else {
            proof {
                assert(false);
            }
        }
        proof {
            let t1 = *self;
            assert(t1.live(id as int));
            assert(t1.node(id as int) == Instance {
                name: s.name,
                class: s.class,
                properties: s.properties,
                parent: Some(parent),
                children: t1.node(id as int).children,
            });
            assert(t1.node(id as int).children@.len() == 0);
            assert(t1.node(parent as int).children@ == t0.node(parent as int).children@.push(id));
            assert forall|i: int| 0 <= i < t0.nodes@.len() && i != parent implies t1.nodes@[i]
                == t0.nodes@[i] by {}
            lemma_wf_after_new_child(t0, t1, parent, id);
            assert(t1.wf());
        }
        let ghost t1b = *self;
        self.append_children(id, children);
        proof {
            let t2 = *self;
            assert forall|i: int| #[trigger] t0.live(i) && i != parent implies t2.live(i)
                && t2.node(i) == t0.node(i) by {
                assert(i < t0.nodes@.len());
                assert(i != id && i != parent);
                assert(t1b.live(i) && t1b.node(i) == t0.node(i));
            }
            assert forall|i: int| 0 <= i < t0.nodes@.len() && !t0.live(i) implies !t2.live(
                i,
            ) by {
                assert(i != parent && i != id);
                assert(t1b.nodes@[i] == t0.nodes@[i]);
                assert(!t1b.live(i));
            }
            assert(t2.node(parent as int).children@ == t0.node(parent as int).children@.push(id));
            let lo1 = t1b.nodes@.len() as int;
            let hi = t2.nodes@.len() as int;
            assert(children@ == s.children@);
            assert(t2.node(id as int).children@.len() == s.children@.len());
            assert forall|k: int| 0 <= k < s.children@.len() implies snapshot_matches_in(
                t2,
                t2.node(id as int).children@[k] as int,
                #[trigger] s.children@[k],
                t0.nodes@.len() as int,
                hi,
            ) by {
                assert(snapshot_matches_in(
                    t2,
                    t2.node(id as int).children@[0 + k] as int,
                    children@[k],
                    lo1,
                    hi,
                ));
                lemma_matches_widen(
                    t2,
                    t2.node(id as int).children@[k] as int,
                    s.children@[k],
                    lo1,
                    hi,
                    t0.nodes@.len() as int,
                    hi,
                );
            }
            assert(snapshot_matches_in(*self, id as int, s, t0.nodes@.len() as int, hi));
            if tree_props_unique(t0) && snapshot_wf(s) {
                assert(tree_props_unique(t1b)) by {
                    assert forall|i: int| #[trigger] t1b.live(i) implies keys_unique(
                        props_view(t1b.node(i).properties@),
                    ) by {
                        if i == id {
                            assert(t1b.node(i).properties == s.properties);
                        } else if i == parent {
                            assert(t1b.node(i).properties == t0.node(i).properties);
                        } else {
                            assert(t0.live(i));
                        }
                    }
                }
                assert forall|k: int| 0 <= k < children@.len() implies snapshot_wf(
                    #[trigger] children@[k],
                ) by {
                    assert(snapshot_wf(s.children@[k]));
                }
                assert(tree_props_unique(*self));
            }
        }
        id
    }

    /// Materializes each snapshot of the list, in order, as a fresh child
    /// subtree of the live node `id`.
    fn append_children(&mut self, id: usize, cs: Vec<InstanceSnapshot>)
        requires
            old(self).wf(),
            old(self).live(id as int),
        ensures
            final(self).wf(),
            final(self).root == old(self).root,
            tree_props_unique(*old(self)) && (forall|k: int|
                0 <= k < cs@.len() ==> snapshot_wf(#[trigger] cs@[k])) ==> tree_props_unique(
                *final(self),
            ),
            old(self).nodes@.len() <= final(self).nodes@.len(),
            forall|i: int|
                #[trigger] old(self).live(i) && i != id ==> final(self).live(i) && final(self).node(i) == old(self).node(i),
            forall|i: int|
                0 <= i < old(self).nodes@.len() && !old(self).live(i) ==> !final(self).live(i),
            final(self).live(id as int),
            final(self).node(id as int) == (Instance {
                children: final(self).node(id as int).children,
                ..old(self).node(id as int)
            }),
            final(self).node(id as int).children@.len() == old(self).node(
                id as int,
            ).children@.len() + cs@.len(),
            forall|k: int|
                0 <= k < old(self).node(id as int).children@.len() ==> final(self).node(
                    id as int,
                ).children@[k] == old(self).node(id as int).children@[k],
            forall|k: int|
                0 <= k < cs@.len() ==> snapshot_matches_in(
                    *final(self),
                    final(self).node(id as int).children@[old(self).node(id as int).children@.len()
                        + k] as int,
                    #[trigger] cs@[k],
                    old(self).nodes@.len() as int,
                    final(self).nodes@.len() as int,
                ),
        decreases cs@,
    {
        let ghost t0 = *self;
        let ghost base = t0.node(id as int).children@.len() as int;
        let mut rest = cs;
        if rest.len() == 0 {
            return ;
        }
        let c = rest.remove(0);
        proof {
            assert(c == cs@[0]);
            assert(decreases_to!(cs@ => cs@[0]));
        }
        let ghost len0 = self.nodes@.len() as int;
        let cid = self.insert_subtree(id, c);
        let ghost t1 = *self;
        let ghost len1 = self.nodes@.len() as int;
        proof {
            assert(rest@ == cs@.skip(1));
            assert(decreases_to!(cs@ => cs@.skip(1)));
        }
        self.append_children(id, rest);
        proof {
            let t2 = *self;
            // the first child's realization survives the later insertions
            assert(snapshot_matches_in(t1, cid as int, c, len0, len1));
            assert forall|j: int| len0 <= j < len1 && t1.live(j) implies t2.live(j) && t2.node(j)
                == t1.node(j) by {
                assert(j != id);
            }
            lemma_matches_frame(t1, t2, cid as int, c, len0, len1);
            lemma_matches_widen(t2, cid as int, c, len0, len1, len0, t2.nodes@.len() as int);
            // the children list grew by cid then by the rest
            assert(t1.node(id as int).children@ == t0.node(id as int).children@.push(cid));
            assert(t2.node(id as int).children@[base] == cid);
            assert forall|k: int| 0 <= k < cs@.len() implies snapshot_matches_in(
                t2,
                t2.node(id as int).children@[base + k] as int,
                #[trigger] cs@[k],
                t0.nodes@.len() as int,
                t2.nodes@.len() as int,
            ) by {
                if k == 0 {
                    lemma_matches_widen(
                        t2,
                        cid as int,
                        c,
                        len0,
                        t2.nodes@.len() as int,
                        t0.nodes@.len() as int,
                        t2.nodes@.len() as int,
                    );
                } else {
                    assert(cs@[k] == rest@[k - 1]);
                    assert(snapshot_matches_in(
                        t2,
                        t2.node(id as int).children@[(base + 1) + (k - 1)] as int,
                        rest@[k - 1],
                        t1.nodes@.len() as int,
                        t2.nodes@.len() as int,
                    ));
                    lemma_matches_widen(
                        t2,
                        t2.node(id as int).children@[base + k] as int,
                        rest@[k - 1],
                        t1.nodes@.len() as int,
                        t2.nodes@.len() as int,
                        t0.nodes@.len() as int,
                        t2.nodes@.len() as int,
                    );
                }
            }
        }
    }
}

/// A tree stays well formed when one fresh childless node is appended and
/// linked as a new last child of a live parent.
#[verifier::rlimit(60)]
proof fn lemma_wf_after_new_child(t0: InstanceTree, t1: InstanceTree, parent: usize, id: usize)
    requires
        t0.wf(),
        t0.live(parent as int),
        id == t0.nodes@.len(),
        t1.root == t0.root,
        t1.nodes@.len() == t0.nodes@.len() + 1,
        forall|i: int| 0 <= i < t0.nodes@.len() && i != parent ==> t1.nodes@[i] == t0.nodes@[i],
        t1.live(parent as int),
        t1.node(parent as int).parent == t0.node(parent as int).parent,
        t1.node(parent as int).children@ == t0.node(parent as int).children@.push(id),
        t1.live(id as int),
        t1.node(id as int).parent == Some(parent),
        t1.node(id as int).children@.len() == 0,
    ensures
        t1.wf(),
{
    let parent: int = parent as int;
    let id: int = id as int;
    assert(t1.live(t1.root as int));
    assert(t1.root != id);
    assert forall|i: int| #[trigger] t1.live(i) implies t1.node_ok(i) by {
        if i == id {
            let cs0 = t0.node(parent).children@;
            assert(cs0.push(id as usize)[cs0.len() as int] == id as usize);
            assert(t1.node(parent).children@.contains(id as usize));
            assert(t1.node(i).children@.len() == 0);
        } else {
            assert(t0.live(i));
            assert(t0.node_ok(i));
            if i == parent {
                let cs0 = t0.node(i).children@;
                let cs1 = t1.node(i).children@;
                assert(cs1 == cs0.push(id as usize));
                assert forall|k: int| 0 <= k < cs1.len() implies #[trigger] t1.child_ok(i, k) by {
                    if k < cs0.len() {
                        assert(t0.child_ok(i, k));
                        assert(cs1[k] == cs0[k]);
                        let c = cs0[k] as int;
                        assert(i < c < t0.nodes@.len());
                        assert(t0.live(c) && t0.node(c).parent == Some(i as usize));
                        assert(c != parent && c != id);
                        assert(t1.nodes@[c] == t0.nodes@[c]);
                    } else {
                        assert(cs1[k] == id as usize);
                        assert(i < id < t1.nodes@.len());
                    }
                }
                assert forall|k1: int, k2: int| 0 <= k1 < k2 < cs1.len() implies #[trigger] cs1[k1]
                    != #[trigger] cs1[k2] by {
                    if k2 < cs0.len() {
                        assert(cs1[k1] == cs0[k1] && cs1[k2] == cs0[k2]);
                        assert(cs0[k1] != cs0[k2]);
                    } else {
                        assert(cs1[k2] == id as usize);
                        assert(cs1[k1] == cs0[k1]);
                        assert(t0.child_ok(i, k1));
                        assert(i < cs0[k1] < t0.nodes@.len());
                    }
                }
                if t1.node(i).parent is Some {
                    let p = t1.node(i).parent->0 as int;
                    assert(t0.node(p).children@.contains(i as usize));
                    assert(p != i);
                    if p == parent {
                        let csp = t0.node(parent).children@;
                        let w = choose|w: int| 0 <= w < csp.len() && csp[w] == i as usize;
                        assert(csp.push(id as usize)[w] == i as usize);
                        assert(t1.node(p).children@.contains(i as usize));
                    }
                }
            } else {
                assert(t1.node(i) == t0.node(i));
                assert forall|k: int| 0 <= k < t1.node(i).children@.len() implies #[trigger] t1.child_ok(
                    i,
                    k,
                ) by {
                    assert(t0.child_ok(i, k));
                    assert(t0.node(i).children@[k] == t1.node(i).children@[k]);
                    let c = t1.node(i).children@[k] as int;
                    assert(i < c < t0.nodes@.len());
                    assert(t0.live(c) && t0.node(c).parent == Some(i as usize));
                    if c == parent {
                        assert(t1.node(c).parent == t0.node(c).parent);
                    } else {
                        assert(t1.nodes@[c] == t0.nodes@[c]);
                    }
                }
                if t1.node(i).parent is Some {
                    let p = t1.node(i).parent->0 as int;
                    assert(t0.node(p).children@.contains(i as usize));
                    if p == parent {
                        let csp = t0.node(parent).children@;
                        let w = choose|w: int| 0 <= w < csp.len() && csp[w] == i as usize;
                        assert(csp.push(id as usize)[w] == i as usize);
                        assert(t1.node(p).children@.contains(i as usize));
                    }
                }
            }
        }
    }
}

impl InstanceTree {
    /// Decides whether `j` lies in the subtree rooted at `a`, by walking the
    /// parent chain.
    fn is_under(&self, j: usize, a: usize) -> (b: bool)
        requires
            self.wf(),
        ensures
            b == self.under(j as int, a as int),
    {
        let mut cur = j;
        loop
            invariant
                self.wf(),
                self.under(j as int, a as int) == self.under(cur as int, a as int),
            decreases cur,
        {
            if cur == a {
                return true;
            }
            if cur >= self.nodes.len() {
                return false;
            }
            match self.get(cur) {
                None => {
                    return false;
                },
                Some(inst) => {
                    match inst.parent {
                        None => {
                            return false;
                        },
                        Some(p) => {
                            proof {
                                assert(self.node_ok(cur as int));
                                assert(0 <= p < cur);
                            }
                            cur = p;
                        },
                    }
                },
            }
        }
    }

    /// Marks, slot by slot, which identifiers lie in the subtree rooted at `a`.
    fn descendant_marks(&self, a: usize) -> (m: Vec<bool>)
        requires
            self.wf(),
        ensures
            m@.len() == self.nodes@.len(),
            forall|j: int| 0 <= j < m@.len() ==> m@[j] == self.under(j, a as int),
    {
        let mut m: Vec<bool> = Vec::new();
        let n = self.nodes.len();
        let mut j: usize = 0;
        while j < n
            invariant
                self.wf(),
                n == self.nodes@.len(),
                0 <= j <= n,
                m@.len() == j,
                forall|i: int| 0 <= i < j ==> m@[i] == self.under(i, a as int),
            decreases n - j,
        {
            let b = self.is_under(j, a);
            m.push(b);
            j = j + 1;
        }
        m
    }

    /// Removes the node and its whole subtree, unlinking it from its parent;
    /// removing the root is refused, as is an identifier that does not
    /// resolve.
    #[verifier::rlimit(100)]
    pub fn remove(&mut self, id: usize) -> (r: Result<(), TreeError>)
        requires
            old(self).wf(),
        ensures
            final(self).wf(),
            final(self).root == old(self).root,
            final(self).nodes@.len() == old(self).nodes@.len(),
            r is Ok <==> (old(self).live(id as int) && id != old(self).root),
            r is Err ==> *final(self) == *old(self),
            r is Err ==> (if old(self).live(id as int) {
                r == Err::<(), TreeError>(TreeError::RemoveRoot { id })
            } else {
                r == Err::<(), TreeError>(TreeError::NotFound { id })
            }),
            r is Ok ==> !final(self).live(id as int),
            r is Ok ==> forall|j: int|
                #[trigger] final(self).live(j) ==> old(self).live(j) && !old(self).under(
                    j,
                    id as int,
                ),
            r is Ok ==> forall|j: int|
                0 <= j < old(self).nodes@.len() && old(self).under(j, id as int) ==> !final(self).live(j),
            r is Ok ==> forall|j: int|
                #[trigger] old(self).live(j) && !old(self).under(j, id as int) ==> final(self).live(j),
            r is Ok ==> forall|j: int|
                #[trigger] old(self).live(j) && !old(self).under(j, id as int) && j != old(self).node(id as int).parent->0 ==> final(self).node(j) == old(self).node(j),
            r is Ok ==> {
                let p = old(self).node(id as int).parent->0 as int;
                &&& final(self).live(p)
                &&& final(self).node(p) == (Instance {
                    children: final(self).node(p).children,
                    ..old(self).node(p)
                })
                &&& !final(self).node(p).children@.contains(id)
                &&& forall|c: usize|
                    c != id ==> (final(self).node(p).children@.contains(c) <==> old(self).node(
                        p,
                    ).children@.contains(c))
            },
    {
        let ghost t0 = *self;
        if id >= self.nodes.len() {
            return Err(TreeError::NotFound { id });
        }
        let is_live = self.nodes[id].is_some();
        if !is_live {
            return Err(TreeError::NotFound { id });
        }
        if id == self.root {
            return Err(TreeError::RemoveRoot { id });
        }
        let p = match self.get(id) {
            Some(inst) => match inst.parent {
                Some(p) => p,
                None => {
                    proof {
                        assert(false);
                    }
                    0
                },
            },
            None => {
                proof {
                    assert(false);
                }
                0
            },
        };
        proof {
            assert(t0.node_ok(id as int));
            assert(0 <= p < id);
            lemma_under_bound(t0, p as int, id as int);
        }
        let marks = self.descendant_marks(id);
        // kill every node of the subtree
        let n = self.nodes.len();
        let mut j: usize = 0;
        while j < n
            invariant
                n == t0.nodes@.len(),
                self.nodes@.len() == n,
                self.root == t0.root,
                0 <= j <= n,
                marks@.len() == n,
                forall|i: int| 0 <= i < n ==> marks@[i] == t0.under(i, id as int),
                forall|i: int|
                    0 <= i < j ==> self.nodes@[i] == (if t0.under(i, id as int) {
                        None::<Instance>
                    } else {
                        t0.nodes@[i]
                    }),
                forall|i: int| j <= i < n ==> self.nodes@[i] == t0.nodes@[i],
            decreases n - j,
        {
            if marks[j] {
                let _ = self.replace_slot(j, None);
            }
            j = j + 1;
        }
        // unlink from the parent
        let ghost tk = *self;
        proof {
            assert(!t0.under(p as int, id as int));
            assert(tk.nodes@[p as int] == t0.nodes@[p as int]);
        }
        let prev = self.replace_slot(p, None);
        if let Some(mut pinst) = prev {
            let ghost cs0 = pinst.children@;
            let w = find_index(&pinst.children, id);
            pinst.children.remove(w);
            proof {
                assert(pinst.children@ == cs0.remove(w as int));
            }
            let _ = self.replace_slot(p, Some(pinst));
            proof {
                let t2 = *self;
                assert(t0.nodes@.len() == n);
                lemma_wf_after_subtree_removal(t0, tk, t2, id, p, cs0, w as int);
            }
            Ok(())
        } else {
            proof {
                assert(false);
            }
            Err(TreeError::NotFound { id })
        }
    }
}

/// Finds a position of a value known to occur in the list.
fn find_index(v: &Vec<usize>, x: usize) -> (w: usize)
    requires
        v@.contains(x),
    ensures
        w < v@.len(),
        v@[w as int] == x,
{
    let n = v.len();
    let mut i: usize = 0;
    while i < n
        invariant
            n == v@.len(),
            0 <= i <= n,
            forall|k: int| 0 <= k < i ==> v@[k] != x,
            v@.contains(x),
        decreases n - i,
    {
        if v[i] == x {
            return i;
        }
        i = i + 1;
    }
    proof {
        let k = choose|k: int| 0 <= k < v@.len() && v@[k] == x;
        assert(v@[k] != x);
        assert(false);
    }
    0
}

/// A subtree never starts above its root: whatever lies under `a` has an
/// identifier at least `a`.
pub proof fn lemma_under_bound(t: InstanceTree, j: int, a: int)
    ensures
        t.under(j, a) ==> a <= j,
    decreases (if j >= 0 { j } else { 0 }),
{
    if j != a && 0 <= j && t.live(j) && t.node(j).parent is Some && 0 <= t.node(j).parent->0 < j {
        lemma_under_bound(t, t.node(j).parent->0 as int, a);
    }
}

/// After the subtree under `id` is cleared and `id` is struck from its former
/// parent's child list, the tree is well formed again.
#[verifier::rlimit(100)]
proof fn lemma_wf_after_subtree_removal(
    t0: InstanceTree,
    tk: InstanceTree,
    t2: InstanceTree,
    id: usize,
    p: usize,
    cs0: Seq<usize>,
    w: int,
)
    requires
        t0.nodes@.len() <= usize::MAX,
        t0.wf(),
        t0.live(id as int),
        id != t0.root,
        t0.node(id as int).parent == Some(p),
        0 <= w < cs0.len(),
        cs0 == t0.node(p as int).children@,
        cs0[w] == id,
        tk.nodes@.len() == t0.nodes@.len(),
        tk.root == t0.root,
        forall|i: int|
            0 <= i < tk.nodes@.len() ==> tk.nodes@[i] == (if t0.under(i, id as int) {
                None::<Instance>
            } else {
                t0.nodes@[i]
            }),
        t2.root == tk.root,
        t2.nodes@.len() == tk.nodes@.len(),
        forall|i: int| 0 <= i < tk.nodes@.len() && i != p ==> t2.nodes@[i] == tk.nodes@[i],
        t2.live(p as int),
        t2.node(p as int) == (Instance {
            children: t2.node(p as int).children,
            ..t0.node(p as int)
        }),
        t2.node(p as int).children@ == cs0.remove(w),
    ensures
        t2.wf(),
        !t2.live(id as int),
        forall|j: int| #[trigger] t2.live(j) ==> t0.live(j) && !t0.under(j, id as int),
        forall|j: int| 0 <= j < t0.nodes@.len() && t0.under(j, id as int) ==> !t2.live(j),
        forall|j: int|
            #[trigger] t0.live(j) && !t0.under(j, id as int) ==> t2.live(j),
        forall|j: int|
            #[trigger] t0.live(j) && !t0.under(j, id as int) && j != p ==> t2.node(j) == t0.node(j),
        !t2.node(p as int).children@.contains(id),
        forall|c: usize|
            c != id ==> (t2.node(p as int).children@.contains(c) <==> t0.node(
                p as int,
            ).children@.contains(c)),
{
    let pi = p as int;
    let idi = id as int;
    lemma_under_bound(t0, pi, idi);
    assert(!t0.under(pi, idi));
    let cs2 = cs0.remove(w);
    // content of the new child list
    assert(t0.node_ok(pi));
    assert forall|k: int| 0 <= k < cs2.len() implies cs2[k] != id by {
        if k < w {
            assert(cs2[k] == cs0[k]);
            if cs0[k] == id {
                assert(cs0[k] == cs0[w]);
            }
        } else {
            assert(cs2[k] == cs0[k + 1]);
            if cs0[k + 1] == id {
                assert(cs0[k + 1] == cs0[w]);
            }
        }
    }
    assert(!cs2.contains(id));
    assert forall|c: usize| c != id implies (cs2.contains(c) <==> cs0.contains(c)) by {
        if cs2.contains(c) {
            let k = choose|k: int| 0 <= k < cs2.len() && cs2[k] == c;
            if k < w {
                assert(cs0[k] == c);
            } else {
                assert(cs0[k + 1] == c);
            }
        }
        if cs0.contains(c) {
            let k = choose|k: int| 0 <= k < cs0.len() && cs0[k] == c;
            assert(k != w);
            if k < w {
                assert(cs2[k] == c);
            } else {
                assert(cs2[k - 1] == c);
            }
        }
    }
    // liveness after removal
    assert forall|j: int| #[trigger] t2.live(j) implies t0.live(j) && !t0.under(j, idi) by {
        if j == pi {
        } else {
            assert(t2.nodes@[j] == tk.nodes@[j]);
        }
    }
    assert forall|j: int| #[trigger] t0.live(j) && !t0.under(j, idi) implies t2.live(j) by {
        if j == pi {
        } else {
            assert(t2.nodes@[j] == tk.nodes@[j]);
        }
    }
    assert(t0.under(idi, idi));
    assert(!t2.live(idi));
    // well-formedness
    assert(!t0.under(t0.root as int, idi));
    assert(t2.live(t2.root as int));
    assert forall|i: int| #[trigger] t2.live(i) implies t2.node_ok(i) by {
        assert(t0.live(i) && !t0.under(i, idi));
        assert(t0.node_ok(i));
        if i != pi {
            assert(t2.node(i) == t0.node(i));
        }
        // parent direction
        if t2.node(i).parent is Some {
            let pj = t2.node(i).parent->0 as int;
            assert(t0.node(i).parent->0 == t2.node(i).parent->0);
            assert(0 <= pj < i);
            assert(!t0.under(pj, idi));
            assert(t2.live(pj));
            if pj == pi {
                assert(t0.node(pi).children@.contains(i as usize));
                assert(cs0.contains(i as usize));
                assert(i != idi);
                assert(i as usize != id);
                assert(cs2.contains(i as usize));
                assert(t2.node(pj).children@.contains(i as usize));
            } else {
                assert(t2.node(pj) == t0.node(pj));
            }
        }
        // children direction
        assert forall|k: int| 0 <= k < t2.node(i).children@.len() implies #[trigger] t2.child_ok(
            i,
            k,
        ) by {
            let c = t2.node(i).children@[k];
            if i == pi {
                assert(t2.node(i).children@ == cs2);
                assert(cs0.contains(c));
                let k0 = choose|k0: int| 0 <= k0 < cs0.len() && cs0[k0] == c;
                assert(t0.node(i).children@[k0] == c);
                assert(t0.child_ok(i, k0));
                assert(c != id);
                assert(t0.node(c as int).parent == Some(i as usize));
                assert(!t0.under(c as int, idi));
                assert(t2.live(c as int));
                if c != p {
                    assert(t2.node(c as int) == t0.node(c as int));
                }
            } else {
                assert(t2.node(i).children@ == t0.node(i).children@);
                assert(t0.child_ok(i, k));
                assert(t0.node(c as int).parent == Some(i as usize));
                if c == id {
                    assert(t0.node(idi).parent == Some(p));
                    assert(i == pi);
                    assert(false);
                }
                assert(!t0.under(c as int, idi));
                assert(t2.live(c as int));
                if c != p {
                    assert(t2.node(c as int) == t0.node(c as int));
                }
            }
        }
        // distinctness
        assert forall|k1: int, k2: int|
            0 <= k1 < k2 < t2.node(i).children@.len() implies #[trigger] t2.node(i).children@[k1]
            != #[trigger] t2.node(i).children@[k2] by {
            if i == pi {
                let a1: int = if k1 < w { k1 } else { k1 + 1 };
                let a2: int = if k2 < w { k2 } else { k2 + 1 };
                assert(cs2[k1] == cs0[a1] && cs2[k2] == cs0[a2]);
                assert(t0.node(i).children@[a1] != t0.node(i).children@[a2]);
            } else {
                assert(t2.node(i).children@ == t0.node(i).children@);
            }
        }
    }
}

impl InstanceTree {
    /// Replaces one live node's content fields, leaving the structure alone.
    pub(crate) fn update_node(&mut self, id: usize, name: Option<String>, class: Option<String>) -> (r:
        Result<(), TreeError>)
        requires
            old(self).wf(),
        ensures
            final(self).wf(),
            final(self).root == old(self).root,
            final(self).nodes@.len() == old(self).nodes@.len(),
            r is Ok <==> old(self).live(id as int),
            r is Err ==> *final(self) == *old(self) && r == Err::<(), TreeError>(
                TreeError::NotFound { id },
            ),
            r is Ok ==> forall|j: int|
                #[trigger] old(self).live(j) && j != id ==> final(self).live(j) && final(self).node(
                    j,
                ) == old(self).node(j),
            r is Ok ==> forall|j: int| old(self).live(j) <==> final(self).live(j),
            r is Ok ==> final(self).node(id as int) == (Instance {
                name: (if name is Some {
                    name->0
                } else {
                    old(self).node(id as int).name
                }),
                class: (if class is Some {
                    class->0
                } else {
                    old(self).node(id as int).class
                }),
                ..old(self).node(id as int)
            }),
    {
        let ghost t0 = *self;
        if id >= self.nodes.len() {
            return Err(TreeError::NotFound { id });
        }
        if !self.nodes[id].is_some() {
            return Err(TreeError::NotFound { id });
        }
        let prev = self.replace_slot(id, None);
        if let Some(mut inst) = prev {
            match name {
                Some(n) => {
                    inst.name = n;
                },
                None => {},
            }
            match class {
                Some(c) => {
                    inst.class = c;
                },
                None => {},
            }
            let _ = self.replace_slot(id, Some(inst));
            proof {
                lemma_wf_same_structure(t0, *self);
            }
            Ok(())
        } else {
            proof {
                assert(false);
            }
            Err(TreeError::NotFound { id })
        }
    }

    /// Gives a live node a new name.
    pub fn rename(&mut self, id: usize, new_name: String) -> (r: Result<(), TreeError>)
        requires
            old(self).wf(),
        ensures
            final(self).wf(),
            final(self).root == old(self).root,
            r is Ok <==> old(self).live(id as int),
            r is Err ==> *final(self) == *old(self) && r == Err::<(), TreeError>(
                TreeError::NotFound { id },
            ),
            r is Ok ==> forall|j: int|
                #[trigger] old(self).live(j) && j != id ==> final(self).live(j) && final(self).node(
                    j,
                ) == old(self).node(j),
            r is Ok ==> forall|j: int| old(self).live(j) <==> final(self).live(j),
            r is Ok ==> final(self).node(id as int) == (Instance {
                name: new_name,
                ..old(self).node(id as int)
            }),
    {
        self.update_node(id, Some(new_name), None)
    }

    /// Gives a live node a new class.
    pub fn set_class(&mut self, id: usize, new_class: String) -> (r: Result<(), TreeError>)
        requires
            old(self).wf(),
        ensures
            final(self).wf(),
            final(self).root == old(self).root,
            r is Ok <==> old(self).live(id as int),
            r is Err ==> *final(self) == *old(self) && r == Err::<(), TreeError>(
                TreeError::NotFound { id },
            ),
            r is Ok ==> forall|j: int|
                #[trigger] old(self).live(j) && j != id ==> final(self).live(j) && final(self).node(
                    j,
                ) == old(self).node(j),
            r is Ok ==> forall|j: int| old(self).live(j) <==> final(self).live(j),
            r is Ok ==> final(self).node(id as int) == (Instance {
                class: new_class,
                ..old(self).node(id as int)
            }),
    {
        self.update_node(id, None, Some(new_class))
    }

    /// Applies a list of property changes to a live node, in order: a change
    /// with a value sets the property, one without removes it. Properties the
    /// list does not name keep their values.
    pub fn set_properties(&mut self, id: usize, changes: Vec<(String, Option<PropValue>)>) -> (r:
        Result<(), TreeError>)
        requires
            old(self).wf(),
        ensures
            final(self).wf(),
            final(self).root == old(self).root,
            final(self).nodes@.len() == old(self).nodes@.len(),
            r is Ok <==> old(self).live(id as int),
            r is Err ==> *final(self) == *old(self) && r == Err::<(), TreeError>(
                TreeError::NotFound { id },
            ),
            r is Ok ==> forall|j: int|
                #[trigger] old(self).live(j) && j != id ==> final(self).live(j) && final(self).node(
                    j,
                ) == old(self).node(j),
            r is Ok ==> forall|j: int| old(self).live(j) <==> final(self).live(j),
            r is Ok ==> final(self).node(id as int) == (Instance {
                properties: final(self).node(id as int).properties,
                ..old(self).node(id as int)
            }),
            r is Ok ==> forall|k: Seq<char>|
                #[trigger] lookup_v(props_view(final(self).node(id as int).properties@), k)
                    == (match changed_value(changes@, k) {
                    Some(v) => v,
                    None => lookup_v(props_view(old(self).node(id as int).properties@), k),
                }),
    {
        let ghost t0 = *self;
        if id >= self.nodes.len() {
            return Err(TreeError::NotFound { id });
        }
        if !self.nodes[id].is_some() {
            return Err(TreeError::NotFound { id });
        }
        let prev = self.replace_slot(id, None);
        if let Some(mut inst) = prev {
            let ghost props0 = inst.properties@;
            let mut rest = changes;
            let ghost all = rest@;
            proof {
                assert(all.len() == rest.len());
            }
            let mut i: usize = 0;
            while rest.len() > 0
                invariant
                    0 <= i <= all.len(),
                    all.len() <= usize::MAX,
                    rest@ == all.skip(i as int),
                    inst == (Instance { properties: inst.properties, ..t0.node(id as int) }),
                    forall|k: Seq<char>|
                        #[trigger] lookup_v(props_view(inst.properties@), k) == (
                        match changed_value(all.take(i as int), k) {
                            Some(v) => v,
                            None => lookup_v(props_view(props0), k),
                        }),
                decreases rest@.len(),
            {
                let (key, val) = rest.remove(0);
                let ghost i0 = i as int;
                proof {
                    assert(all.skip(i0)[0] == all[i0]);
                }
                let ghost keyv = key@;
                match val {
                    Some(v) => {
                        upsert_prop(&mut inst.properties, key, v);
                    },
                    None => {
                        remove_prop(&mut inst.properties, &key);
                    },
                }
                proof {
                    assert(all.take(i0 + 1).take(i0) =~= all.take(i0));
                    assert(all.take(i0 + 1)[i0] == all[i0]);
                    assert forall|k: Seq<char>|
                        true implies #[trigger] changed_value(all.take(i0 + 1), k) == (if all[i0].0@
                        == k {
                        Some(
                            match all[i0].1 {
                                Some(v) => Some(v@),
                                None => None,
                            },
                        )
                    } else {
                        changed_value(all.take(i0), k)
                    }) by {
                        assert(all.take(i0 + 1).len() == i0 + 1);
                    }
                    assert(rest@ =~= all.skip(i0 + 1));
                }
                i = i + 1;
            }
            proof {
                assert(all.take(all.len() as int) =~= all);
            }
            let _ = self.replace_slot(id, Some(inst));
            proof {
                lemma_wf_same_structure(t0, *self);
            }
            Ok(())
        } else {
            proof {
                assert(false);
            }
            Err(TreeError::NotFound { id })
        }
    }
}

/// The value a change list leaves one key at: the last change of that key
/// wins, and no change of it leaves the key alone.
pub open spec fn changed_value(
    changes: Seq<(String, Option<PropValue>)>,
    k: Seq<char>,
) -> Option<Option<PropVal>>
    decreases changes.len(),
{
    if changes.len() <= 0 {
        None
    } else {
        let last = changes[changes.len() - 1];
        if last.0@ == k {
            Some(
                match last.1 {
                    Some(v) => Some(v@),
                    None => None,
                },
            )
        } else {
            changed_value(changes.take(changes.len() - 1), k)
        }
    }
}

/// Changing only the content fields of live nodes keeps a tree well formed.
proof fn lemma_wf_same_structure(t0: InstanceTree, t1: InstanceTree)
    requires
        t0.wf(),
        t1.root == t0.root,
        t1.nodes@.len() == t0.nodes@.len(),
        forall|i: int| t0.live(i) <==> t1.live(i),
        forall|i: int| #[trigger] t0.live(i) ==> t1.node(i).parent == t0.node(i).parent
            && t1.node(i).children == t0.node(i).children,
    ensures
        t1.wf(),
{
    assert(t1.live(t1.root as int));
    assert forall|i: int| #[trigger] t1.live(i) implies t1.node_ok(i) by {
        assert(t0.live(i));
        assert(t0.node_ok(i));
        if t1.node(i).parent is Some {
            let pj = t1.node(i).parent->0 as int;
            assert(t0.node(pj).children@.contains(i as usize));
            assert(t1.node(pj).children@ == t0.node(pj).children@);
        }
        assert forall|k: int| 0 <= k < t1.node(i).children@.len() implies #[trigger] t1.child_ok(
            i,
            k,
        ) by {
            assert(t0.child_ok(i, k));
            let c = t0.node(i).children@[k] as int;
            assert(t1.node(c).parent == t0.node(c).parent);
        }
        assert(t1.node(i).children@ == t0.node(i).children@);
    }
}

/// Lying under a node that lies under another is lying under the other.
pub proof fn lemma_under_trans(t: InstanceTree, x: int, y: int, z: int)
    requires
        t.under(x, y),
        t.under(y, z),
    ensures
        t.under(x, z),
    decreases (if x >= 0 { x } else { 0 }),
{
    if x == y {
    } else if 0 <= x && t.live(x) && t.node(x).parent is Some && 0 <= t.node(x).parent->0 < x {
        lemma_under_trans(t, t.node(x).parent->0 as int, y, z);
    }
}


/// On a well-formed tree the ancestor chain passes only live nodes, so a
/// strict ancestor is itself live.
pub proof fn lemma_under_live(t: InstanceTree, j: int, a: int)
    requires
        t.wf(),
        t.live(j),
        t.under(j, a),
        j != a,
    ensures
        t.live(a),
    decreases (if j >= 0 { j } else { 0 }),
{
    let p = t.node(j).parent->0 as int;
    assert(t.node_ok(j));
    assert(t.live(p));
    if p != a {
        lemma_under_live(t, p, a);
    }
}

/// Two ancestors of one node lie on one chain: one is under the other.
pub proof fn lemma_under_linear(t: InstanceTree, x: int, a: int, b: int)
    requires
        t.under(x, a),
        t.under(x, b),
    ensures
        t.under(a, b) || t.under(b, a),
    decreases (if x >= 0 { x } else { 0 }),
{
    if x == a {
    } else if x == b {
    } else if 0 <= x && t.live(x) && t.node(x).parent is Some && 0 <= t.node(x).parent->0 < x {
        lemma_under_linear(t, t.node(x).parent->0 as int, a, b);
    }
}

/// Nodes lying under distinct children of one node lie in disjoint subtrees.
pub proof fn lemma_branches_disjoint(
    t: InstanceTree,
    id: usize,
    c1: int,
    c2: int,
    x: int,
    r: int,
)
    requires
        t.live(c1),
        t.live(c2),
        t.node(c1).parent == Some(id),
        t.node(c2).parent == Some(id),
        (id as int) < c1,
        (id as int) < c2,
        c1 != c2,
        t.under(x, c1),
        t.under(r, c2),
    ensures
        !t.under(x, r),
{
    if t.under(x, r) {
        lemma_under_trans(t, x, r, c2);
        lemma_under_linear(t, x, c1, c2);
        if t.under(c1, c2) {
            assert(t.node(c1).parent->0 == id);
            assert(t.under(id as int, c2));
            lemma_under_bound(t, id as int, c2);
        } else {
            assert(t.under(c2, c1));
            assert(t.node(c2).parent->0 == id);
            assert(t.under(id as int, c1));
            lemma_under_bound(t, id as int, c1);
        }
    }
}

/// A node never lies under a strict descendant of itself.
pub proof fn lemma_not_under_descendant(t: InstanceTree, id: int, r: int)
    requires
        t.under(r, id),
        r != id,
    ensures
        !t.under(id, r),
{
    lemma_under_bound(t, r, id);
    if t.under(id, r) {
        lemma_under_bound(t, id, r);
    }
}

} // verus!
