use vstd::prelude::*;
use crate::prop::{props_view, lookup_v, PropValue};
use crate::snapshot::{
    InstanceSnapshot, snapshot_matches_in, lemma_matches_frame, lemma_matches_widen,
};
use crate::tree::{changed_value, lemma_under_trans, lemma_under_live, Instance, InstanceTree, TreeError};

verus! {

/// A new subtree to materialize under an existing live node.
pub struct PatchAdd {
    pub parent: usize,
    pub snapshot: InstanceSnapshot,
}

/// Changes to one live node: an optional new name and class, and a list of
/// property changes (a missing value removes the property).
pub struct PatchUpdate {
    pub id: usize,
    pub changed_name: Option<String>,
    pub changed_class: Option<String>,
    pub changed_properties: Vec<(String, Option<PropValue>)>,
}

/// An ordered set of changes: removals are applied first, then additions,
/// then updates.
pub struct PatchSet {
    pub removed: Vec<usize>,
    pub added: Vec<PatchAdd>,
    pub updated: Vec<PatchUpdate>,
}

impl PatchSet {
    /// A patch set with no entries at all.
    pub open spec fn spec_is_empty(self) -> bool {
        self.removed@.len() == 0 && self.added@.len() == 0 && self.updated@.len() == 0
    }

    /// Builds an empty patch set.
    pub fn new() -> (r: PatchSet)
        ensures
            r.spec_is_empty(),
    {
        PatchSet { removed: Vec::new(), added: Vec::new(), updated: Vec::new() }
    }

    /// Reports whether the patch set holds no entries.
    pub fn is_empty(&self) -> (r: bool)
        ensures
            r == self.spec_is_empty(),
    {
        self.removed.len() == 0 && self.added.len() == 0 && self.updated.len() == 0
    }
}

/// The node `x` lies in the subtree of one of the patch set's removals.
pub open spec fn removed_covers(p: PatchSet, t: InstanceTree, x: int) -> bool {
    exists|k: int| 0 <= k < p.removed@.len() && t.under(x, #[trigger] p.removed@[k] as int)
}

/// The patch set fits the tree: no removal names the root, and every added
/// subtree's parent and every updated node is live and survives the
/// removals. Applying such a set cannot fail.
pub open spec fn patch_valid_for(p: PatchSet, t: InstanceTree) -> bool {
    &&& forall|k: int| 0 <= k < p.removed@.len() ==> (#[trigger] p.removed@[k]) != t.root
    &&& forall|k: int|
        0 <= k < p.added@.len() ==> t.live((#[trigger] p.added@[k]).parent as int)
            && !removed_covers(p, t, p.added@[k].parent as int)
    &&& forall|k: int|
        0 <= k < p.updated@.len() ==> t.live((#[trigger] p.updated@[k]).id as int)
            && !removed_covers(p, t, p.updated@[k].id as int)
}

/// Walking the parent chain gives the same answer in any tree that keeps the
/// live nodes and parents of the first.
proof fn lemma_under_agree(t0: InstanceTree, t1: InstanceTree, x: int, a: int)
    requires
        forall|y: int| #[trigger] t1.live(y) ==> t0.live(y) && t1.node(y).parent == t0.node(
            y,
        ).parent,
        forall|y: int|
            #[trigger] t1.live(y) && t1.node(y).parent is Some ==> t1.live(
                t1.node(y).parent->0 as int,
            ),
        t1.nodes@.len() == t0.nodes@.len(),
        t1.live(x) || x == a,
    ensures
        t1.under(x, a) == t0.under(x, a),
    decreases (if x >= 0 { x } else { 0 }),
{
    if x == a {
    } else if t1.live(x) {
        if t1.node(x).parent is Some && 0 <= t1.node(x).parent->0 < x {
            lemma_under_agree(t0, t1, t1.node(x).parent->0 as int, a);
        }
    }
}


/// No update entry of the patch set names this identifier.
pub open spec fn not_updated(p: PatchSet, j: int) -> bool {
    forall|k: int| 0 <= k < p.updated@.len() ==> (#[trigger] p.updated@[k]).id != j
}

/// No added entry of the patch set goes under this identifier.
pub open spec fn not_add_parent(p: PatchSet, j: int) -> bool {
    forall|k: int| 0 <= k < p.added@.len() ==> (#[trigger] p.added@[k]).parent != j
}

/// No removal of the patch set strikes a live child out of this node's list.
pub open spec fn no_removed_child(p: PatchSet, t: InstanceTree, j: int) -> bool {
    forall|k: int|
        0 <= k < p.removed@.len() ==> !(t.live((#[trigger] p.removed@[k]) as int) && t.node(
            p.removed@[k] as int,
        ).parent == Some(j as usize))
}

/// One of the first `i` removal entries covers the node.
pub open spec fn covered_before(patch: PatchSet, t: InstanceTree, j: int, i: int) -> bool {
    exists|k: int| 0 <= k < i && t.under(j, #[trigger] patch.removed@[k] as int)
}

/// Each identifier is updated at most once.
pub open spec fn updated_ids_unique(p: PatchSet) -> bool {
    forall|k1: int, k2: int|
        0 <= k1 < k2 < p.updated@.len() ==> (#[trigger] p.updated@[k1]).id
            != (#[trigger] p.updated@[k2]).id
}

/// The update entry leaves the node with the stated name, class and
/// properties: changed fields take their new values, the rest keep the old
/// tree's.
#[verifier::opaque]
pub open spec fn update_applied(t0: InstanceTree, t1: InstanceTree, u: PatchUpdate) -> bool {
    let j = u.id as int;
    &&& t1.live(j)
    &&& t1.node(j).name == (if u.changed_name is Some {
        u.changed_name->0
    } else {
        t0.node(j).name
    })
    &&& t1.node(j).class == (if u.changed_class is Some {
        u.changed_class->0
    } else {
        t0.node(j).class
    })
    &&& t1.node(j).parent == t0.node(j).parent
    &&& forall|key: Seq<char>|
        #[trigger] lookup_v(props_view(t1.node(j).properties@), key) == (match changed_value(
            u.changed_properties@,
            key,
        ) {
            Some(v) => v,
            None => lookup_v(props_view(t0.node(j).properties@), key),
        })
}


/// The k-th added entry of the patch set is realized in the tree: some
/// fresh node carries its snapshot, linked under its stated parent.
#[verifier::opaque]
pub open spec fn added_realized(t: InstanceTree, patch: PatchSet, k: int, t0len: int) -> bool {
    exists|nid: int|
        snapshot_matches_in(
            t,
            nid,
            patch.added@[k].snapshot,
            t0len,
            t.nodes@.len() as int,
        ) && t.live(nid) && t.node(nid).parent == Some(patch.added@[k].parent)
}

/// Every added entry stays realized when the fresh region of the arena is
/// carried over unchanged.
proof fn lemma_adds_preserved(tb: InstanceTree, t2: InstanceTree, patch: PatchSet, t0len: int)
    requires
        tb.nodes@.len() == t2.nodes@.len(),
        forall|j: int|
            t0len <= j < tb.nodes@.len() && #[trigger] tb.live(j) ==> t2.live(j) && t2.node(j)
                == tb.node(j),
        forall|k: int|
            0 <= k < patch.added@.len() ==> #[trigger] added_realized(tb, patch, k, t0len),
    ensures
        forall|k: int|
            0 <= k < patch.added@.len() ==> #[trigger] added_realized(t2, patch, k, t0len),
{
    reveal(added_realized);
    let hi = tb.nodes@.len() as int;
    assert forall|k: int| 0 <= k < patch.added@.len() implies #[trigger] added_realized(
        t2,
        patch,
        k,
        t0len,
    ) by {
        assert(added_realized(tb, patch, k, t0len));
        let nid = choose|nid: int|
            snapshot_matches_in(tb, nid, patch.added@[k].snapshot, t0len, hi) && tb.live(nid)
                && tb.node(nid).parent == Some(patch.added@[k].parent);
        lemma_matches_frame(tb, t2, nid, patch.added@[k].snapshot, t0len, hi);
        assert(t2.node(nid).parent == tb.node(nid).parent);
        assert(snapshot_matches_in(
            t2,
            nid,
            patch.added@[k].snapshot,
            t0len,
            t2.nodes@.len() as int,
        ) && t2.live(nid) && t2.node(nid).parent == Some(patch.added@[k].parent));
    }
}

/// The realized prefix of the added entries grows by the entry a fresh
/// insertion just realized.
proof fn lemma_adds_extended(
    tb: InstanceTree,
    t2: InstanceTree,
    patch: PatchSet,
    t0len: int,
    done: int,
    nid0: int,
)
    requires
        0 <= done < patch.added@.len(),
        t0len <= tb.nodes@.len() <= t2.nodes@.len(),
        forall|j: int|
            t0len <= j < tb.nodes@.len() && #[trigger] tb.live(j) ==> t2.live(j) && t2.node(j)
                == tb.node(j),
        forall|k: int| 0 <= k < done ==> #[trigger] added_realized(tb, patch, k, t0len),
        snapshot_matches_in(
            t2,
            nid0,
            patch.added@[done].snapshot,
            tb.nodes@.len() as int,
            t2.nodes@.len() as int,
        ),
        t2.live(nid0),
        t2.node(nid0).parent == Some(patch.added@[done].parent),
    ensures
        forall|k: int| 0 <= k < done + 1 ==> #[trigger] added_realized(t2, patch, k, t0len),
{
    reveal(added_realized);
    let lenb = tb.nodes@.len() as int;
    let lena = t2.nodes@.len() as int;
    lemma_matches_widen(t2, nid0, patch.added@[done].snapshot, lenb, lena, t0len, lena);
    assert forall|k: int| 0 <= k < done + 1 implies #[trigger] added_realized(
        t2,
        patch,
        k,
        t0len,
    ) by {
        if k < done {
            assert(added_realized(tb, patch, k, t0len));
            let nid = choose|nid: int|
                snapshot_matches_in(tb, nid, patch.added@[k].snapshot, t0len, lenb) && tb.live(
                    nid,
                ) && tb.node(nid).parent == Some(patch.added@[k].parent);
            lemma_matches_frame(tb, t2, nid, patch.added@[k].snapshot, t0len, lenb);
            lemma_matches_widen(t2, nid, patch.added@[k].snapshot, t0len, lenb, t0len, lena);
            assert(t2.node(nid).parent == tb.node(nid).parent);
            assert(snapshot_matches_in(
                t2,
                nid,
                patch.added@[k].snapshot,
                t0len,
                lena,
            ) && t2.live(nid) && t2.node(nid).parent == Some(patch.added@[k].parent));
        } else {
            assert(snapshot_matches_in(
                t2,
                nid0,
                patch.added@[k].snapshot,
                t0len,
                lena,
            ) && t2.live(nid0) && t2.node(nid0).parent == Some(patch.added@[k].parent));
        }
    }
}

/// Updates already applied stay applied when later steps leave their nodes
/// alone.
proof fn lemma_updates_preserved(
    t0: InstanceTree,
    tb: InstanceTree,
    t2: InstanceTree,
    patch: PatchSet,
    udone: int,
    cur_id: usize,
)
    requires
        0 <= udone <= patch.updated@.len(),
        forall|k: int| 0 <= k < udone ==> update_applied(t0, tb, #[trigger] patch.updated@[k]),
        forall|k: int| 0 <= k < udone ==> (#[trigger] patch.updated@[k]).id != cur_id,
        forall|j: int|
            #[trigger] tb.live(j) ==> t2.live(j) && (j != cur_id ==> t2.node(j) == tb.node(j)),
    ensures
        forall|k: int| 0 <= k < udone ==> update_applied(t0, t2, #[trigger] patch.updated@[k]),
{
    reveal(update_applied);
    assert forall|k: int| 0 <= k < udone implies update_applied(
        t0,
        t2,
        #[trigger] patch.updated@[k],
    ) by {
        let u = patch.updated@[k];
        let j = u.id as int;
        assert(update_applied(t0, tb, u));
        assert(tb.live(j));
        assert(t2.node(j) == tb.node(j));
        assert forall|key: Seq<char>|
            true implies #[trigger] lookup_v(props_view(t2.node(j).properties@), key) == (
        match changed_value(u.changed_properties@, key) {
            Some(v) => v,
            None => lookup_v(props_view(t0.node(j).properties@), key),
        }) by {
            assert(lookup_v(props_view(tb.node(j).properties@), key) == (match changed_value(
                u.changed_properties@,
                key,
            ) {
                Some(v) => v,
                None => lookup_v(props_view(t0.node(j).properties@), key),
            }));
        }
    }
}

/// One update entry, applied to a node still carrying its original content,
/// leaves the node with the stated fields.
proof fn lemma_update_applied_step(
    t0: InstanceTree,
    tb: InstanceTree,
    tm: InstanceTree,
    t2: InstanceTree,
    u: PatchUpdate,
)
    requires
        tb.live(u.id as int),
        tb.node(u.id as int) == (Instance {
            children: tb.node(u.id as int).children,
            ..t0.node(u.id as int)
        }),
        tm.live(u.id as int),
        tm.node(u.id as int) == (Instance {
            name: (if u.changed_name is Some {
                u.changed_name->0
            } else {
                tb.node(u.id as int).name
            }),
            class: (if u.changed_class is Some {
                u.changed_class->0
            } else {
                tb.node(u.id as int).class
            }),
            ..tb.node(u.id as int)
        }),
        t2.live(u.id as int),
        t2.node(u.id as int) == (Instance {
            properties: t2.node(u.id as int).properties,
            ..tm.node(u.id as int)
        }),
        forall|key: Seq<char>|
            #[trigger] lookup_v(props_view(t2.node(u.id as int).properties@), key) == (
            match changed_value(u.changed_properties@, key) {
                Some(v) => v,
                None => lookup_v(props_view(tm.node(u.id as int).properties@), key),
            }),
    ensures
        update_applied(t0, t2, u),
{
    reveal(update_applied);
    let j = u.id as int;
    assert(tm.node(j).properties == tb.node(j).properties);
    assert(tb.node(j).properties == t0.node(j).properties);
    assert(t2.node(j).parent == t0.node(j).parent);
}

/// Applies a patch set to the tree: removals first (one whose identifier is
/// already gone is skipped), then additions (deferring any whose parent is
/// not materialized yet), then updates. On a patch set that fits the tree the
/// application always succeeds; each added snapshot is then realized under
/// its stated parent, each update leaves its node with the stated fields, and
/// every node the patch set does not touch is carried over unchanged.
#[verifier::rlimit(100)]
pub fn apply_patch_set(tree: &mut InstanceTree, patch: PatchSet) -> (r: Result<(), TreeError>)
    requires
        old(tree).wf(),
    ensures
        final(tree).wf(),
        final(tree).root == old(tree).root,
        patch_valid_for(patch, *old(tree)) ==> r is Ok,
        patch.spec_is_empty() ==> *final(tree) == *old(tree),
        r is Ok ==> forall|k: int|
            0 <= k < patch.removed@.len() && (#[trigger] patch.removed@[k] as int) < old(
                tree,
            ).nodes@.len() ==> !final(tree).live(patch.removed@[k] as int),
        r is Ok ==> forall|j: int, k: int|
            #![trigger old(tree).under(j, patch.removed@[k] as int)]
            0 <= j < old(tree).nodes@.len() && 0 <= k < patch.removed@.len() && old(tree).under(
                j,
                patch.removed@[k] as int,
            ) ==> !final(tree).live(j),
        patch_valid_for(patch, *old(tree)) ==> forall|k: int|
            0 <= k < patch.added@.len() ==> #[trigger] added_realized(*final(tree), patch, k, old(tree).nodes@.len() as int),
        (patch_valid_for(patch, *old(tree)) && updated_ids_unique(patch)) ==> forall|k: int|
            0 <= k < patch.updated@.len() ==> update_applied(
                *old(tree),
                *final(tree),
                #[trigger] patch.updated@[k],
            ),
        patch_valid_for(patch, *old(tree)) ==> forall|j: int|
            #[trigger] old(tree).live(j) && !removed_covers(patch, *old(tree), j) ==> {
                &&& final(tree).live(j)
                &&& final(tree).node(j).parent == old(tree).node(j).parent
                &&& (not_updated(patch, j) ==> final(tree).node(j) == (Instance {
                    children: final(tree).node(j).children,
                    ..old(tree).node(j)
                }))
                &&& ((not_add_parent(patch, j) && no_removed_child(patch, *old(tree), j))
                    ==> final(tree).node(j).children == old(tree).node(j).children)
            },
{
    let ghost t0 = *tree;
    let ghost t0len = t0.nodes@.len() as int;
    let ghost valid = patch_valid_for(patch, t0);
    let PatchSet { removed, added, updated } = patch;
    // removals first; an identifier a prior removal already took is skipped
    let rn = removed.len();
    let mut i: usize = 0;
    while i < rn
        invariant
            t0 == *old(tree),
            t0len == t0.nodes@.len(),
            t0.wf(),
            tree.wf(),
            tree.root == t0.root,
            tree.nodes@.len() == t0.nodes@.len(),
            rn == removed@.len(),
            removed@ == patch.removed@,
            0 <= i <= rn,
            valid == patch_valid_for(patch, t0),
            patch.spec_is_empty() ==> *tree == t0,
            forall|j: int| #[trigger] tree.live(j) ==> t0.live(j) && tree.node(j).parent
                == t0.node(j).parent,
            forall|j: int| #[trigger] tree.live(j) ==> tree.node(j) == (Instance {
                children: tree.node(j).children,
                ..t0.node(j)
            }),
            forall|j: int|
                #[trigger] tree.live(j) && no_removed_child(patch, t0, j) ==> tree.node(
                    j,
                ).children == t0.node(j).children,
            forall|k: int|
                0 <= k < i && (#[trigger] removed@[k] as int) < t0.nodes@.len() ==> !tree.live(
                    removed@[k] as int,
                ),
            forall|j: int, k: int|
                #![trigger t0.under(j, removed@[k] as int)]
                0 <= j < t0len && 0 <= k < i && t0.under(j, removed@[k] as int) ==> !tree.live(j),
            forall|j: int|
                0 <= j < t0len && t0.live(j) && !(#[trigger] tree.live(j)) ==> covered_before(
                    patch,
                    t0,
                    j,
                    i as int,
                ),
            forall|x: int|
                #[trigger] t0.live(x) && !removed_covers(patch, t0, x) ==> tree.live(x),
        decreases rn - i,
    {
        let rid = removed[i];
        let keep = tree.get(rid).is_some();
        if keep {
            if rid == tree.get_root_id() {
                return Err(TreeError::RemoveRoot { id: rid });
            }
            let ghost tb = *tree;
            let res = tree.remove(rid);
            proof {
                assert(res is Ok);
                let p = tb.node(rid as int).parent->0 as int;
                assert forall|j: int| #[trigger] tree.live(j) implies t0.live(j) && tree.node(
                    j,
                ).parent == t0.node(j).parent && tree.node(j) == (Instance {
                    children: tree.node(j).children,
                    ..t0.node(j)
                }) by {
                    assert(tb.live(j) && !tb.under(j, rid as int));
                    if j != p {
                        assert(tree.node(j) == tb.node(j));
                    }
                }
                assert forall|j: int|
                    #[trigger] tree.live(j) && no_removed_child(patch, t0, j) implies tree.node(
                    j,
                ).children == t0.node(j).children by {
                    if j == p {
                        assert(t0.live(removed@[i as int] as int));
                        assert(t0.node(removed@[i as int] as int).parent == Some(p as usize));
                        assert(!no_removed_child(patch, t0, j));
                    } else {
                        assert(tree.node(j) == tb.node(j));
                    }
                }
                assert forall|x: int|
                    #[trigger] t0.live(x) && !removed_covers(patch, t0, x) implies tree.live(
                    x,
                ) by {
                    assert(tb.live(x));
                    if tb.under(x, rid as int) {
                        lemma_under_agree(t0, tb, x, rid as int);
                        assert(t0.under(x, removed@[i as int] as int));
                        assert(removed_covers(patch, t0, x));
                    }
                }
                assert forall|k: int|
                    0 <= k < i + 1 && (#[trigger] removed@[k] as int) < t0.nodes@.len() implies !tree.live(
                    removed@[k] as int,
                ) by {
                    if k < i {
                        assert(!tb.live(removed@[k] as int));
                    } else {
                        assert(tb.under(rid as int, rid as int));
                    }
                }
                assert forall|j: int, k: int|
                    #![trigger t0.under(j, removed@[k] as int)]
                    0 <= j < t0len && 0 <= k < i + 1 && t0.under(
                        j,
                        removed@[k] as int,
                    ) implies !tree.live(j) by {
                    if tree.live(j) {
                        assert(tb.live(j));
                        if k < i {
                            assert(!tb.live(j));
                        } else {
                            lemma_under_agree(t0, tb, j, rid as int);
                            assert(tb.under(j, rid as int));
                            assert(!tree.live(j));
                        }
                    }
                }
                assert forall|j: int|
                    0 <= j < t0len && t0.live(j) && !(#[trigger] tree.live(j)) implies covered_before(
                    patch,
                    t0,
                    j,
                    i as int + 1,
                ) by {
                    if tb.live(j) {
                        assert(tb.under(j, rid as int));
                        lemma_under_agree(t0, tb, j, rid as int);
                        assert(t0.under(j, removed@[i as int] as int));
                    } else {
                        assert(covered_before(patch, t0, j, i as int));
                        let k = choose|k: int|
                            0 <= k < i && t0.under(j, #[trigger] patch.removed@[k] as int);
                        assert(t0.under(j, patch.removed@[k] as int));
                    }
                }
            }
        } else {
            proof {
                assert(!tree.live(removed@[i as int] as int));
                assert forall|j: int, k: int|
                    #![trigger t0.under(j, removed@[k] as int)]
                    0 <= j < t0len && 0 <= k < i + 1 && t0.under(
                        j,
                        removed@[k] as int,
                    ) implies !tree.live(j) by {
                    if k == i && tree.live(j) {
                        let rid = removed@[i as int];
                        assert(t0.live(j));
                        if j == rid as int {
                            assert(!tree.live(j));
                        } else {
                            lemma_under_live(t0, j, rid as int);
                            assert(t0.live(rid as int));
                            assert(!tree.live(rid as int));
                            assert(covered_before(patch, t0, rid as int, i as int));
                            let kp = choose|kp: int|
                                0 <= kp < i && t0.under(
                                    rid as int,
                                    #[trigger] patch.removed@[kp] as int,
                                );
                            lemma_under_trans(
                                t0,
                                j,
                                rid as int,
                                patch.removed@[kp] as int,
                            );
                            assert(t0.under(j, removed@[kp] as int));
                            assert(!tree.live(j));
                        }
                    }
                }
                assert forall|j: int|
                    0 <= j < t0len && t0.live(j) && !(#[trigger] tree.live(j)) implies covered_before(
                    patch,
                    t0,
                    j,
                    i as int + 1,
                ) by {
                    assert(covered_before(patch, t0, j, i as int));
                    let k = choose|k: int|
                        0 <= k < i && t0.under(j, #[trigger] patch.removed@[k] as int);
                    assert(t0.under(j, patch.removed@[k] as int));
                }
            }
        }
        i = i + 1;
    }
    let ghost t_removed = *tree;
    proof {
        assert(forall|j: int, k: int|
            #![trigger t0.under(j, patch.removed@[k] as int)]
            0 <= j < t0len && 0 <= k < patch.removed@.len() && t0.under(
                j,
                patch.removed@[k] as int,
            ) ==> !t_removed.live(j));
        assert(forall|k: int|
            0 <= k < patch.removed@.len() && (#[trigger] patch.removed@[k] as int) < t0len
                ==> !t_removed.live(patch.removed@[k] as int));
        assert(forall|x: int|
            #[trigger] t0.live(x) && !removed_covers(patch, t0, x) ==> t_removed.live(x));
    }
    // additions, deferring entries whose parent is not there yet
    let mut pending = added;
    let ghost mut done: int = 0;
    proof {
        assert(pending@ == patch.added@);
        assert(pending@ =~= patch.added@.skip(0));
        assert forall|k: int| valid && 0 <= k < pending@.len() implies tree.live(
            (#[trigger] pending@[k]).parent as int,
        ) by {
            assert(t0.live(patch.added@[k].parent as int));
            assert(!removed_covers(patch, t0, patch.added@[k].parent as int));
        }
    }
    while pending.len() > 0
        invariant
            t0 == *old(tree),
            t0len == t0.nodes@.len(),
            t0.wf(),
            tree.wf(),
            tree.root == t0.root,
            t0len <= tree.nodes@.len(),
            valid == patch_valid_for(patch, t0),
            patch.spec_is_empty() ==> *tree == t0 && pending@.len() == 0,
            forall|k: int|
                0 <= k < pending@.len() ==> exists|x: int|
                    0 <= x < patch.added@.len() && (#[trigger] pending@[k]) == patch.added@[x],
            forall|j: int| 0 <= j < t0len && #[trigger] tree.live(j) ==> t0.live(j) && tree.node(
                j,
            ).parent == t0.node(j).parent,
            forall|j: int| 0 <= j < t0len && #[trigger] tree.live(j) ==> tree.node(j) == (Instance {
                children: tree.node(j).children,
                ..t0.node(j)
            }),
            forall|j: int|
                0 <= j < t0len && #[trigger] tree.live(j) && no_removed_child(patch, t0, j)
                    && not_add_parent(patch, j) ==> tree.node(j).children == t0.node(j).children,
            forall|k: int|
                0 <= k < patch.removed@.len() && (#[trigger] patch.removed@[k] as int) < t0len
                    ==> !tree.live(patch.removed@[k] as int),
            forall|j: int| 0 <= j < t0len ==> (#[trigger] tree.live(j) <==> t_removed.live(j)),
            forall|j: int, k: int|
                #![trigger t0.under(j, patch.removed@[k] as int)]
                0 <= j < t0len && 0 <= k < patch.removed@.len() && t0.under(
                    j,
                    patch.removed@[k] as int,
                ) ==> !tree.live(j),
            forall|x: int|
                #[trigger] t0.live(x) && !removed_covers(patch, t0, x) ==> tree.live(x),
            valid ==> 0 <= done <= patch.added@.len() && pending@ == patch.added@.skip(done),
            valid ==> forall|k: int|
                0 <= k < done ==> #[trigger] added_realized(*tree, patch, k, t0len),
            valid ==> forall|k: int|
                0 <= k < pending@.len() ==> tree.live((#[trigger] pending@[k]).parent as int),
            valid ==> forall|k: int|
                0 <= k < patch.updated@.len() ==> tree.live(
                    (#[trigger] patch.updated@[k]).id as int,
                ),
        decreases pending@.len(),
    {
        let mut deferred: Vec<PatchAdd> = Vec::new();
        let ghost round = pending@;
        let mut progress = false;
        while pending.len() > 0
            invariant
                t0 == *old(tree),
                t0len == t0.nodes@.len(),
                t0.wf(),
                tree.wf(),
                tree.root == t0.root,
                t0len <= tree.nodes@.len(),
                valid == patch_valid_for(patch, t0),
                patch.spec_is_empty() ==> *tree == t0 && pending@.len() == 0
                    && deferred@.len() == 0,
                forall|k: int|
                    0 <= k < pending@.len() ==> exists|x: int|
                        0 <= x < patch.added@.len() && (#[trigger] pending@[k]) == patch.added@[x],
                forall|k: int|
                    0 <= k < deferred@.len() ==> exists|x: int|
                        0 <= x < patch.added@.len() && (#[trigger] deferred@[k])
                            == patch.added@[x],
                forall|j: int| 0 <= j < t0len && #[trigger] tree.live(j) ==> t0.live(j)
                    && tree.node(j).parent == t0.node(j).parent,
                forall|j: int| 0 <= j < t0len && #[trigger] tree.live(j) ==> tree.node(j)
                    == (Instance { children: tree.node(j).children, ..t0.node(j) }),
                forall|j: int|
                    0 <= j < t0len && #[trigger] tree.live(j) && no_removed_child(patch, t0, j)
                        && not_add_parent(patch, j) ==> tree.node(j).children == t0.node(
                        j,
                    ).children,
                forall|j: int| 0 <= j < t0len ==> (#[trigger] tree.live(j) <==> t_removed.live(j)),
                valid ==> 0 <= done <= patch.added@.len() && pending@ == patch.added@.skip(done),
                valid ==> forall|k: int|
                    0 <= k < done ==> #[trigger] added_realized(*tree, patch, k, t0len),
                valid ==> forall|k: int|
                    0 <= k < pending@.len() ==> tree.live((#[trigger] pending@[k]).parent as int),
                valid ==> forall|k: int|
                    0 <= k < patch.updated@.len() ==> tree.live(
                        (#[trigger] patch.updated@[k]).id as int,
                    ),
                valid ==> deferred@.len() == 0,
                deferred@.len() + pending@.len() <= round.len(),
                !progress ==> deferred@.len() + pending@.len() == round.len(),
                progress ==> deferred@.len() + pending@.len() < round.len(),
            decreases pending@.len(),
        {
            let ghost pend0 = pending@;
            let a = pending.remove(0);
            proof {
                if valid {
                    assert(pend0[0] == patch.added@[done]);
                    assert(tree.live(pend0[0].parent as int));
                }
                assert(exists|x: int|
                    0 <= x < patch.added@.len() && pend0[0] == patch.added@[x]);
            }
            let ghost tb = *tree;
            if tree.get(a.parent).is_some() {
                let ghost asnap = a.snapshot;
                let ghost aparent = a.parent;
                let res = tree.insert(a.parent, a.snapshot);
                progress = true;
                proof {
                    assert(res is Ok);
                    let lenb = tb.nodes@.len() as int;
                    let lena = tree.nodes@.len() as int;
                    let nid0 = res->Ok_0 as int;
                    assert forall|j: int| #[trigger] tb.live(j) implies tree.live(j) by {
                        if j != aparent {
                        }
                    }
                    assert forall|j: int|
                        0 <= j < t0len && !tb.live(j) implies !tree.live(j) by {}
                    assert forall|j: int|
                        0 <= j < t0len implies (#[trigger] tree.live(j) <==> t_removed.live(
                        j,
                    )) by {
                        if tb.live(j) {
                            assert(tree.live(j));
                        } else {
                            assert(!tree.live(j));
                        }
                    }
                    assert forall|j: int|
                        0 <= j < t0len && #[trigger] tree.live(j) && no_removed_child(
                            patch,
                            t0,
                            j,
                        ) && not_add_parent(patch, j) implies tree.node(j).children == t0.node(
                        j,
                    ).children by {
                        if j == aparent {
                            let x = choose|x: int|
                                0 <= x < patch.added@.len() && pend0[0] == patch.added@[x];
                            assert(patch.added@[x].parent == aparent);
                            assert(!not_add_parent(patch, j));
                        } else {
                            assert(tree.node(j) == tb.node(j));
                        }
                    }
                    if valid {
                        assert(patch.added@[done] == pend0[0]);
                        assert(snapshot_matches_in(*tree, nid0, asnap, lenb, lena));
                        assert forall|j: int|
                            t0len <= j < lenb && #[trigger] tb.live(j) implies tree.live(j)
                            && tree.node(j) == tb.node(j) by {
                            assert(j != aparent);
                        }
                        lemma_adds_extended(tb, *tree, patch, t0len, done, nid0);
                        done = done + 1;
                        assert(pending@ =~= patch.added@.skip(done));
                    }
                }
            } else {
                proof {
                    if valid {
                        assert(false);
                    }
                }
                deferred.push(a);
            }
        }
        if deferred.len() > 0 {
            if !progress {
                let worst = match deferred.pop() {
                    Some(a) => a.parent,
                    None => 0,
                };
                return Err(TreeError::UnresolvedParent { parent: worst });
            }
            proof {
                assert(deferred@.len() < round.len());
            }
        }
        pending = deferred;
    }
    proof {
        if valid {
            assert(patch.added@.skip(done).len() == 0);
            assert(done == patch.added@.len());
        }
    }
    // updates last, on the now-stable identifiers
    let ghost uniq = updated_ids_unique(patch);
    let mut rest = updated;
    let ghost mut udone: int = 0;
    proof {
        assert(rest@ =~= patch.updated@.skip(0));
    }
    while rest.len() > 0
        invariant
            t0 == *old(tree),
            t0len == t0.nodes@.len(),
            t0.wf(),
            tree.wf(),
            tree.root == t0.root,
            t0len <= tree.nodes@.len(),
            valid == patch_valid_for(patch, t0),
            uniq == updated_ids_unique(patch),
            patch.spec_is_empty() ==> *tree == t0 && rest@.len() == 0,
            0 <= udone <= patch.updated@.len(),
            rest@ == patch.updated@.skip(udone),
            forall|j: int| 0 <= j < t0len && #[trigger] tree.live(j) ==> t0.live(j) && tree.node(
                j,
            ).parent == t0.node(j).parent,
            forall|j: int|
                0 <= j < t0len && #[trigger] tree.live(j) && (forall|k: int|
                    0 <= k < udone ==> (#[trigger] patch.updated@[k]).id != j) ==> tree.node(j)
                    == (Instance { children: tree.node(j).children, ..t0.node(j) }),
            forall|j: int|
                0 <= j < t0len && #[trigger] tree.live(j) && no_removed_child(patch, t0, j)
                    && not_add_parent(patch, j) ==> tree.node(j).children == t0.node(j).children,
            forall|j: int| 0 <= j < t0len ==> (#[trigger] tree.live(j) <==> t_removed.live(j)),
            valid ==> forall|k: int|
            0 <= k < patch.added@.len() ==> #[trigger] added_realized(*tree, patch, k, t0len),
            (valid && uniq) ==> forall|k: int|
                0 <= k < udone ==> update_applied(t0, *tree, #[trigger] patch.updated@[k]),
            valid ==> forall|k: int|
                0 <= k < rest@.len() ==> tree.live((#[trigger] rest@[k]).id as int),
        decreases rest@.len(),
    {
        let ghost rest0 = rest@;
        let u = rest.remove(0);
        let ghost ug = u;
        proof {
            assert(rest0[0] == patch.updated@[udone]);
            assert(rest@ =~= patch.updated@.skip(udone + 1));
        }
        let PatchUpdate { id, changed_name, changed_class, changed_properties } = u;
        if !tree.get(id).is_some() {
            proof {
                if valid {
                    assert(tree.live(rest0[0].id as int));
                    assert(false);
                }
            }
            return Err(TreeError::NotFound { id });
        }
        let ghost tb = *tree;
        let res_nc = tree.update_node(id, changed_name, changed_class);
        let ghost tm = *tree;
        proof {
            assert(res_nc is Ok);
        }
        let res_p = tree.set_properties(id, changed_properties);
        proof {
            assert(res_p is Ok);
            assert(tree.nodes@.len() == tb.nodes@.len());
            assert forall|j: int| #[trigger] tb.live(j) implies tree.live(j) && (j != id
                ==> tree.node(j) == tb.node(j)) by {}
            if valid {
                assert(t0.live(id as int));
                assert((id as int) < t0len);
                assert forall|j: int|
                    t0len <= j < tb.nodes@.len() && #[trigger] tb.live(j) implies tree.live(j)
                    && tree.node(j) == tb.node(j) by {
                    assert(j != id);
                }
                lemma_adds_preserved(tb, *tree, patch, t0len);
                if uniq {
                    assert forall|k2: int|
                        0 <= k2 < udone implies (#[trigger] patch.updated@[k2]).id != ug.id by {
                        assert(patch.updated@[k2].id != patch.updated@[udone].id);
                    }
                    lemma_updates_preserved(t0, tb, *tree, patch, udone, id);
                    assert(tb.node(id as int) == (Instance {
                        children: tb.node(id as int).children,
                        ..t0.node(id as int)
                    }));
                    lemma_update_applied_step(t0, tb, tm, *tree, ug);
                    assert(patch.updated@[udone] == ug);
                }
            }
            assert forall|j: int|
                0 <= j < t0len && #[trigger] tree.live(j) && (forall|k: int|
                    0 <= k < udone + 1 ==> (#[trigger] patch.updated@[k]).id != j) implies tree.node(
                j,
            ) == (Instance { children: tree.node(j).children, ..t0.node(j) }) by {
                assert(patch.updated@[udone].id != j);
                assert(j != id);
                assert(tree.node(j) == tb.node(j));
            }
            assert forall|j: int|
                0 <= j < t0len && #[trigger] tree.live(j) && no_removed_child(patch, t0, j)
                    && not_add_parent(patch, j) implies tree.node(j).children == t0.node(
                j,
            ).children by {
                if j != id {
                    assert(tree.node(j) == tb.node(j));
                } else {
                    assert(tree.node(j).children == tm.node(j).children);
                    assert(tm.node(j).children == tb.node(j).children);
                }
            }
            udone = udone + 1;
        }
    }
    proof {
        assert(rest@.len() == 0);
        assert(udone == patch.updated@.len());
        assert forall|k: int|
            0 <= k < patch.removed@.len() && (#[trigger] patch.removed@[k] as int)
                < t0len implies !tree.live(patch.removed@[k] as int) by {
            assert(!t_removed.live(patch.removed@[k] as int));
        }
        assert forall|x: int|
            #[trigger] t0.live(x) && !removed_covers(patch, t0, x) implies tree.live(x) by {
            assert(t_removed.live(x));
            assert(x < t0len);
        }
        assert forall|j: int, k: int|
            #![trigger t0.under(j, patch.removed@[k] as int)]
            0 <= j < t0len && 0 <= k < patch.removed@.len() && t0.under(
                j,
                patch.removed@[k] as int,
            ) implies !tree.live(j) by {
            assert(!t_removed.live(j));
        }
    }
    Ok(())
}

} // verus!
