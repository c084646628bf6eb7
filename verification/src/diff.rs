use vstd::prelude::*;
use crate::prop::{
    props_view, Property, PropVal, PropValue, lookup_v, lemma_lookup_unique, get_prop,
    prop_value_eq,
};
use crate::snapshot::{InstanceSnapshot, snapshot_matches_at, snapshot_wf};
use crate::patch::{patch_valid_for, removed_covers, updated_ids_unique, PatchAdd, PatchSet, PatchUpdate};
use crate::tree::{InstanceTree, lemma_under_trans, lemma_under_bound, lemma_branches_disjoint, lemma_not_under_descendant};

verus! {

/// The live node and the snapshot agree on the two keys the sibling matching
/// goes by: name and class.
pub open spec fn sibling_eq(t: InstanceTree, c: usize, s: InstanceSnapshot) -> bool {
    &&& t.node(c as int).name@ == s.name@
    &&& t.node(c as int).class@ == s.class@
}

/// The node lies in the subtree of a child the matching has already
/// consumed.
pub open spec fn under_consumed(
    t: InstanceTree,
    cs: Seq<usize>,
    consumed: Seq<bool>,
    v: int,
) -> bool {
    exists|m: int| 0 <= m < cs.len() && #[trigger] consumed[m] && t.under(v, cs[m] as int)
}

/// The property changes a matched pair yields: for each snapshot property,
/// in order, the entry whose key looks up to a different (or absent) value in
/// the live list.
pub open spec fn diff_props_spec(
    sp: Seq<Property>,
    lv: Seq<(Seq<char>, PropVal)>,
) -> Seq<(String, Option<PropValue>)>
    decreases sp.len(),
{
    if sp.len() <= 0 {
        Seq::empty()
    } else {
        let head: Seq<(String, Option<PropValue>)> = if lookup_v(lv, sp[0].key@) == Some(
            sp[0].value@,
        ) {
            Seq::empty()
        } else {
            seq![(sp[0].key, Some(sp[0].value))]
        };
        head + diff_props_spec(sp.skip(1), lv)
    }
}

/// Appending one snapshot property appends its contribution to the diff.
proof fn lemma_diff_props_snoc(sp: Seq<Property>, p: Property, lv: Seq<(Seq<char>, PropVal)>)
    ensures
        diff_props_spec(sp.push(p), lv) == diff_props_spec(sp, lv) + (if lookup_v(lv, p.key@)
            == Some(p.value@) {
            Seq::<(String, Option<PropValue>)>::empty()
        } else {
            seq![(p.key, Some(p.value))]
        }),
    decreases sp.len(),
{
    let tail: Seq<(String, Option<PropValue>)> = if lookup_v(lv, p.key@) == Some(p.value@) {
        Seq::empty()
    } else {
        seq![(p.key, Some(p.value))]
    };
    if sp.len() == 0 {
        assert(sp.push(p) =~= seq![p]);
        assert(seq![p][0] == p);
        assert(seq![p].skip(1) =~= Seq::<Property>::empty());
        assert(diff_props_spec(seq![p].skip(1), lv) =~= Seq::<(String, Option<PropValue>)>::empty());
        assert(diff_props_spec(sp, lv) =~= Seq::<(String, Option<PropValue>)>::empty());
        assert(diff_props_spec(sp.push(p), lv) =~= diff_props_spec(sp, lv) + tail);
    } else {
        assert(sp.push(p)[0] == sp[0]);
        assert(sp.push(p).skip(1) =~= sp.skip(1).push(p));
        lemma_diff_props_snoc(sp.skip(1), p, lv);
        let head: Seq<(String, Option<PropValue>)> = if lookup_v(lv, sp[0].key@) == Some(
            sp[0].value@,
        ) {
            Seq::empty()
        } else {
            seq![(sp[0].key, Some(sp[0].value))]
        };
        assert(head + (diff_props_spec(sp.skip(1), lv) + tail) =~= (head + diff_props_spec(
            sp.skip(1),
            lv,
        )) + tail);
        assert(diff_props_spec(sp.push(p), lv) =~= diff_props_spec(sp, lv) + tail);
    }
}

/// Sets one slot of a mark list.
fn set_mark(v: &mut Vec<bool>, i: usize, b: bool)
    requires
        i < old(v)@.len(),
    ensures
        final(v)@ == old(v)@.update(i as int, b),
{
    v.remove(i);
    v.insert(i, b);
    proof {
        assert(v@ =~= old(v)@.update(i as int, b));
    }
}

/// The matched pair has nothing to update: name and class agree and every
/// snapshot property already carries its value on the live node.
pub open spec fn pair_clean(t: InstanceTree, id: usize, s: InstanceSnapshot) -> bool {
    &&& t.node(id as int).name@ == s.name@
    &&& t.node(id as int).class@ == s.class@
    &&& diff_props_spec(s.properties@, props_view(t.node(id as int).properties@)).len() == 0
}

/// The update entry states exactly what the matched pair differs on: the new
/// name and class where they differ, nothing where they agree, and precisely
/// the properties whose snapshot value is absent or different on the live
/// node.
pub open spec fn update_entry_exact(
    t: InstanceTree,
    id: usize,
    s: InstanceSnapshot,
    u: PatchUpdate,
) -> bool {
    &&& u.id == id
    &&& u.changed_name == (if s.name@ != t.node(id as int).name@ {
        Some(s.name)
    } else {
        None::<String>
    })
    &&& u.changed_class == (if s.class@ != t.node(id as int).class@ {
        Some(s.class)
    } else {
        None::<String>
    })
    &&& u.changed_properties@ == diff_props_spec(
        s.properties@,
        props_view(t.node(id as int).properties@),
    )
}

/// Diffs the snapshot against the live subtree rooted at `id` and returns the
/// patch set that would make the subtree realize the snapshot: for each
/// matched pair the differing properties, snapshot children with no live
/// sibling of the same name and class as additions, and live children with no
/// such snapshot sibling as removals. A snapshot that the subtree already
/// realizes yields an empty patch set.
pub fn compute_patch_set(snapshot: InstanceSnapshot, tree: &InstanceTree, id: usize) -> (r:
    PatchSet)
    requires
        tree.wf(),
        tree.live(id as int),
    ensures
        (snapshot_matches_at(*tree, id as int, snapshot) && snapshot_wf(snapshot))
            ==> r.spec_is_empty(),
        forall|k: int|
            0 <= k < r.removed@.len() ==> {
                let rid = #[trigger] r.removed@[k];
                &&& tree.live(rid as int)
                &&& tree.under(rid as int, id as int)
                &&& rid != id
                &&& rid != tree.root
            },
        forall|k: int|
            0 <= k < r.added@.len() ==> tree.live((#[trigger] r.added@[k]).parent as int)
                && tree.under(r.added@[k].parent as int, id as int),
        forall|k: int|
            0 <= k < r.updated@.len() ==> tree.live((#[trigger] r.updated@[k]).id as int)
                && tree.under(r.updated@[k].id as int, id as int),
        forall|k: int|
            0 <= k < tree.node(id as int).children@.len() ==> ((forall|k2: int|
                0 <= k2 < snapshot.children@.len() ==> !sibling_eq(
                    *tree,
                    #[trigger] tree.node(id as int).children@[k],
                    #[trigger] snapshot.children@[k2],
                )) ==> r.removed@.contains(tree.node(id as int).children@[k])),
        forall|k2: int| #![trigger snapshot.children@[k2]]
            0 <= k2 < snapshot.children@.len() ==> ((forall|j: int|
                0 <= j < tree.node(id as int).children@.len() ==> !sibling_eq(
                    *tree,
                    #[trigger] tree.node(id as int).children@[j],
                    #[trigger] snapshot.children@[k2],
                )) ==> (exists|x: int|
                0 <= x < r.added@.len() && (#[trigger] r.added@[x]).parent == id
                    && r.added@[x].snapshot == snapshot.children@[k2])),
        patch_valid_for(r, *tree),
        updated_ids_unique(r),
        pair_clean(*tree, id, snapshot) ==> forall|x: int|
            0 <= x < r.updated@.len() ==> (#[trigger] r.updated@[x]).id != id,
        !pair_clean(*tree, id, snapshot) ==> (exists|x: int|
            0 <= x < r.updated@.len() && update_entry_exact(
                *tree,
                id,
                snapshot,
                #[trigger] r.updated@[x],
            )),
{
    let mut out = PatchSet::new();
    diff_pair(tree, id, snapshot, &mut out);
    proof {
        assert forall|k: int| 0 <= k < out.removed@.len() implies (#[trigger] out.removed@[k])
            != tree.root by {
            let rid = out.removed@[k];
            if rid == tree.root {
                assert(tree.under(rid as int, id as int));
                assert(tree.node(tree.root as int).parent is None);
                assert(rid == id);
            }
        }
        assert forall|k: int| 0 <= k < out.added@.len() implies tree.live(
            (#[trigger] out.added@[k]).parent as int,
        ) && !removed_covers(out, *tree, out.added@[k].parent as int) by {
            if removed_covers(out, *tree, out.added@[k].parent as int) {
                let xr = choose|xr: int|
                    0 <= xr < out.removed@.len() && tree.under(
                        out.added@[k].parent as int,
                        #[trigger] out.removed@[xr] as int,
                    );
                assert(!tree.under(out.added@[k].parent as int, out.removed@[xr] as int));
            }
        }
        assert forall|k: int| 0 <= k < out.updated@.len() implies tree.live(
            (#[trigger] out.updated@[k]).id as int,
        ) && !removed_covers(out, *tree, out.updated@[k].id as int) by {
            if removed_covers(out, *tree, out.updated@[k].id as int) {
                let xr = choose|xr: int|
                    0 <= xr < out.removed@.len() && tree.under(
                        out.updated@[k].id as int,
                        #[trigger] out.removed@[xr] as int,
                    );
                assert(!tree.under(out.updated@[k].id as int, out.removed@[xr] as int));
            }
        }
        assert(patch_valid_for(out, *tree));
        assert(updated_ids_unique(out));
    }
    out
}


/// The shape part of one matched-pair recursion's bookkeeping: the entries a
/// child's diff appended lie in the parent pair's subtree, never name the
/// parent itself, and every entry lies under a consumed child.
#[verifier::rlimit(100)]
proof fn lemma_child_block(
    t: InstanceTree,
    id: usize,
    cs: Seq<usize>,
    consumed_pre: Seq<bool>,
    consumed_post: Seq<bool>,
    jj: usize,
    out0: PatchSet,
    out_b: PatchSet,
    out: PatchSet,
)
    requires
        t.wf(),
        t.live(id as int),
        cs == t.node(id as int).children@,
        consumed_pre.len() == cs.len(),
        0 <= (jj as int) < cs.len(),
        !consumed_pre[jj as int],
        consumed_post == consumed_pre.update(jj as int, true),
        out0.removed@.is_prefix_of(out_b.removed@),
        out0.added@.is_prefix_of(out_b.added@),
        out0.updated@.is_prefix_of(out_b.updated@),
        out_b.removed@.is_prefix_of(out.removed@),
        out_b.added@.is_prefix_of(out.added@),
        out_b.updated@.is_prefix_of(out.updated@),
        // the parent level's facts so far
        forall|x: int|
            out0.removed@.len() <= x < out_b.removed@.len() ==> {
                let rid = #[trigger] out_b.removed@[x];
                &&& t.live(rid as int)
                &&& t.under(rid as int, id as int)
                &&& rid != id
            },
        forall|x: int|
            out0.added@.len() <= x < out_b.added@.len() ==> t.live(
                (#[trigger] out_b.added@[x]).parent as int,
            ) && t.under(out_b.added@[x].parent as int, id as int),
        forall|x: int|
            out0.updated@.len() <= x < out_b.updated@.len() ==> t.live(
                (#[trigger] out_b.updated@[x]).id as int,
            ) && t.under(out_b.updated@[x].id as int, id as int) && (
            #[trigger] out_b.updated@[x]).id != id,
        forall|x: int|
            out0.removed@.len() <= x < out_b.removed@.len() ==> under_consumed(t, cs, consumed_pre, (#[trigger] out_b.removed@[x]) as int),
        forall|x: int|
            out0.added@.len() <= x < out_b.added@.len() ==> ((#[trigger] out_b.added@[x]).parent
                == id || under_consumed(t, cs, consumed_pre, out_b.added@[x].parent as int)),
        forall|x: int|
            out0.updated@.len() <= x < out_b.updated@.len() ==> under_consumed(t, cs, consumed_pre, (#[trigger] out_b.updated@[x]).id as int),
        forall|x1: int, x2: int|
            out0.updated@.len() <= x1 < x2 < out_b.updated@.len() ==> (
            #[trigger] out_b.updated@[x1]).id != (#[trigger] out_b.updated@[x2]).id,
        forall|xa: int, xr: int|
            out0.added@.len() <= xa < out_b.added@.len() && out0.removed@.len() <= xr
                < out_b.removed@.len() ==> !t.under(
                (#[trigger] out_b.added@[xa]).parent as int,
                (#[trigger] out_b.removed@[xr]) as int,
            ),
        forall|xu: int, xr: int|
            out0.updated@.len() <= xu < out_b.updated@.len() && out0.removed@.len() <= xr
                < out_b.removed@.len() ==> !t.under(
                (#[trigger] out_b.updated@[xu]).id as int,
                (#[trigger] out_b.removed@[xr]) as int,
            ),
        // the child diff's facts, relative to the recursed child
        forall|x: int|
            out_b.removed@.len() <= x < out.removed@.len() ==> {
                let rid = #[trigger] out.removed@[x];
                &&& t.live(rid as int)
                &&& t.under(rid as int, cs[jj as int] as int)
                &&& rid != cs[jj as int]
            },
        forall|x: int|
            out_b.added@.len() <= x < out.added@.len() ==> t.live(
                (#[trigger] out.added@[x]).parent as int,
            ) && t.under(out.added@[x].parent as int, cs[jj as int] as int),
        forall|x: int|
            out_b.updated@.len() <= x < out.updated@.len() ==> t.live(
                (#[trigger] out.updated@[x]).id as int,
            ) && t.under(out.updated@[x].id as int, cs[jj as int] as int),
        forall|x1: int, x2: int|
            out_b.updated@.len() <= x1 < x2 < out.updated@.len() ==> (
            #[trigger] out.updated@[x1]).id != (#[trigger] out.updated@[x2]).id,
        forall|xa: int, xr: int|
            out_b.added@.len() <= xa < out.added@.len() && out_b.removed@.len() <= xr
                < out.removed@.len() ==> !t.under(
                (#[trigger] out.added@[xa]).parent as int,
                (#[trigger] out.removed@[xr]) as int,
            ),
        forall|xu: int, xr: int|
            out_b.updated@.len() <= xu < out.updated@.len() && out_b.removed@.len() <= xr
                < out.removed@.len() ==> !t.under(
                (#[trigger] out.updated@[xu]).id as int,
                (#[trigger] out.removed@[xr]) as int,
            ),
    ensures
        forall|x: int|
            out0.removed@.len() <= x < out.removed@.len() ==> {
                let rid = #[trigger] out.removed@[x];
                &&& t.live(rid as int)
                &&& t.under(rid as int, id as int)
                &&& rid != id
            },
        forall|x: int|
            out0.added@.len() <= x < out.added@.len() ==> t.live(
                (#[trigger] out.added@[x]).parent as int,
            ) && t.under(out.added@[x].parent as int, id as int),
        forall|x: int|
            out0.updated@.len() <= x < out.updated@.len() ==> t.live(
                (#[trigger] out.updated@[x]).id as int,
            ) && t.under(out.updated@[x].id as int, id as int) && (
            #[trigger] out.updated@[x]).id != id,
        forall|x: int|
            out0.removed@.len() <= x < out.removed@.len() ==> under_consumed(t, cs, consumed_post, (#[trigger] out.removed@[x]) as int),
        forall|x: int|
            out0.added@.len() <= x < out.added@.len() ==> ((#[trigger] out.added@[x]).parent == id
                || under_consumed(t, cs, consumed_post, out.added@[x].parent as int)),
        forall|x: int|
            out0.updated@.len() <= x < out.updated@.len() ==> under_consumed(t, cs, consumed_post, (#[trigger] out.updated@[x]).id as int),
{
    assert(t.node_ok(id as int));
    assert(t.child_ok(id as int, jj as int));
    let cjj = cs[jj as int] as int;
    assert(t.under(id as int, id as int));
    assert(t.under(cjj, id as int));
    // shapes relative to the parent
    assert forall|x: int| out0.removed@.len() <= x < out.removed@.len() implies {
        let rid = #[trigger] out.removed@[x];
        &&& t.live(rid as int)
        &&& t.under(rid as int, id as int)
        &&& rid != id
    } by {
        if x >= out_b.removed@.len() {
            let rid = out.removed@[x];
            lemma_under_trans(t, rid as int, cjj, id as int);
            lemma_under_bound(t, rid as int, cjj);
        } else {
            assert(out.removed@[x] == out_b.removed@[x]);
        }
    }
    assert forall|x: int| out0.added@.len() <= x < out.added@.len() implies t.live(
        (#[trigger] out.added@[x]).parent as int,
    ) && t.under(out.added@[x].parent as int, id as int) by {
        if x >= out_b.added@.len() {
            lemma_under_trans(t, out.added@[x].parent as int, cjj, id as int);
        } else {
            assert(out.added@[x] == out_b.added@[x]);
        }
    }
    assert forall|x: int| out0.updated@.len() <= x < out.updated@.len() implies t.live(
        (#[trigger] out.updated@[x]).id as int,
    ) && t.under(out.updated@[x].id as int, id as int) && (#[trigger] out.updated@[x]).id
        != id by {
        if x >= out_b.updated@.len() {
            lemma_under_trans(t, out.updated@[x].id as int, cjj, id as int);
            lemma_under_bound(t, out.updated@[x].id as int, cjj);
        } else {
            assert(out.updated@[x] == out_b.updated@[x]);
        }
    }
    // origins under consumed children
    assert forall|x: int| out0.removed@.len() <= x < out.removed@.len() implies under_consumed(t, cs, consumed_post, (#[trigger] out.removed@[x]) as int) by {
        if x < out_b.removed@.len() {
            assert(out.removed@[x] == out_b.removed@[x]);
            let m = choose|m: int|
                0 <= m < cs.len() && #[trigger] consumed_pre[m] && t.under(
                    out_b.removed@[x] as int,
                    cs[m] as int,
                );
            assert(consumed_post[m] && t.under(out.removed@[x] as int, cs[m] as int));
        } else {
            assert(consumed_post[jj as int] && t.under(out.removed@[x] as int, cs[jj as int] as int));
        }
    }
    assert forall|x: int| out0.added@.len() <= x < out.added@.len() implies ((
    #[trigger] out.added@[x]).parent == id || under_consumed(t, cs, consumed_post, out.added@[x].parent as int)) by {
        if x < out_b.added@.len() {
            assert(out.added@[x] == out_b.added@[x]);
            if out_b.added@[x].parent != id {
                let m = choose|m: int|
                    0 <= m < cs.len() && #[trigger] consumed_pre[m] && t.under(
                        out_b.added@[x].parent as int,
                        cs[m] as int,
                    );
                assert(consumed_post[m] && t.under(out.added@[x].parent as int, cs[m] as int));
            }
        } else {
            assert(consumed_post[jj as int] && t.under(
                out.added@[x].parent as int,
                cs[jj as int] as int,
            ));
        }
    }
    assert forall|x: int| out0.updated@.len() <= x < out.updated@.len() implies under_consumed(t, cs, consumed_post, (#[trigger] out.updated@[x]).id as int) by {
        if x < out_b.updated@.len() {
            assert(out.updated@[x] == out_b.updated@[x]);
            let m = choose|m: int|
                0 <= m < cs.len() && #[trigger] consumed_pre[m] && t.under(
                    out_b.updated@[x].id as int,
                    cs[m] as int,
                );
            assert(consumed_post[m] && t.under(out.updated@[x].id as int, cs[m] as int));
        } else {
            assert(consumed_post[jj as int] && t.under(
                out.updated@[x].id as int,
                cs[jj as int] as int,
            ));
        }
    }
}

/// The pairwise part of one matched-pair recursion's bookkeeping: update
/// targets stay distinct and additions and updates stay clear of removals.
#[verifier::rlimit(100)]
proof fn lemma_child_block_pairs(
    t: InstanceTree,
    id: usize,
    cs: Seq<usize>,
    consumed_pre: Seq<bool>,
    consumed_post: Seq<bool>,
    jj: usize,
    out0: PatchSet,
    out_b: PatchSet,
    out: PatchSet,
)
    requires
        t.wf(),
        t.live(id as int),
        cs == t.node(id as int).children@,
        consumed_pre.len() == cs.len(),
        0 <= (jj as int) < cs.len(),
        !consumed_pre[jj as int],
        consumed_post == consumed_pre.update(jj as int, true),
        out0.removed@.is_prefix_of(out_b.removed@),
        out0.added@.is_prefix_of(out_b.added@),
        out0.updated@.is_prefix_of(out_b.updated@),
        out_b.removed@.is_prefix_of(out.removed@),
        out_b.added@.is_prefix_of(out.added@),
        out_b.updated@.is_prefix_of(out.updated@),
        // the parent level's facts so far
        forall|x: int|
            out0.removed@.len() <= x < out_b.removed@.len() ==> {
                let rid = #[trigger] out_b.removed@[x];
                &&& t.live(rid as int)
                &&& t.under(rid as int, id as int)
                &&& rid != id
            },
        forall|x: int|
            out0.added@.len() <= x < out_b.added@.len() ==> t.live(
                (#[trigger] out_b.added@[x]).parent as int,
            ) && t.under(out_b.added@[x].parent as int, id as int),
        forall|x: int|
            out0.updated@.len() <= x < out_b.updated@.len() ==> t.live(
                (#[trigger] out_b.updated@[x]).id as int,
            ) && t.under(out_b.updated@[x].id as int, id as int) && (
            #[trigger] out_b.updated@[x]).id != id,
        forall|x: int|
            out0.removed@.len() <= x < out_b.removed@.len() ==> under_consumed(t, cs, consumed_pre, (#[trigger] out_b.removed@[x]) as int),
        forall|x: int|
            out0.added@.len() <= x < out_b.added@.len() ==> ((#[trigger] out_b.added@[x]).parent
                == id || under_consumed(t, cs, consumed_pre, out_b.added@[x].parent as int)),
        forall|x: int|
            out0.updated@.len() <= x < out_b.updated@.len() ==> under_consumed(t, cs, consumed_pre, (#[trigger] out_b.updated@[x]).id as int),
        forall|x1: int, x2: int|
            out0.updated@.len() <= x1 < x2 < out_b.updated@.len() ==> (
            #[trigger] out_b.updated@[x1]).id != (#[trigger] out_b.updated@[x2]).id,
        forall|xa: int, xr: int|
            out0.added@.len() <= xa < out_b.added@.len() && out0.removed@.len() <= xr
                < out_b.removed@.len() ==> !t.under(
                (#[trigger] out_b.added@[xa]).parent as int,
                (#[trigger] out_b.removed@[xr]) as int,
            ),
        forall|xu: int, xr: int|
            out0.updated@.len() <= xu < out_b.updated@.len() && out0.removed@.len() <= xr
                < out_b.removed@.len() ==> !t.under(
                (#[trigger] out_b.updated@[xu]).id as int,
                (#[trigger] out_b.removed@[xr]) as int,
            ),
        // the child diff's facts, relative to the recursed child
        forall|x: int|
            out_b.removed@.len() <= x < out.removed@.len() ==> {
                let rid = #[trigger] out.removed@[x];
                &&& t.live(rid as int)
                &&& t.under(rid as int, cs[jj as int] as int)
                &&& rid != cs[jj as int]
            },
        forall|x: int|
            out_b.added@.len() <= x < out.added@.len() ==> t.live(
                (#[trigger] out.added@[x]).parent as int,
            ) && t.under(out.added@[x].parent as int, cs[jj as int] as int),
        forall|x: int|
            out_b.updated@.len() <= x < out.updated@.len() ==> t.live(
                (#[trigger] out.updated@[x]).id as int,
            ) && t.under(out.updated@[x].id as int, cs[jj as int] as int),
        forall|x1: int, x2: int|
            out_b.updated@.len() <= x1 < x2 < out.updated@.len() ==> (
            #[trigger] out.updated@[x1]).id != (#[trigger] out.updated@[x2]).id,
        forall|xa: int, xr: int|
            out_b.added@.len() <= xa < out.added@.len() && out_b.removed@.len() <= xr
                < out.removed@.len() ==> !t.under(
                (#[trigger] out.added@[xa]).parent as int,
                (#[trigger] out.removed@[xr]) as int,
            ),
        forall|xu: int, xr: int|
            out_b.updated@.len() <= xu < out.updated@.len() && out_b.removed@.len() <= xr
                < out.removed@.len() ==> !t.under(
                (#[trigger] out.updated@[xu]).id as int,
                (#[trigger] out.removed@[xr]) as int,
            ),
    ensures
        forall|x1: int, x2: int|
            out0.updated@.len() <= x1 < x2 < out.updated@.len() ==> (
            #[trigger] out.updated@[x1]).id != (#[trigger] out.updated@[x2]).id,
        forall|xa: int, xr: int|
            out0.added@.len() <= xa < out.added@.len() && out0.removed@.len() <= xr
                < out.removed@.len() ==> !t.under(
                (#[trigger] out.added@[xa]).parent as int,
                (#[trigger] out.removed@[xr]) as int,
            ),
        forall|xu: int, xr: int|
            out0.updated@.len() <= xu < out.updated@.len() && out0.removed@.len() <= xr
                < out.removed@.len() ==> !t.under(
                (#[trigger] out.updated@[xu]).id as int,
                (#[trigger] out.removed@[xr]) as int,
            ),
{
    assert(t.node_ok(id as int));
    assert(t.child_ok(id as int, jj as int));
    let cjj = cs[jj as int] as int;
    // distinct update targets
    assert forall|x1: int, x2: int|
        out0.updated@.len() <= x1 < x2 < out.updated@.len() implies (
    #[trigger] out.updated@[x1]).id != (#[trigger] out.updated@[x2]).id by {
        if x2 < out_b.updated@.len() {
            assert(out.updated@[x1] == out_b.updated@[x1]);
            assert(out.updated@[x2] == out_b.updated@[x2]);
        } else if x1 >= out_b.updated@.len() {
        } else {
            assert(out.updated@[x1] == out_b.updated@[x1]);
            let m = choose|m: int|
                0 <= m < cs.len() && #[trigger] consumed_pre[m] && t.under(
                    out_b.updated@[x1].id as int,
                    cs[m] as int,
                );
            assert(m != jj as int);
            assert(cs[m] != cs[jj as int]);
            assert(t.child_ok(id as int, m));
            if out.updated@[x1].id == out.updated@[x2].id {
                lemma_branches_disjoint(
                    t,
                    id,
                    cs[m] as int,
                    cjj,
                    out.updated@[x1].id as int,
                    out.updated@[x2].id as int,
                );
                assert(t.under(out.updated@[x1].id as int, out.updated@[x2].id as int));
                assert(false);
            }
        }
    }
    // additions and updates stay clear of removals
    assert forall|xa: int, xr: int|
        out0.added@.len() <= xa < out.added@.len() && out0.removed@.len() <= xr
            < out.removed@.len() implies !t.under(
        (#[trigger] out.added@[xa]).parent as int,
        (#[trigger] out.removed@[xr]) as int,
    ) by {
        let pa = out.added@[xa].parent;
        let rr = out.removed@[xr];
        if xa >= out_b.added@.len() && xr >= out_b.removed@.len() {
        } else if xa >= out_b.added@.len() {
            assert(out.removed@[xr] == out_b.removed@[xr]);
            let m = choose|m: int|
                0 <= m < cs.len() && #[trigger] consumed_pre[m] && t.under(
                    rr as int,
                    cs[m] as int,
                );
            assert(m != jj as int);
            assert(cs[m] != cs[jj as int]);
            assert(t.child_ok(id as int, m));
            lemma_branches_disjoint(t, id, cjj, cs[m] as int, pa as int, rr as int);
        } else if xr >= out_b.removed@.len() {
            assert(out.added@[xa] == out_b.added@[xa]);
            if pa == id {
                lemma_under_trans(t, rr as int, cjj, id as int);
                lemma_under_bound(t, rr as int, cjj);
                lemma_not_under_descendant(t, id as int, rr as int);
            } else {
                let m = choose|m: int|
                    0 <= m < cs.len() && #[trigger] consumed_pre[m] && t.under(
                        pa as int,
                        cs[m] as int,
                    );
                assert(m != jj as int);
                assert(cs[m] != cs[jj as int]);
                assert(t.child_ok(id as int, m));
                lemma_branches_disjoint(t, id, cs[m] as int, cjj, pa as int, rr as int);
            }
        } else {
            assert(out.added@[xa] == out_b.added@[xa]);
            assert(out.removed@[xr] == out_b.removed@[xr]);
        }
    }
    assert forall|xu: int, xr: int|
        out0.updated@.len() <= xu < out.updated@.len() && out0.removed@.len() <= xr
            < out.removed@.len() implies !t.under(
        (#[trigger] out.updated@[xu]).id as int,
        (#[trigger] out.removed@[xr]) as int,
    ) by {
        let pu = out.updated@[xu].id;
        let rr = out.removed@[xr];
        if xu >= out_b.updated@.len() && xr >= out_b.removed@.len() {
        } else if xu >= out_b.updated@.len() {
            assert(out.removed@[xr] == out_b.removed@[xr]);
            let m = choose|m: int|
                0 <= m < cs.len() && #[trigger] consumed_pre[m] && t.under(
                    rr as int,
                    cs[m] as int,
                );
            assert(m != jj as int);
            assert(cs[m] != cs[jj as int]);
            assert(t.child_ok(id as int, m));
            lemma_branches_disjoint(t, id, cjj, cs[m] as int, pu as int, rr as int);
        } else if xr >= out_b.removed@.len() {
            assert(out.updated@[xu] == out_b.updated@[xu]);
            let m = choose|m: int|
                0 <= m < cs.len() && #[trigger] consumed_pre[m] && t.under(
                    pu as int,
                    cs[m] as int,
                );
            assert(m != jj as int);
            assert(cs[m] != cs[jj as int]);
            assert(t.child_ok(id as int, m));
            lemma_branches_disjoint(t, id, cs[m] as int, cjj, pu as int, rr as int);
        } else {
            assert(out.updated@[xu] == out_b.updated@[xu]);
            assert(out.removed@[xr] == out_b.removed@[xr]);
        }
    }
}

/// Diffs one matched pair, appending this pair's property, name and class
/// changes and the recursive differences of its children to the patch set.
#[verifier::rlimit(100)]
fn diff_pair(tree: &InstanceTree, id: usize, s: InstanceSnapshot, out: &mut PatchSet)
    requires
        tree.wf(),
        tree.live(id as int),
    ensures
        old(out).removed@.is_prefix_of(final(out).removed@),
        old(out).added@.is_prefix_of(final(out).added@),
        old(out).updated@.is_prefix_of(final(out).updated@),
        forall|k: int|
            old(out).removed@.len() <= k < final(out).removed@.len() ==> {
                let rid = #[trigger] final(out).removed@[k];
                &&& tree.live(rid as int)
                &&& tree.under(rid as int, id as int)
                &&& rid != id
            },
        forall|k: int|
            old(out).added@.len() <= k < final(out).added@.len() ==> tree.live(
                (#[trigger] final(out).added@[k]).parent as int,
            ) && tree.under(final(out).added@[k].parent as int, id as int),
        forall|k: int|
            old(out).updated@.len() <= k < final(out).updated@.len() ==> tree.live(
                (#[trigger] final(out).updated@[k]).id as int,
            ) && tree.under(final(out).updated@[k].id as int, id as int),
        forall|x1: int, x2: int|
            old(out).updated@.len() <= x1 < x2 < final(out).updated@.len() ==> (#[trigger] final(out).updated@[x1]).id != (#[trigger] final(out).updated@[x2]).id,
        forall|xa: int, xr: int|
            old(out).added@.len() <= xa < final(out).added@.len() && old(out).removed@.len() <= xr
                < final(out).removed@.len() ==> !tree.under(
                (#[trigger] final(out).added@[xa]).parent as int,
                (#[trigger] final(out).removed@[xr]) as int,
            ),
        forall|xu: int, xr: int|
            old(out).updated@.len() <= xu < final(out).updated@.len() && old(
                out,
            ).removed@.len() <= xr < final(out).removed@.len() ==> !tree.under(
                (#[trigger] final(out).updated@[xu]).id as int,
                (#[trigger] final(out).removed@[xr]) as int,
            ),
        (snapshot_matches_at(*tree, id as int, s) && snapshot_wf(s)) ==> *final(out) == *old(out),
        forall|k: int|
            0 <= k < tree.node(id as int).children@.len() ==> ((forall|k2: int|
                0 <= k2 < s.children@.len() ==> !sibling_eq(
                    *tree,
                    #[trigger] tree.node(id as int).children@[k],
                    #[trigger] s.children@[k2],
                )) ==> final(out).removed@.contains(tree.node(id as int).children@[k])),
        forall|k2: int| #![trigger s.children@[k2]]
            0 <= k2 < s.children@.len() ==> ((forall|j: int|
                0 <= j < tree.node(id as int).children@.len() ==> !sibling_eq(
                    *tree,
                    #[trigger] tree.node(id as int).children@[j],
                    #[trigger] s.children@[k2],
                )) ==> (exists|x: int|
                0 <= x < final(out).added@.len() && (#[trigger] final(out).added@[x]).parent == id
                    && final(out).added@[x].snapshot == s.children@[k2])),
        pair_clean(*tree, id, s) ==> forall|x: int|
            old(out).updated@.len() <= x < final(out).updated@.len() ==> (#[trigger] final(out).updated@[x]).id != id,
        !pair_clean(*tree, id, s) ==> (exists|x: int|
            old(out).updated@.len() <= x < final(out).updated@.len() && update_entry_exact(
                *tree,
                id,
                s,
                #[trigger] final(out).updated@[x],
            )),
    decreases s,
{
    let ghost out0 = *out;
    let ghost hyp = snapshot_matches_at(*tree, id as int, s) && snapshot_wf(s);
    let node = tree.get(id).unwrap();
    let InstanceSnapshot {
        name: s_name,
        class: s_class,
        properties: s_props,
        children: s_children,
        source_path: _,
    } = s;
    // properties the snapshot states that the live node lacks or differs on
    let ghost lv = props_view(node.properties@);
    let mut changes: Vec<(String, Option<PropValue>)> = Vec::new();
    let mut sp = s_props;
    let ghost all_p = sp@;
    proof {
        assert(all_p.len() == sp.len());
        assert(all_p.take(0) =~= Seq::<Property>::empty());
    }
    let mut pi: usize = 0;
    while sp.len() > 0
        invariant
            all_p.len() <= usize::MAX,
            tree.wf(),
            tree.live(id as int),
            *node == tree.node(id as int),
            lv == props_view(tree.node(id as int).properties@),
            hyp == (snapshot_matches_at(*tree, id as int, s) && snapshot_wf(s)),
            all_p == s.properties@,
            0 <= pi <= all_p.len(),
            sp@ == all_p.skip(pi as int),
            changes@ == diff_props_spec(all_p.take(pi as int), lv),
            hyp ==> changes@.len() == 0,
        decreases sp@.len(),
    {
        let ghost sp0 = sp@;
        let ghost chg0 = changes@;
        let p = sp.remove(0);
        let ghost pg = p;
        proof {
            assert(sp0[0] == all_p[pi as int]);
            assert(sp@ =~= all_p.skip(pi as int + 1));
        }
        let same = match get_prop(&node.properties, &p.key) {
            Some(v) => prop_value_eq(v, &p.value),
            None => false,
        };
        proof {
            assert(same == (lookup_v(lv, pg.key@) == Some(pg.value@)));
            if hyp {
                lemma_lookup_unique(props_view(s.properties@), pi as int);
                assert(props_view(s.properties@)[pi as int] == (p.key@, p.value@));
                assert(lookup_v(props_view(s.properties@), p.key@) == Some(p.value@));
                assert(props_view(node.properties@) == props_view(s.properties@));
                assert(same);
            }
        }
        if !same {
            changes.push((p.key, Some(p.value)));
        }
        proof {
            lemma_diff_props_snoc(all_p.take(pi as int), pg, lv);
            assert(all_p.take(pi as int + 1) =~= all_p.take(pi as int).push(pg));
            if same {
                assert(changes@ =~= diff_props_spec(all_p.take(pi as int), lv)
                    + Seq::<(String, Option<PropValue>)>::empty());
            } else {
                assert(changes@ =~= diff_props_spec(all_p.take(pi as int), lv) + seq![
                    (pg.key, Some(pg.value)),
                ]);
            }
        }
        pi = pi + 1;
    }
    proof {
        assert(all_p.take(all_p.len() as int) =~= all_p);
        assert(changes@ == diff_props_spec(s.properties@, lv));
    }
    // name and class; for a pair the matching itself produced these agree
    let changed_name: Option<String> = if !(node.name == s_name) {
        Some(s_name)
    } else {
        None
    };
    let changed_class: Option<String> = if !(node.class == s_class) {
        Some(s_class)
    } else {
        None
    };
    proof {
        if hyp {
            assert(changed_name is None && changed_class is None);
        }
    }
    // match snapshot children against live children by name and class
    let cn = node.children.len();
    let mut consumed: Vec<bool> = vec![false; cn];
    let mut sc = s_children;
    let ghost all_c = sc@;
    proof {
        assert(all_c.len() == sc.len());
    }
    let mut k: usize = 0;
    while sc.len() > 0
        invariant
            all_c.len() <= usize::MAX,
            tree.wf(),
            tree.live(id as int),
            *node == tree.node(id as int),
            hyp == (snapshot_matches_at(*tree, id as int, s) && snapshot_wf(s)),
            all_c == s.children@,
            cn == node.children@.len(),
            consumed@.len() == cn,
            0 <= k <= all_c.len(),
            sc@ == all_c.skip(k as int),
            out0.removed@.is_prefix_of(out.removed@),
            out0.added@.is_prefix_of(out.added@),
            out0.updated@.is_prefix_of(out.updated@),
            forall|x: int|
                out0.removed@.len() <= x < out.removed@.len() ==> {
                    let rid = #[trigger] out.removed@[x];
                    &&& tree.live(rid as int)
                    &&& tree.under(rid as int, id as int)
                    &&& rid != id
                },
            forall|x: int|
                out0.added@.len() <= x < out.added@.len() ==> tree.live(
                    (#[trigger] out.added@[x]).parent as int,
                ) && tree.under(out.added@[x].parent as int, id as int),
            forall|x: int|
                out0.updated@.len() <= x < out.updated@.len() ==> tree.live(
                    (#[trigger] out.updated@[x]).id as int,
                ) && tree.under(out.updated@[x].id as int, id as int),
            forall|x: int|
                out0.updated@.len() <= x < out.updated@.len() ==> (#[trigger] out.updated@[x]).id
                    != id,
            forall|x: int|
                out0.removed@.len() <= x < out.removed@.len() ==> under_consumed(*tree, node.children@, consumed@, (#[trigger] out.removed@[x]) as int),
            forall|x: int|
                out0.added@.len() <= x < out.added@.len() ==> ((#[trigger] out.added@[x]).parent
                    == id || under_consumed(*tree, node.children@, consumed@, out.added@[x].parent as int)),
            forall|x: int|
                out0.updated@.len() <= x < out.updated@.len() ==> under_consumed(*tree, node.children@, consumed@, (#[trigger] out.updated@[x]).id as int),
            forall|x1: int, x2: int|
                out0.updated@.len() <= x1 < x2 < out.updated@.len() ==> (
                #[trigger] out.updated@[x1]).id != (#[trigger] out.updated@[x2]).id,
            forall|xa: int, xr: int|
                out0.added@.len() <= xa < out.added@.len() && out0.removed@.len() <= xr
                    < out.removed@.len() ==> !tree.under(
                    (#[trigger] out.added@[xa]).parent as int,
                    (#[trigger] out.removed@[xr]) as int,
                ),
            forall|xu: int, xr: int|
                out0.updated@.len() <= xu < out.updated@.len() && out0.removed@.len() <= xr
                    < out.removed@.len() ==> !tree.under(
                    (#[trigger] out.updated@[xu]).id as int,
                    (#[trigger] out.removed@[xr]) as int,
                ),
            hyp ==> (*out == out0 && cn == all_c.len() && (forall|j: int|
                0 <= j < cn ==> consumed@[j] == (j < k))),
            forall|j: int|
                0 <= j < cn && #[trigger] consumed@[j] ==> exists|k2: int|
                    0 <= k2 < all_c.len() && sibling_eq(
                        *tree,
                        node.children@[j],
                        #[trigger] all_c[k2],
                    ),
            forall|k2: int| #![trigger all_c[k2]]
                0 <= k2 < k ==> ((forall|j: int|
                    0 <= j < cn ==> !sibling_eq(
                        *tree,
                        #[trigger] node.children@[j],
                        #[trigger] all_c[k2],
                    )) ==> (exists|x: int|
                    0 <= x < out.added@.len() && (#[trigger] out.added@[x]).parent == id
                        && out.added@[x].snapshot == all_c[k2])),
        decreases sc@.len(),
    {
        let ghost added_head = out.added@;
        let ghost sc0 = sc@;
        let c_snap = sc.remove(0);
        proof {
            assert(sc0[0] == all_c[k as int]);
            assert(sc@ =~= all_c.skip(k as int + 1));
            assert(decreases_to!(s => s.children@));
            assert(decreases_to!(s.children@ => s.children@[k as int]));
        }
        // find the first unconsumed live sibling with the same name and class
        let mut j: usize = 0;
        let mut found: Option<usize> = None;
        while j < cn && found.is_none()
            invariant
                tree.wf(),
                tree.live(id as int),
                *node == tree.node(id as int),
                cn == node.children@.len(),
                consumed@.len() == cn,
                0 <= j <= cn,
                found is None ==> forall|x: int|
                    0 <= x < j ==> (consumed@[x] || !sibling_eq(
                        *tree,
                        #[trigger] node.children@[x],
                        c_snap,
                    )),
                found is Some ==> {
                    let jj = found->0 as int;
                    &&& 0 <= jj < cn
                    &&& !consumed@[jj]
                    &&& sibling_eq(*tree, node.children@[jj], c_snap)
                    &&& jj == j
                    &&& forall|x: int|
                        0 <= x < jj ==> (consumed@[x] || !sibling_eq(
                            *tree,
                            #[trigger] node.children@[x],
                            c_snap,
                        ))
                },
            decreases cn - j + (if found is None { 1int } else { 0int }),
        {
            if !consumed[j] {
                let cid = node.children[j];
                proof {
                    assert(tree.node_ok(id as int));
                    assert(tree.child_ok(id as int, j as int));
                }
                let child = tree.get(cid).unwrap();
                if child.name == c_snap.name && child.class == c_snap.class {
                    found = Some(j);
                } else {
                    j = j + 1;
                }
            } else {
                j = j + 1;
            }
        }
        proof {
            if hyp {
                assert(snapshot_matches_at(*tree, id as int, s));
                assert(s.children@[k as int] == all_c[k as int]);
                assert(snapshot_matches_at(
                    *tree,
                    tree.node(id as int).children@[k as int] as int,
                    all_c[k as int],
                ));
                assert(sibling_eq(*tree, node.children@[k as int], c_snap));
                assert(!consumed@[k as int]);
                if found is None {
                    assert(consumed@[k as int] || !sibling_eq(
                        *tree,
                        node.children@[k as int],
                        c_snap,
                    ));
                    assert(false);
                }
                let jj = found->0 as int;
                if jj < k {
                    assert(consumed@[jj]);
                    assert(false);
                }
                if jj > k {
                    assert(consumed@[k as int] || !sibling_eq(
                        *tree,
                        node.children@[k as int],
                        c_snap,
                    ));
                    assert(false);
                }
                assert(found == Some(k));
                assert(snapshot_wf(s.children@[k as int]));
            }
        }
        match found {
            Some(jj) => {
                let ghost consumed_pre = consumed@;
                set_mark(&mut consumed, jj, true);
                let cid = node.children[jj];
                proof {
                    assert(tree.node_ok(id as int));
                    assert(tree.child_ok(id as int, jj as int));
                    assert(tree.under(id as int, id as int));
                    assert(tree.node(cid as int).parent == Some(id));
                    assert(tree.under(cid as int, id as int));
                }
                let ghost out_b = *out;
                proof {
                    if hyp {
                        assert(jj == k);
                        assert(snapshot_matches_at(*tree, cid as int, c_snap));
                        assert(snapshot_wf(c_snap));
                    }
                }
                diff_pair(tree, cid, c_snap, out);
                proof {
                    if hyp {
                        assert(*out == out_b);
                    }
                    assert(!consumed_pre[jj as int]);
                    assert(consumed@ == consumed_pre.update(jj as int, true));
                    lemma_child_block(
                        *tree,
                        id,
                        node.children@,
                        consumed_pre,
                        consumed@,
                        jj,
                        out0,
                        out_b,
                        *out,
                    );
                    lemma_child_block_pairs(
                        *tree,
                        id,
                        node.children@,
                        consumed_pre,
                        consumed@,
                        jj,
                        out0,
                        out_b,
                        *out,
                    );
                                }
            },
            None => {
                let ghost out_b = *out;
                out.added.push(PatchAdd { parent: id, snapshot: c_snap });
                proof {
                    assert(out.added@ == out_b.added@.push(
                        PatchAdd { parent: id, snapshot: c_snap },
                    ));
                    assert(out.added@[out.added@.len() - 1].snapshot == all_c[k as int]);
                    assert(out.added@[out.added@.len() - 1].parent == id);
                    assert forall|xa: int, xr: int|
                        out0.added@.len() <= xa < out.added@.len() && out0.removed@.len() <= xr
                            < out.removed@.len() implies !tree.under(
                        (#[trigger] out.added@[xa]).parent as int,
                        (#[trigger] out.removed@[xr]) as int,
                    ) by {
                        if xa == out.added@.len() - 1 {
                            let rr = out.removed@[xr];
                            assert(tree.under(rr as int, id as int) && rr != id);
                            lemma_not_under_descendant(*tree, id as int, rr as int);
                        }
                    }
                    if hyp {
                        assert(false);
                    }
                }
            },
        }
        proof {
            assert(added_head.is_prefix_of(out.added@));
            assert forall|k2: int| #![trigger all_c[k2]]
                0 <= k2 < k + 1 && (forall|j2: int|
                    0 <= j2 < cn ==> !sibling_eq(
                        *tree,
                        #[trigger] node.children@[j2],
                        all_c[k2],
                    )) implies (exists|x: int|
                0 <= x < out.added@.len() && (#[trigger] out.added@[x]).parent == id
                    && out.added@[x].snapshot == all_c[k2]) by {
                if k2 < k {
                    let x = choose|x: int|
                        0 <= x < added_head.len() && (#[trigger] added_head[x]).parent == id
                            && added_head[x].snapshot == all_c[k2];
                    assert(out.added@[x] == added_head[x]);
                } else {
                    if found is Some {
                        let jj2 = found->0 as int;
                        assert(sibling_eq(*tree, node.children@[jj2], c_snap));
                        assert(!sibling_eq(*tree, node.children@[jj2], all_c[k2]));
                        assert(false);
                    } else {
                        let x = out.added@.len() - 1;
                        assert((#[trigger] out.added@[x]).parent == id);
                    }
                }
            }
        }
        k = k + 1;
    }
    // live children the snapshot does not describe are removed
    let mut j: usize = 0;
    while j < cn
        invariant
            tree.wf(),
            tree.live(id as int),
            *node == tree.node(id as int),
            hyp == (snapshot_matches_at(*tree, id as int, s) && snapshot_wf(s)),
            cn == node.children@.len(),
            consumed@.len() == cn,
            0 <= j <= cn,
            out0.removed@.is_prefix_of(out.removed@),
            out0.added@.is_prefix_of(out.added@),
            out0.updated@.is_prefix_of(out.updated@),
            forall|x: int|
                out0.removed@.len() <= x < out.removed@.len() ==> {
                    let rid = #[trigger] out.removed@[x];
                    &&& tree.live(rid as int)
                    &&& tree.under(rid as int, id as int)
                    &&& rid != id
                },
            forall|x: int|
                out0.added@.len() <= x < out.added@.len() ==> tree.live(
                    (#[trigger] out.added@[x]).parent as int,
                ) && tree.under(out.added@[x].parent as int, id as int),
            forall|x: int|
                out0.updated@.len() <= x < out.updated@.len() ==> tree.live(
                    (#[trigger] out.updated@[x]).id as int,
                ) && tree.under(out.updated@[x].id as int, id as int),
            forall|x: int|
                out0.updated@.len() <= x < out.updated@.len() ==> (#[trigger] out.updated@[x]).id
                    != id,
            forall|x: int|
                out0.added@.len() <= x < out.added@.len() ==> ((#[trigger] out.added@[x]).parent
                    == id || under_consumed(*tree, node.children@, consumed@, out.added@[x].parent as int)),
            forall|x: int|
                out0.updated@.len() <= x < out.updated@.len() ==> under_consumed(*tree, node.children@, consumed@, (#[trigger] out.updated@[x]).id as int),
            forall|x1: int, x2: int|
                out0.updated@.len() <= x1 < x2 < out.updated@.len() ==> (
                #[trigger] out.updated@[x1]).id != (#[trigger] out.updated@[x2]).id,
            forall|xa: int, xr: int|
                out0.added@.len() <= xa < out.added@.len() && out0.removed@.len() <= xr
                    < out.removed@.len() ==> !tree.under(
                    (#[trigger] out.added@[xa]).parent as int,
                    (#[trigger] out.removed@[xr]) as int,
                ),
            forall|xu: int, xr: int|
                out0.updated@.len() <= xu < out.updated@.len() && out0.removed@.len() <= xr
                    < out.removed@.len() ==> !tree.under(
                    (#[trigger] out.updated@[xu]).id as int,
                    (#[trigger] out.removed@[xr]) as int,
                ),
            hyp ==> (*out == out0 && (forall|x: int| 0 <= x < cn ==> consumed@[x])),
            forall|x: int|
                0 <= x < cn && #[trigger] consumed@[x] ==> exists|k2: int|
                    0 <= k2 < all_c.len() && sibling_eq(
                        *tree,
                        node.children@[x],
                        #[trigger] all_c[k2],
                    ),
            forall|x: int|
                0 <= x < j && !(#[trigger] consumed@[x]) ==> out.removed@.contains(
                    node.children@[x],
                ),
            forall|k2: int| #![trigger all_c[k2]]
                0 <= k2 < all_c.len() ==> ((forall|j2: int|
                    0 <= j2 < cn ==> !sibling_eq(
                        *tree,
                        #[trigger] node.children@[j2],
                        all_c[k2],
                    )) ==> (exists|x: int|
                    0 <= x < out.added@.len() && (#[trigger] out.added@[x]).parent == id
                        && out.added@[x].snapshot == all_c[k2])),
        decreases cn - j,
    {
        if !consumed[j] {
            let cid = node.children[j];
            proof {
                assert(tree.node_ok(id as int));
                assert(tree.child_ok(id as int, j as int));
                assert(tree.under(id as int, id as int));
                assert(tree.node(cid as int).parent == Some(id));
                assert(tree.under(cid as int, id as int));
            }
            let ghost out_b = *out;
            out.removed.push(cid);
            proof {
                assert(out.removed@ == out_b.removed@.push(cid));
                assert(out.removed@[out.removed@.len() - 1] == cid);
                assert forall|x: int|
                    0 <= x < j + 1 && !(#[trigger] consumed@[x]) implies out.removed@.contains(
                    node.children@[x],
                ) by {
                    if x < j {
                        let w = choose|w: int|
                            0 <= w < out_b.removed@.len() && out_b.removed@[w]
                                == node.children@[x];
                        assert(out.removed@[w] == node.children@[x]);
                    }
                }
                assert(tree.node_ok(id as int));
                let cj = cid as int;
                assert forall|xa: int, xr: int|
                    out0.added@.len() <= xa < out.added@.len() && out0.removed@.len() <= xr
                        < out.removed@.len() implies !tree.under(
                    (#[trigger] out.added@[xa]).parent as int,
                    (#[trigger] out.removed@[xr]) as int,
                ) by {
                    if xr == out.removed@.len() - 1 {
                        let pa = out.added@[xa].parent;
                        if pa == id {
                            assert(tree.under(cj, id as int) && cid != id);
                            lemma_not_under_descendant(*tree, id as int, cj);
                        } else {
                            let m = choose|m: int|
                                0 <= m < cn && #[trigger] consumed@[m] && tree.under(
                                    pa as int,
                                    node.children@[m] as int,
                                );
                            assert(m != j as int);
                            assert(node.children@[m] != node.children@[j as int]);
                            assert(tree.child_ok(id as int, m));
                            assert(tree.child_ok(id as int, j as int));
                            assert(tree.under(cj, cj));
                            lemma_branches_disjoint(
                                *tree,
                                id,
                                node.children@[m] as int,
                                cj,
                                pa as int,
                                cj,
                            );
                        }
                    }
                }
                assert forall|xu: int, xr: int|
                    out0.updated@.len() <= xu < out.updated@.len() && out0.removed@.len() <= xr
                        < out.removed@.len() implies !tree.under(
                    (#[trigger] out.updated@[xu]).id as int,
                    (#[trigger] out.removed@[xr]) as int,
                ) by {
                    if xr == out.removed@.len() - 1 {
                        let pu = out.updated@[xu].id;
                        let m = choose|m: int|
                            0 <= m < cn && #[trigger] consumed@[m] && tree.under(
                                pu as int,
                                node.children@[m] as int,
                            );
                        assert(m != j as int);
                        assert(node.children@[m] != node.children@[j as int]);
                        assert(tree.child_ok(id as int, m));
                        assert(tree.child_ok(id as int, j as int));
                        assert(tree.under(cj, cj));
                        lemma_branches_disjoint(
                            *tree,
                            id,
                            node.children@[m] as int,
                            cj,
                            pu as int,
                            cj,
                        );
                    }
                }
            }
        }
        j = j + 1;
    }
    // the matched pair's own differences
    proof {
        assert(changes@ == diff_props_spec(s.properties@, lv));
        assert(changed_name is Some <==> s.name@ != tree.node(id as int).name@);
        assert(changed_class is Some <==> s.class@ != tree.node(id as int).class@);
        assert(pair_clean(*tree, id, s) <==> (changed_name is None && changed_class is None
            && changes@.len() == 0));
    }
    if changed_name.is_some() || changed_class.is_some() || changes.len() > 0 {
        proof {
            if hyp {
                assert(false);
            }
        }
        let ghost out_b = *out;
        let ghost entry = PatchUpdate { id, changed_name, changed_class, changed_properties: changes };
        out.updated.push(
            PatchUpdate { id, changed_name, changed_class, changed_properties: changes },
        );
        proof {
            assert(out.updated@ =~= out_b.updated@.push(entry));
            assert(update_entry_exact(*tree, id, s, entry));
            assert(out.updated@[out.updated@.len() - 1] == entry);
            assert forall|x1: int, x2: int|
                out0.updated@.len() <= x1 < x2 < out.updated@.len() implies (
            #[trigger] out.updated@[x1]).id != (#[trigger] out.updated@[x2]).id by {
                if x2 == out.updated@.len() - 1 {
                    assert(out.updated@[x1].id != id);
                }
            }
            assert forall|xu: int, xr: int|
                out0.updated@.len() <= xu < out.updated@.len() && out0.removed@.len() <= xr
                    < out.removed@.len() implies !tree.under(
                (#[trigger] out.updated@[xu]).id as int,
                (#[trigger] out.removed@[xr]) as int,
            ) by {
                if xu == out.updated@.len() - 1 {
                    let rr = out.removed@[xr];
                    assert(tree.under(rr as int, id as int) && rr != id);
                    lemma_not_under_descendant(*tree, id as int, rr as int);
                }
            }
        }
    }
    proof {
        assert forall|x: int|
            0 <= x < tree.node(id as int).children@.len() && ((forall|k2: int|
                0 <= k2 < s.children@.len() ==> !sibling_eq(
                    *tree,
                    tree.node(id as int).children@[x],
                    #[trigger] s.children@[k2],
                ))) implies out.removed@.contains(tree.node(id as int).children@[x]) by {
            if consumed@[x] {
                let k2 = choose|k2: int|
                    0 <= k2 < all_c.len() && sibling_eq(*tree, node.children@[x], all_c[k2]);
                assert(!sibling_eq(*tree, node.children@[x], s.children@[k2]));
                assert(false);
            }
        }
    }
}

} // verus!
