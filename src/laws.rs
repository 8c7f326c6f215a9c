use vstd::prelude::*;
use vstd::set_lib::lemma_len_subset;
use crate::newick::{is_space, lemma_scan_sticky, scan, without_spaces};
use crate::node::NodeID;
use crate::tree::{shift_kids, shift_parent, RootedPhyloTree};

verus! {

/// The ids below `n` that `t` holds.
pub open spec fn ids_below(t: &RootedPhyloTree, n: nat) -> Set<NodeID> {
    Set::new(|i: NodeID| i < n && t.has(i))
}

proof fn lemma_ids_below_finite(t: &RootedPhyloTree, n: nat)
    ensures
        ids_below(t, n).finite(),
    decreases n,
{
    if n > 0 {
        let m = (n - 1) as nat;
        lemma_ids_below_finite(t, m);
        if m <= usize::MAX && t.has(m as NodeID) {
            assert(ids_below(t, n) =~= ids_below(t, m).insert(m as NodeID));
        } else {
            assert(ids_below(t, n) =~= ids_below(t, m));
        }
    } else {
        assert(ids_below(t, n) =~= Set::empty());
    }
}

/// Every node of a tree has an entry in each of the three tables, and no
/// table has an entry that the others lack.
pub proof fn lemma_tables_share_keys(t: &RootedPhyloTree)
    requires
        t.wf(),
    ensures
        t.nodes_map().dom() == t.parents_map().dom(),
        t.parents_map().dom() == t.children_map().dom(),
        forall|x: NodeID| #[trigger] t.has(x) <==> t.nodes_map().dom().contains(x),
{
    assert(t.nodes_map().dom() =~= t.parents_map().dom());
    assert(t.parents_map().dom() =~= t.children_map().dom());
}

/// Every node but the root is listed among the children of its parent.
pub proof fn lemma_child_of_parent(t: &RootedPhyloTree, x: NodeID)
    requires
        t.wf(),
        t.has(x),
        x != t.spec_root(),
    ensures
        t.parents_map()[x] is Some,
        t.children_map().dom().contains(t.parents_map()[x]->Some_0),
        t.child_ids(t.parents_map()[x]->Some_0).contains(x),
{
    t.lemma_tree_facts();
    t.lemma_forest_facts();
}

/// The node reached from `x` by following `k` parent links (staying put
/// at a node without parent).
pub open spec fn walk_up(t: &RootedPhyloTree, x: NodeID, k: nat) -> NodeID
    decreases k,
{
    if k == 0 {
        x
    } else {
        match t.parent(x) {
            Some(p) => walk_up(t, p, (k - 1) as nat),
            None => x,
        }
    }
}

proof fn lemma_walk_up_ancestors(t: &RootedPhyloTree, x: NodeID)
    requires
        t.wf(),
        t.has(x),
    ensures
        walk_up(t, x, t.ancestors(x).len()) == t.spec_root(),
    decreases t.rank_of(x),
{
    t.lemma_tree_facts();
    t.lemma_forest_facts();
    t.lemma_ancestors_shape(x);
    if x != t.spec_root() {
        let p = t.parent(x)->Some_0;
        lemma_walk_up_ancestors(t, p);
        assert(t.ancestors(x) == seq![p] + t.ancestors(p));
    }
}

/// Following parent links from any node reaches the root within as many
/// steps as the tree has nodes.
pub proof fn lemma_parent_walk_bounded(t: &RootedPhyloTree, x: NodeID)
    requires
        t.wf(),
        t.has(x),
    ensures
        t.parents_map()[t.spec_root()] is None,
        exists|k: nat| k <= t.nodes_map().dom().len() && #[trigger] walk_up(t, x, k) == t.spec_root(),
{
    t.lemma_tree_facts();
    t.lemma_forest_facts();
    lemma_parent_walk_reaches_root(t, x);
    lemma_walk_up_ancestors(t, x);
    let k = t.ancestors(x).len();
    assert(walk_up(t, x, k) == t.spec_root());
}

/// Walking parent links from any node reaches the root, visiting no node
/// twice, in fewer steps than the tree has nodes.
pub proof fn lemma_parent_walk_reaches_root(t: &RootedPhyloTree, x: NodeID)
    requires
        t.wf(),
        t.has(x),
    ensures
        x == t.spec_root() || t.ancestors(x).last() == t.spec_root(),
        t.ancestors(x).no_duplicates(),
        t.nodes_map().dom().finite(),
        t.ancestors(x).len() < t.nodes_map().dom().len(),
{
    t.lemma_tree_facts();
    t.lemma_forest_facts();
    t.lemma_ancestors_shape(x);
    let n = t.next_id();
    lemma_ids_below_finite(t, n);
    assert(ids_below(t, n) =~= t.nodes_map().dom());
    let path = t.ancestors(x).push(x);
    assert(path.no_duplicates()) by {
        assert forall|i: int, j: int| 0 <= i < j < path.len() implies path[i] != path[j] by {
            if j == path.len() - 1 {
                assert(t.rank_of(path[i]) < t.rank_of(x));
            }
        }
    }
    assert(path.to_set().subset_of(t.nodes_map().dom())) by {
        assert forall|y: NodeID| path.to_set().contains(y) implies t.nodes_map().dom().contains(y) by {
            assert(path.contains(y));
            let k = choose|k: int| 0 <= k < path.len() && path[k] == y;
            if k < path.len() - 1 {
                assert(t.has(t.ancestors(x)[k]));
            }
        }
    }
    path.unique_seq_to_set();
    lemma_len_subset(path.to_set(), t.nodes_map().dom());
    if x != t.spec_root() {
        assert(t.ancestors(x)[t.ancestors(x).len() - 1] == t.spec_root());
    }
}

/// Moving every id up by `n` and then down by `n` gives back the same
/// tables and root.
pub proof fn lemma_shift_round_trip(t0: &RootedPhyloTree, t1: &RootedPhyloTree, t2: &RootedPhyloTree, n: int)
    requires
        t0.wf(),
        t1.is_shift_of(t0, n),
        t2.is_shift_of(t1, -n),
    ensures
        t2.spec_root() == t0.spec_root(),
        t2.nodes_map() == t0.nodes_map(),
        t2.parents_map() == t0.parents_map(),
        t2.children_map() == t0.children_map(),
{
    t0.lemma_tree_facts();
    t0.lemma_forest_facts();
    assert forall|x: NodeID| #[trigger] t2.has(x) <==> t0.has(x) by {
        if t0.has(x) {
            assert(t1.has((x + n) as NodeID));
        }
        if t2.has(x) {
            assert(t1.has((x + n) as NodeID));
        }
    }
    assert forall|x: NodeID| t0.has(x) implies #[trigger] t2.node(x) == t0.node(x)
        && t2.parent(x) == t0.parent(x) && t2.kids(x) == t0.kids(x) by {
        let y = (x + n) as NodeID;
        assert(t1.has(y));
        assert(((y - n) as NodeID) == x);
        if t0.parent(x) is Some {
            assert(t0.has(t0.parent(x)->Some_0));
        }
        let k0 = t0.kids(x);
        assert forall|i: int| 0 <= i < k0.len() implies 0 <= (#[trigger] k0[i]).0 + n <= usize::MAX by {
            assert(t0.has(k0[i].0));
        }
        assert(shift_kids(shift_kids(k0, n), -n) =~= k0);
    }
    assert(t2.nodes_map() =~= t0.nodes_map());
    assert(t2.parents_map() =~= t0.parents_map());
    assert(t2.children_map() =~= t0.children_map());
}

/// The two sides of the split that an edge induces share no leaf, and
/// together hold every leaf of the tree.
pub proof fn lemma_bipartition_partitions_leaves(t: &RootedPhyloTree, c: NodeID)
    requires
        t.wf(),
        t.has(c),
    ensures
        ({
            let ins = t.leaf_ids(c);
            let all = t.leaf_ids(t.spec_root());
            let outs = all.filter(|y: NodeID| !ins.contains(y));
            &&& forall|y: NodeID| #[trigger] ins.contains(y) ==> !outs.contains(y)
            &&& forall|y: NodeID| #[trigger] all.contains(y) <==> ins.contains(y) || outs.contains(y)
        }),
{
    let ins = t.leaf_ids(c);
    let all = t.leaf_ids(t.spec_root());
    let pred = |y: NodeID| !ins.contains(y);
    let outs = all.filter(pred);
    t.lemma_desc_root(c);
    t.lemma_leaves_nest(c, t.spec_root());
    all.filter_lemma(pred);
    assert forall|y: NodeID| #[trigger] ins.contains(y) implies !outs.contains(y) by {
        if outs.contains(y) {
            let k = choose|k: int| 0 <= k < outs.len() && outs[k] == y;
            assert(pred(outs[k]));
        }
    }
    assert forall|y: NodeID| #[trigger] all.contains(y) <==> ins.contains(y) || outs.contains(y) by {
        if outs.contains(y) {
            all.lemma_filter_contains_rev(pred, y);
        }
        if all.contains(y) && !ins.contains(y) {
            let k = choose|k: int| 0 <= k < all.len() && all[k] == y;
            assert(pred(all[k]));
        }
    }
}

/// Once the reading has reached its first `;`, text after it changes
/// nothing.
pub proof fn lemma_text_after_end_ignored(s: Seq<char>, t: Seq<char>)
    requires
        scan(s).stopped,
    ensures
        scan(s + t) == scan(s),
{
    assert((s + t).take(s.len() as int) =~= s);
    lemma_scan_sticky(s + t, s.len() as int);
}

proof fn lemma_without_spaces_concat(a: Seq<char>, b: Seq<char>)
    ensures
        without_spaces(a + b) == without_spaces(a) + without_spaces(b),
    decreases b.len(),
{
    if b.len() == 0 {
        assert(a + b =~= a);
        assert(without_spaces(a) + without_spaces(b) =~= without_spaces(a));
    } else {
        assert((a + b).drop_last() =~= a + b.drop_last());
        lemma_without_spaces_concat(a, b.drop_last());
        if !is_space(b.last()) {
            assert(without_spaces(a) + without_spaces(b) =~= (without_spaces(a) + without_spaces(b.drop_last())).push(b.last()));
        }
    }
}

/// Whitespace put anywhere into a tree text does not change the text that
/// is read, and so not the tree.
pub proof fn lemma_whitespace_ignored(a: Seq<char>, w: Seq<char>, b: Seq<char>)
    requires
        forall|i: int| 0 <= i < w.len() ==> is_space(#[trigger] w[i]),
    ensures
        without_spaces(a + w + b) == without_spaces(a + b),
        scan(without_spaces(a + w + b)) == scan(without_spaces(a + b)),
    decreases w.len(),
{
    if w.len() > 0 {
        let w2 = w.drop_last();
        assert forall|i: int| 0 <= i < w2.len() implies is_space(#[trigger] w2[i]) by {
            assert(w2[i] == w[i]);
        }
        lemma_whitespace_ignored(a, w2, b);
        lemma_without_spaces_concat(a + w, b);
        lemma_without_spaces_concat(a + w2, b);
        assert((a + w).drop_last() =~= a + w2);
        assert(is_space(w[w.len() - 1]));
    } else {
        assert(a + w =~= a);
    }
}

} // verus!
