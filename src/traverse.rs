use vstd::prelude::*;
use crate::node::{NodeID, NodeType, TreeError};
use crate::tree::RootedPhyloTree;

verus! {

impl RootedPhyloTree {
    /// Whether the `i`-th child of `x` lies strictly deeper in rank, so that
    /// descending to it makes progress.
    pub open spec fn descends(&self, x: NodeID, i: int) -> bool {
        &&& self.has(x)
        &&& 0 <= i < self.kids(x).len()
        &&& self.rank_of(x) < self.rank_of(self.kids(x)[i].0)
        &&& self.rank_of(self.kids(x)[i].0) < self.rank_bound()
    }

    /// The nodes at and below `x`, each before its descendants, children in
    /// their stored order.
    pub open spec fn preorder(&self, x: NodeID) -> Seq<NodeID>
        decreases self.rank_bound() - self.rank_of(x), 1int, 0int,
    {
        seq![x] + self.pre_from(x, self.kids(x).len() as int)
    }

    /// The pre-order sequences of the first `n` children of `x`, joined.
    pub open spec fn pre_from(&self, x: NodeID, n: int) -> Seq<NodeID>
        decreases self.rank_bound() - self.rank_of(x), 0int, n,
    {
        if n <= 0 || !self.descends(x, n - 1) {
            Seq::empty()
        } else {
            self.pre_from(x, n - 1) + self.preorder(self.kids(x)[n - 1].0)
        }
    }

    /// The nodes at and below `x`, each after its descendants.
    pub open spec fn postorder(&self, x: NodeID) -> Seq<NodeID>
        decreases self.rank_bound() - self.rank_of(x), 1int, 0int,
    {
        self.post_from(x, self.kids(x).len() as int).push(x)
    }

    pub open spec fn post_from(&self, x: NodeID, n: int) -> Seq<NodeID>
        decreases self.rank_bound() - self.rank_of(x), 0int, n,
    {
        if n <= 0 || !self.descends(x, n - 1) {
            Seq::empty()
        } else {
            self.post_from(x, n - 1) + self.postorder(self.kids(x)[n - 1].0)
        }
    }

    /// The edges below `x`, each before the edges below it.
    pub open spec fn edges_pre(&self, x: NodeID) -> Seq<(NodeID, NodeID)>
        decreases self.rank_bound() - self.rank_of(x), 1int, 0int,
    {
        self.edges_pre_from(x, self.kids(x).len() as int)
    }

    pub open spec fn edges_pre_from(&self, x: NodeID, n: int) -> Seq<(NodeID, NodeID)>
        decreases self.rank_bound() - self.rank_of(x), 0int, n,
    {
        if n <= 0 || !self.descends(x, n - 1) {
            Seq::empty()
        } else {
            let c = self.kids(x)[n - 1].0;
            self.edges_pre_from(x, n - 1) + seq![(x, c)] + self.edges_pre(c)
        }
    }

    /// The edges below `x`, each after the edges below it.
    pub open spec fn edges_post(&self, x: NodeID) -> Seq<(NodeID, NodeID)>
        decreases self.rank_bound() - self.rank_of(x), 1int, 0int,
    {
        self.edges_post_from(x, self.kids(x).len() as int)
    }

    pub open spec fn edges_post_from(&self, x: NodeID, n: int) -> Seq<(NodeID, NodeID)>
        decreases self.rank_bound() - self.rank_of(x), 0int, n,
    {
        if n <= 0 || !self.descends(x, n - 1) {
            Seq::empty()
        } else {
            let c = self.kids(x)[n - 1].0;
            self.edges_post_from(x, n - 1) + self.edges_post(c) + seq![(x, c)]
        }
    }

    /// The nodes without children at and below `x`, in pre-order.
    pub open spec fn leaf_ids(&self, x: NodeID) -> Seq<NodeID>
        decreases self.rank_bound() - self.rank_of(x), 1int, 0int,
    {
        if self.kids(x).len() == 0 {
            seq![x]
        } else {
            self.leaves_from(x, self.kids(x).len() as int)
        }
    }

    pub open spec fn leaves_from(&self, x: NodeID, n: int) -> Seq<NodeID>
        decreases self.rank_bound() - self.rank_of(x), 0int, n,
    {
        if n <= 0 || !self.descends(x, n - 1) {
            Seq::empty()
        } else {
            self.leaves_from(x, n - 1) + self.leaf_ids(self.kids(x)[n - 1].0)
        }
    }

    proof fn lemma_descends(&self, x: NodeID, i: int)
        requires
            self.wf_forest(),
            self.has(x),
            0 <= i < self.kids(x).len(),
        ensures
            self.descends(x, i),
            self.has(self.kids(x)[i].0),
    {
        self.lemma_forest_facts();
        let c = self.kids(x)[i].0;
        assert(self.parent(c) == Some(x));
    }

    /// One descent from `x` that appends each of the orders above to its
    /// own list.
    fn walk(&self, x: NodeID, pre: &mut Vec<NodeID>, post: &mut Vec<NodeID>,
        epre: &mut Vec<(NodeID, NodeID)>, epost: &mut Vec<(NodeID, NodeID)>, leaves: &mut Vec<NodeID>)
        requires
            self.wf_forest(),
            self.has(x),
        ensures
            final(pre)@ == old(pre)@ + self.preorder(x),
            final(post)@ == old(post)@ + self.postorder(x),
            final(epre)@ == old(epre)@ + self.edges_pre(x),
            final(epost)@ == old(epost)@ + self.edges_post(x),
            final(leaves)@ == old(leaves)@ + self.leaf_ids(x),
        decreases self.rank_bound() - self.rank_of(x),
    {
        proof { self.lemma_forest_facts(); }
        pre.push(x);
        let kids = match self.get_node_children(x) {
            Ok(v) => v,
            Err(_) => {
                return;
            },
        };
        if kids.len() == 0 {
            leaves.push(x);
        }
        let ghost pre0 = pre@;
        let ghost post0 = post@;
        let ghost epre0 = epre@;
        let ghost epost0 = epost@;
        let ghost leaves0 = leaves@;
        let mut i: usize = 0;
        while i < kids.len()
            invariant
                self.wf_forest(),
                self.has(x),
                kids@ == self.kids(x),
                0 <= i <= kids@.len(),
                pre@ == pre0 + self.pre_from(x, i as int),
                post@ == post0 + self.post_from(x, i as int),
                epre@ == epre0 + self.edges_pre_from(x, i as int),
                epost@ == epost0 + self.edges_post_from(x, i as int),
                kids@.len() > 0 ==> leaves@ == leaves0 + self.leaves_from(x, i as int),
                kids@.len() == 0 ==> leaves@ == leaves0,
            decreases kids@.len() - i,
        {
            proof { self.lemma_descends(x, i as int); }
            let c = kids[i].0;
            epre.push((x, c));
            self.walk(c, pre, post, epre, epost, leaves);
            epost.push((x, c));
            i = i + 1;
            assert(pre@ =~= pre0 + self.pre_from(x, i as int));
            assert(post@ =~= post0 + self.post_from(x, i as int));
            assert(epre@ =~= epre0 + self.edges_pre_from(x, i as int));
            assert(epost@ =~= epost0 + self.edges_post_from(x, i as int));
            assert(leaves@ =~= leaves0 + self.leaves_from(x, i as int));
        }
        post.push(x);
        assert(pre@ =~= old(pre)@ + self.preorder(x));
        assert(post@ =~= old(post)@ + self.postorder(x));
        assert(epre@ =~= old(epre)@ + self.edges_pre(x));
        assert(epost@ =~= old(epost)@ + self.edges_post(x));
        assert(leaves@ =~= old(leaves)@ + self.leaf_ids(x));
    }

    proof fn lemma_leaf_ids_present(&self, x: NodeID)
        requires
            self.wf_forest(),
            self.has(x),
        ensures
            forall|k: int| 0 <= k < self.leaf_ids(x).len() ==> self.has(#[trigger] self.leaf_ids(x)[k]),
        decreases self.rank_bound() - self.rank_of(x), 1int, 0int,
    {
        if self.kids(x).len() > 0 {
            self.lemma_leaves_from_present(x, self.kids(x).len() as int);
            assert(self.leaf_ids(x) == self.leaves_from(x, self.kids(x).len() as int));
        } else {
            assert(self.leaf_ids(x) == seq![x]);
        }
    }

    proof fn lemma_leaves_from_present(&self, x: NodeID, n: int)
        requires
            self.wf_forest(),
            self.has(x),
            n <= self.kids(x).len(),
        ensures
            forall|k: int| 0 <= k < self.leaves_from(x, n).len() ==> self.has(#[trigger] self.leaves_from(x, n)[k]),
        decreases self.rank_bound() - self.rank_of(x), 0int, n,
    {
        if n > 0 && self.descends(x, n - 1) {
            self.lemma_descends(x, n - 1);
            let c = self.kids(x)[n - 1].0;
            self.lemma_leaves_from_present(x, n - 1);
            self.lemma_leaf_ids_present(c);
            let a = self.leaves_from(x, n - 1);
            let b = self.leaf_ids(c);
            assert forall|k: int| 0 <= k < (a + b).len() implies self.has(#[trigger] (a + b)[k]) by {
                if k >= a.len() {
                    assert((a + b)[k] == b[k - a.len()]);
                } else {
                    assert((a + b)[k] == a[k]);
                }
            }
        }
    }

    /// Appends the ids of the nodes without children at and below `node_id`,
    /// in pre-order.
    pub fn leaves_of_node(&self, node_id: NodeID, leaves: &mut Vec<NodeID>)
        requires
            self.wf(),
            self.has(node_id),
        ensures
            final(leaves)@ == old(leaves)@ + self.leaf_ids(node_id),
    {
        proof { self.lemma_tree_facts(); }
        let mut a: Vec<NodeID> = Vec::new();
        let mut b: Vec<NodeID> = Vec::new();
        let mut c: Vec<(NodeID, NodeID)> = Vec::new();
        let mut d: Vec<(NodeID, NodeID)> = Vec::new();
        self.walk(node_id, &mut a, &mut b, &mut c, &mut d, leaves);
    }

    /// The nodes at and below `start_node_id`, each before its descendants.
    pub fn iter_node_pre(&self, start_node_id: NodeID) -> (r: Result<Vec<NodeID>, TreeError>)
        requires
            self.wf(),
        ensures
            self.has(start_node_id) <==> r is Ok,
            r is Ok ==> r->Ok_0@ == self.preorder(start_node_id),
            r is Err ==> r->Err_0 == TreeError::InvalidIdentifier,
    {
        if !self.contains(start_node_id) {
            return Err(TreeError::InvalidIdentifier);
        }
        proof { self.lemma_tree_facts(); }
        let mut a: Vec<NodeID> = Vec::new();
        let mut b: Vec<NodeID> = Vec::new();
        let mut c: Vec<(NodeID, NodeID)> = Vec::new();
        let mut d: Vec<(NodeID, NodeID)> = Vec::new();
        let mut e: Vec<NodeID> = Vec::new();
        self.walk(start_node_id, &mut a, &mut b, &mut c, &mut d, &mut e);
        assert(a@ =~= self.preorder(start_node_id));
        Ok(a)
    }

    /// The nodes at and below `start_node_id`, each after its descendants.
    pub fn iter_node_post(&self, start_node_id: NodeID) -> (r: Result<Vec<NodeID>, TreeError>)
        requires
            self.wf(),
        ensures
            self.has(start_node_id) <==> r is Ok,
            r is Ok ==> r->Ok_0@ == self.postorder(start_node_id),
            r is Err ==> r->Err_0 == TreeError::InvalidIdentifier,
    {
        if !self.contains(start_node_id) {
            return Err(TreeError::InvalidIdentifier);
        }
        proof { self.lemma_tree_facts(); }
        let mut a: Vec<NodeID> = Vec::new();
        let mut b: Vec<NodeID> = Vec::new();
        let mut c: Vec<(NodeID, NodeID)> = Vec::new();
        let mut d: Vec<(NodeID, NodeID)> = Vec::new();
        let mut e: Vec<NodeID> = Vec::new();
        self.walk(start_node_id, &mut a, &mut b, &mut c, &mut d, &mut e);
        assert(b@ =~= self.postorder(start_node_id));
        Ok(b)
    }

    /// The (parent, child) edges below `start_node_id`, each before the
    /// edges below it.
    pub fn iter_edges_pre(&self, start_node_id: NodeID) -> (r: Result<Vec<(NodeID, NodeID)>, TreeError>)
        requires
            self.wf(),
        ensures
            self.has(start_node_id) <==> r is Ok,
            r is Ok ==> r->Ok_0@ == self.edges_pre(start_node_id),
            r is Err ==> r->Err_0 == TreeError::InvalidIdentifier,
    {
        if !self.contains(start_node_id) {
            return Err(TreeError::InvalidIdentifier);
        }
        proof { self.lemma_tree_facts(); }
        let mut a: Vec<NodeID> = Vec::new();
        let mut b: Vec<NodeID> = Vec::new();
        let mut c: Vec<(NodeID, NodeID)> = Vec::new();
        let mut d: Vec<(NodeID, NodeID)> = Vec::new();
        let mut e: Vec<NodeID> = Vec::new();
        self.walk(start_node_id, &mut a, &mut b, &mut c, &mut d, &mut e);
        assert(c@ =~= self.edges_pre(start_node_id));
        Ok(c)
    }

    /// The (parent, child) edges below `start_node_id`, each after the
    /// edges below it.
    pub fn iter_edges_post(&self, start_node_id: NodeID) -> (r: Result<Vec<(NodeID, NodeID)>, TreeError>)
        requires
            self.wf(),
        ensures
            self.has(start_node_id) <==> r is Ok,
            r is Ok ==> r->Ok_0@ == self.edges_post(start_node_id),
            r is Err ==> r->Err_0 == TreeError::InvalidIdentifier,
    {
        if !self.contains(start_node_id) {
            return Err(TreeError::InvalidIdentifier);
        }
        proof { self.lemma_tree_facts(); }
        let mut a: Vec<NodeID> = Vec::new();
        let mut b: Vec<NodeID> = Vec::new();
        let mut c: Vec<(NodeID, NodeID)> = Vec::new();
        let mut d: Vec<(NodeID, NodeID)> = Vec::new();
        let mut e: Vec<NodeID> = Vec::new();
        self.walk(start_node_id, &mut a, &mut b, &mut c, &mut d, &mut e);
        assert(d@ =~= self.edges_post(start_node_id));
        Ok(d)
    }

    /// Pairs each id of `ids` with its node.
    fn with_nodes(&self, ids: &Vec<NodeID>) -> (r: Vec<(NodeID, NodeType)>)
        requires
            forall|k: int| 0 <= k < ids@.len() ==> self.has(#[trigger] ids@[k]),
        ensures
            r@.len() == ids@.len(),
            forall|k: int| 0 <= k < ids@.len() ==> #[trigger] r@[k] == (ids@[k], self.node(ids@[k])),
    {
        let mut out: Vec<(NodeID, NodeType)> = Vec::new();
        let mut k: usize = 0;
        while k < ids.len()
            invariant
                0 <= k <= ids@.len(),
                forall|j: int| 0 <= j < ids@.len() ==> self.has(#[trigger] ids@[j]),
                out@.len() == k,
                forall|j: int| 0 <= j < k ==> #[trigger] out@[j] == (ids@[j], self.node(ids@[j])),
            decreases ids@.len() - k,
        {
            assert(self.has(ids@[k as int]));
            match self.get_node(ids[k]) {
                Ok(n) => {
                    out.push((ids[k], n.duplicate()));
                },
                Err(_) => {
                    return out;
                },
            }
            k = k + 1;
        }
        out
    }

    /// The nodes without children at and below `node_id`, with their
    /// kinds and labels, in pre-order.
    pub fn get_leaves(&self, node_id: NodeID) -> (r: Result<Vec<(NodeID, NodeType)>, TreeError>)
        requires
            self.wf(),
        ensures
            self.has(node_id) <==> r is Ok,
            r is Ok ==> r->Ok_0@.len() == self.leaf_ids(node_id).len()
                && forall|k: int| 0 <= k < self.leaf_ids(node_id).len() ==> #[trigger] r->Ok_0@[k]
                    == (self.leaf_ids(node_id)[k], self.node(self.leaf_ids(node_id)[k])),
            r is Err ==> r->Err_0 == TreeError::InvalidIdentifier,
    {
        if !self.contains(node_id) {
            return Err(TreeError::InvalidIdentifier);
        }
        let mut ids: Vec<NodeID> = Vec::new();
        self.leaves_of_node(node_id, &mut ids);
        proof {
            self.lemma_tree_facts();
            self.lemma_leaf_ids_present(node_id);
            assert(ids@ =~= self.leaf_ids(node_id));
        }
        Ok(self.with_nodes(&ids))
    }

    /// The cluster of a node: the leaves at and below it.
    pub fn get_cluster(&self, node_id: NodeID) -> (r: Result<Vec<(NodeID, NodeType)>, TreeError>)
        requires
            self.wf(),
        ensures
            self.has(node_id) <==> r is Ok,
            r is Ok ==> r->Ok_0@.len() == self.leaf_ids(node_id).len()
                && forall|k: int| 0 <= k < self.leaf_ids(node_id).len() ==> #[trigger] r->Ok_0@[k]
                    == (self.leaf_ids(node_id)[k], self.node(self.leaf_ids(node_id)[k])),
            r is Err ==> r->Err_0 == TreeError::InvalidIdentifier,
    {
        self.get_leaves(node_id)
    }

    /// The split of the tree's leaves that the edge `(parent, child)`
    /// induces: the leaves below `child`, and the other leaves, each in
    /// pre-order.
    pub fn get_bipartition(&self, edge: (NodeID, NodeID)) -> (r: Result<(Vec<(NodeID, NodeType)>, Vec<(NodeID, NodeType)>), TreeError>)
        requires
            self.wf(),
        ensures
            (self.has(edge.1) && self.parent(edge.1) == Some(edge.0)) <==> r is Ok,
            r is Ok ==> {
                let (inside, outside) = r->Ok_0;
                let ins = self.leaf_ids(edge.1);
                let outs = self.leaf_ids(self.spec_root()).filter(|y: NodeID| !ins.contains(y));
                &&& inside@.len() == ins.len()
                &&& forall|k: int| 0 <= k < ins.len() ==> #[trigger] inside@[k] == (ins[k], self.node(ins[k]))
                &&& outside@.len() == outs.len()
                &&& forall|k: int| 0 <= k < outs.len() ==> #[trigger] outside@[k] == (outs[k], self.node(outs[k]))
            },
            r is Err ==> r->Err_0 == TreeError::InvalidIdentifier,
    {
        let (p, c) = edge;
        match self.get_node_parent(c) {
            Ok(Some(q)) => {
                if q != p {
                    return Err(TreeError::InvalidIdentifier);
                }
            },
            _ => {
                return Err(TreeError::InvalidIdentifier);
            },
        }
        proof {
            self.lemma_tree_facts();
            self.lemma_forest_facts();
            self.lemma_leaf_ids_present(c);
            self.lemma_leaf_ids_present(self.spec_root());
        }
        let mut ins: Vec<NodeID> = Vec::new();
        self.leaves_of_node(c, &mut ins);
        let mut all: Vec<NodeID> = Vec::new();
        self.leaves_of_node(self.get_root(), &mut all);
        let ghost pred = |y: NodeID| !ins@.contains(y);
        let mut outs: Vec<NodeID> = Vec::new();
        let mut k: usize = 0;
        while k < all.len()
            invariant
                0 <= k <= all@.len(),
                outs@ == all@.take(k as int).filter(pred),
                pred == (|y: NodeID| !ins@.contains(y)),
            decreases all@.len() - k,
        {
            let y = all[k];
            let mut j: usize = 0;
            let mut found = false;
            while j < ins.len()
                invariant
                    0 <= j <= ins@.len(),
                    found <==> exists|m: int| 0 <= m < j && ins@[m] == y,
                decreases ins@.len() - j,
            {
                if ins[j] == y {
                    found = true;
                }
                j = j + 1;
            }
            assert(all@.take(k + 1).drop_last() =~= all@.take(k as int));
            proof { reveal_with_fuel(Seq::filter, 1); }
            if !found {
                outs.push(y);
            }
            k = k + 1;
        }
        proof {
            assert(all@ =~= self.leaf_ids(self.spec_root()));
            assert(all@.take(all@.len() as int) =~= all@);
            let outs_s = all@.filter(pred);
            assert forall|m: int| 0 <= m < outs_s.len() implies self.has(#[trigger] outs_s[m]) by {
                assert(outs_s.contains(outs_s[m]));
                all@.lemma_filter_contains_rev(pred, outs_s[m]);
                assert(all@.contains(outs_s[m]));
                let q = choose|q: int| 0 <= q < all@.len() && all@[q] == outs_s[m];
                assert(self.has(all@[q]));
            }
            assert(outs@ =~= self.leaf_ids(self.spec_root()).filter(|y: NodeID| !self.leaf_ids(c).contains(y)));
        }
        Ok((self.with_nodes(&ins), self.with_nodes(&outs)))
    }

    proof fn lemma_leaves_from_grow(&self, x: NodeID, n: int, i: int)
        requires
            self.wf_forest(),
            self.has(x),
            0 <= i < n <= self.kids(x).len(),
        ensures
            forall|y: NodeID| self.leaf_ids(self.kids(x)[i].0).contains(y) ==> #[trigger] self.leaves_from(x, n).contains(y),
        decreases n,
    {
        self.lemma_descends(x, n - 1);
        let a = self.leaves_from(x, n - 1);
        let b = self.leaf_ids(self.kids(x)[n - 1].0);
        assert(self.leaves_from(x, n) == a + b);
        assert forall|y: NodeID| self.leaf_ids(self.kids(x)[i].0).contains(y) implies #[trigger] self.leaves_from(x, n).contains(y) by {
            if i == n - 1 {
                let k = choose|k: int| 0 <= k < b.len() && b[k] == y;
                assert((a + b)[a.len() + k] == y);
            } else {
                self.lemma_leaves_from_grow(x, n - 1, i);
                assert(a.contains(y));
                let k = choose|k: int| 0 <= k < a.len() && a[k] == y;
                assert((a + b)[k] == y);
            }
        }
    }

    /// The leaves below a node are leaves below each of its ancestors.
    pub proof fn lemma_leaves_nest(&self, c: NodeID, a: NodeID)
        requires
            self.wf(),
            self.has(c),
            self.is_desc(c, a),
        ensures
            forall|y: NodeID| self.leaf_ids(c).contains(y) ==> #[trigger] self.leaf_ids(a).contains(y),
        decreases self.rank_of(c),
    {
        self.lemma_tree_facts();
        self.lemma_forest_facts();
        if c != a {
            let p = self.parent(c)->Some_0;
            assert(self.child_ids(p).contains(c));
            let i = choose|i: int| 0 <= i < self.child_ids(p).len() && self.child_ids(p)[i] == c;
            assert(self.kids(p)[i].0 == c);
            let n = self.kids(p).len() as int;
            self.lemma_leaves_from_grow(p, n, i);
            assert(self.leaf_ids(p) == self.leaves_from(p, n));
            self.lemma_leaves_nest(p, a);
        }
    }
}

} // verus!
