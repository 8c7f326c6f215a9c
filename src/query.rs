use vstd::prelude::*;
use crate::node::{EdgeWeight, NodeID, NodeType, TreeError, UNITS_PER_WHOLE};
use crate::tree::RootedPhyloTree;

verus! {

/// A sequence of distinct ids below `n` is no longer than `n`.
pub proof fn lemma_bounded_distinct(s: Seq<NodeID>, n: nat)
    requires
        s.no_duplicates(),
        forall|i: int| 0 <= i < s.len() ==> #[trigger] s[i] < n,
    ensures
        s.len() <= n,
    decreases n,
{
    if n == 0 {
        if s.len() > 0 {
            assert(s[0] < n);
        }
    } else if s.contains((n - 1) as NodeID) {
        let k = choose|k: int| 0 <= k < s.len() && s[k] == (n - 1) as NodeID;
        let t = s.remove(k);
        assert forall|i: int| 0 <= i < t.len() implies #[trigger] t[i] < n - 1 by {
            if i < k {
                assert(t[i] == s[i]);
            } else {
                assert(t[i] == s[i + 1]);
            }
        }
        assert(t.no_duplicates()) by {
            assert forall|i: int, j: int| 0 <= i < j < t.len() implies t[i] != t[j] by {
                let a = if i < k { i } else { i + 1 };
                let b = if j < k { j } else { j + 1 };
                assert(t[i] == s[a]);
                assert(t[j] == s[b]);
            }
        }
        lemma_bounded_distinct(t, (n - 1) as nat);
    } else {
        assert forall|i: int| 0 <= i < s.len() implies #[trigger] s[i] < n - 1 by {
            assert(s[i] != (n - 1) as NodeID);
        }
        lemma_bounded_distinct(s, (n - 1) as nat);
    }
}

impl RootedPhyloTree {
    /// The proper ancestors of `x`, nearest first, ending at a node without
    /// parent.
    pub open spec fn ancestors(&self, x: NodeID) -> Seq<NodeID>
        decreases self.rank_of(x),
    {
        if self.has(x) && self.parent(x) is Some && self.rank_of(self.parent(x)->Some_0) < self.rank_of(x) {
            seq![self.parent(x)->Some_0] + self.ancestors(self.parent(x)->Some_0)
        } else {
            Seq::empty()
        }
    }

    /// Whether `a` is `x` or one of its ancestors.
    pub open spec fn is_desc(&self, x: NodeID, a: NodeID) -> bool
        decreases self.rank_of(x),
    {
        if x == a {
            true
        } else if self.has(x) && self.parent(x) is Some && self.rank_of(self.parent(x)->Some_0) < self.rank_of(x) {
            self.is_desc(self.parent(x)->Some_0, a)
        } else {
            false
        }
    }

    pub proof fn lemma_ancestors_shape(&self, x: NodeID)
        requires
            self.wf(),
            self.has(x),
        ensures
            forall|i: int| 0 <= i < self.ancestors(x).len() ==> self.has(#[trigger] self.ancestors(x)[i])
                && self.rank_of(self.ancestors(x)[i]) < self.rank_of(x),
            self.ancestors(x).no_duplicates(),
            x == self.spec_root() <==> self.ancestors(x).len() == 0,
            self.ancestors(x).len() > 0 ==> self.ancestors(x).last() == self.spec_root(),
            forall|a: NodeID| #[trigger] self.is_desc(x, a) <==> (a == x || self.ancestors(x).contains(a)),
        decreases self.rank_of(x),
    {
        self.lemma_tree_facts();
        self.lemma_forest_facts();
        let anc = self.ancestors(x);
        if x != self.spec_root() {
            let p = self.parent(x)->Some_0;
            self.lemma_ancestors_shape(p);
            let rest = self.ancestors(p);
            assert(anc == seq![p] + rest);
            assert forall|i: int| 0 <= i < anc.len() implies self.has(#[trigger] anc[i]) && self.rank_of(anc[i]) < self.rank_of(x) by {
                if i > 0 {
                    assert(anc[i] == rest[i - 1]);
                }
            }
            assert(anc.no_duplicates()) by {
                assert forall|i: int, j: int| 0 <= i < j < anc.len() implies anc[i] != anc[j] by {
                    if i > 0 {
                        assert(anc[i] == rest[i - 1]);
                    }
                    assert(anc[j] == rest[j - 1]);
                }
            }
            if rest.len() > 0 {
                assert(anc.last() == rest.last());
            }
            assert forall|a: NodeID| #[trigger] self.is_desc(x, a) <==> (a == x || anc.contains(a)) by {
                if anc.contains(a) && a != p {
                    let k = choose|k: int| 0 <= k < anc.len() && anc[k] == a;
                    assert(rest[k - 1] == a);
                }
                if rest.contains(a) {
                    let k = choose|k: int| 0 <= k < rest.len() && rest[k] == a;
                    assert(anc[k + 1] == a);
                }
                assert(anc[0] == p);
                if a != x {
                    assert(self.is_desc(x, a) == self.is_desc(p, a));
                }
            }
        } else {
            assert(anc.len() == 0);
        }
    }

    /// The proper ancestors of a node, nearest first and the root last.
    pub fn get_ancestors_pre(&self, node_id: NodeID) -> (r: Result<Vec<NodeID>, TreeError>)
        requires
            self.wf(),
        ensures
            self.has(node_id) <==> r is Ok,
            r is Ok ==> r->Ok_0@ == self.ancestors(node_id),
            r is Err ==> r->Err_0 == TreeError::InvalidIdentifier,
    {
        if !self.contains(node_id) {
            return Err(TreeError::InvalidIdentifier);
        }
        proof { self.lemma_tree_facts(); self.lemma_forest_facts(); }
        let mut out: Vec<NodeID> = Vec::new();
        let mut cur = node_id;
        loop
            invariant
                self.wf(),
                self.wf_forest(),
                self.has(cur),
                self.has(node_id),
                out@ + self.ancestors(cur) == self.ancestors(node_id),
            decreases self.rank_of(cur),
        {
            proof { self.lemma_forest_facts(); }
            match self.get_node_parent(cur) {
                Ok(Some(p)) => {
                    assert(self.ancestors(cur) == seq![p] + self.ancestors(p));
                    out.push(p);
                    assert(out@ + self.ancestors(p) =~= self.ancestors(node_id));
                    cur = p;
                },
                _ => {
                    assert(out@ =~= self.ancestors(node_id));
                    return Ok(out);
                },
            }
        }
    }

    /// The weight recorded on the edge from `p` to its child `x`.
    pub open spec fn weight_to(&self, p: NodeID, x: NodeID) -> Option<EdgeWeight> {
        let i = choose|i: int| 0 <= i < self.kids(p).len() && self.kids(p)[i].0 == x;
        self.kids(p)[i].1
    }

    /// In a tree, the weight recorded for a child is that of its one entry.
    pub proof fn lemma_weight_at(&self, q: NodeID, i: int)
        requires
            self.wf(),
            self.has(q),
            0 <= i < self.kids(q).len(),
        ensures
            self.weight_to(q, self.kids(q)[i].0) == self.kids(q)[i].1,
    {
        self.lemma_tree_facts();
        self.lemma_forest_facts();
        let x = self.kids(q)[i].0;
        let j = choose|j: int| 0 <= j < self.kids(q).len() && self.kids(q)[j].0 == x;
        if j != i {
            if j < i {
                assert(self.kids(q)[j].0 != self.kids(q)[i].0);
            } else {
                assert(self.kids(q)[i].0 != self.kids(q)[j].0);
            }
        }
    }

    /// What one edge adds to a distance, in billionths: its weight (none
    /// counts as zero) when weighted, else one whole unit.
    pub open spec fn edge_length(&self, p: NodeID, x: NodeID, weighted: bool) -> int {
        if weighted {
            match self.weight_to(p, x) {
                Some(w) => w.units as int,
                None => 0,
            }
        } else {
            UNITS_PER_WHOLE as int
        }
    }

    /// The length of the path from `x` up to its ancestor `a`.
    pub open spec fn path_length(&self, x: NodeID, a: NodeID, weighted: bool) -> int
        decreases self.rank_of(x),
    {
        if x == a {
            0
        } else if self.has(x) && self.parent(x) is Some && self.rank_of(self.parent(x)->Some_0) < self.rank_of(x) {
            self.edge_length(self.parent(x)->Some_0, x, weighted) + self.path_length(self.parent(x)->Some_0, a, weighted)
        } else {
            0
        }
    }

    /// Whether `m` is an ancestor of, or equal to, every node of `ns`.
    pub open spec fn is_common_or_self(&self, ns: Seq<NodeID>, m: NodeID) -> bool {
        forall|i: int| 0 <= i < ns.len() ==> self.is_desc(#[trigger] ns[i], m)
    }

    /// Whether `m` is the deepest node above, or equal to, every node of `ns`.
    pub open spec fn is_deepest_common_or_self(&self, ns: Seq<NodeID>, m: NodeID) -> bool {
        &&& self.has(m)
        &&& self.is_common_or_self(ns, m)
        &&& forall|y: NodeID| #[trigger] self.is_common_or_self(ns, y) ==> self.is_desc(m, y)
    }

    /// Whether `m` lies on the ancestor path of every node of `ns`.
    pub open spec fn is_common_ancestor(&self, ns: Seq<NodeID>, m: NodeID) -> bool {
        forall|i: int| 0 <= i < ns.len() ==> self.ancestors(#[trigger] ns[i]).contains(m)
    }

    /// Whether `m` is the most recent common ancestor of `ns`: on the
    /// ancestor path of each of them, and below every other node that is.
    pub open spec fn is_mrca(&self, ns: Seq<NodeID>, m: NodeID) -> bool {
        &&& self.has(m)
        &&& self.is_common_ancestor(ns, m)
        &&& forall|y: NodeID| #[trigger] self.is_common_ancestor(ns, y) ==> y == m || self.ancestors(m).contains(y)
    }

    pub proof fn lemma_desc_trans(&self, x: NodeID, a: NodeID, b: NodeID)
        requires
            self.is_desc(x, a),
            self.is_desc(a, b),
        ensures
            self.is_desc(x, b),
        decreases self.rank_of(x),
    {
        if x != a && x != b {
            self.lemma_desc_trans(self.parent(x)->Some_0, a, b);
        }
    }

    pub proof fn lemma_desc_root(&self, x: NodeID)
        requires
            self.wf(),
            self.has(x),
        ensures
            self.is_desc(x, self.spec_root()),
    {
        self.lemma_ancestors_shape(x);
        if x != self.spec_root() {
            assert(self.ancestors(x)[self.ancestors(x).len() - 1] == self.spec_root());
        }
    }

    pub proof fn lemma_desc_rank(&self, x: NodeID, a: NodeID)
        requires
            self.is_desc(x, a),
        ensures
            x == a || self.rank_of(a) < self.rank_of(x),
        decreases self.rank_of(x),
    {
        if x != a {
            self.lemma_desc_rank(self.parent(x)->Some_0, a);
        }
    }

    /// Whether `a` is `x` or one of its ancestors.
    pub fn is_at_or_below(&self, x: NodeID, a: NodeID) -> (r: bool)
        requires
            self.wf(),
            self.has(x),
        ensures
            r == self.is_desc(x, a),
    {
        proof { self.lemma_tree_facts(); }
        let mut cur = x;
        loop
            invariant
                self.wf(),
                self.wf_forest(),
                self.has(cur),
                self.is_desc(x, a) == self.is_desc(cur, a),
            decreases self.rank_of(cur),
        {
            proof { self.lemma_forest_facts(); }
            if cur == a {
                return true;
            }
            match self.get_node_parent(cur) {
                Ok(Some(p)) => {
                    cur = p;
                },
                _ => {
                    return false;
                },
            }
        }
    }

    /// The deepest node that is an ancestor of, or equal to, both `a` and `b`.
    fn common_ancestor(&self, a: NodeID, b: NodeID) -> (m: NodeID)
        requires
            self.wf(),
            self.has(a),
            self.has(b),
        ensures
            self.has(m),
            self.is_desc(a, m),
            self.is_desc(b, m),
            forall|y: NodeID| #[trigger] self.is_desc(a, y) && self.is_desc(b, y) ==> self.is_desc(m, y),
    {
        proof { self.lemma_tree_facts(); }
        let mut cur = a;
        loop
            invariant
                self.wf(),
                self.wf_forest(),
                self.has(cur),
                self.has(b),
                self.is_desc(a, cur),
                forall|y: NodeID| #[trigger] self.is_desc(a, y) && self.is_desc(b, y) ==> self.is_desc(cur, y),
            decreases self.rank_of(cur),
        {
            proof { self.lemma_forest_facts(); self.lemma_tree_facts(); }
            if self.is_at_or_below(b, cur) {
                return cur;
            }
            proof { self.lemma_desc_root(b); }
            match self.get_node_parent(cur) {
                Ok(Some(p)) => {
                    proof {
                        assert(self.is_desc(p, p));
                        assert(self.is_desc(cur, p));
                        self.lemma_desc_trans(a, cur, p);
                        assert forall|y: NodeID| #[trigger] self.is_desc(a, y) && self.is_desc(b, y) implies self.is_desc(p, y) by {
                            assert(self.is_desc(cur, y));
                            assert(y != cur);
                        }
                    }
                    cur = p;
                },
                _ => {
                    assert(cur == self.spec_root());
                    return cur;
                },
            }
        }
    }

    /// The deepest node that is each of the given nodes or lies above each.
    fn deepest_common_or_self(&self, node_id_list: &Vec<NodeID>) -> (m: NodeID)
        requires
            self.wf(),
            node_id_list@.len() > 0,
            forall|i: int| 0 <= i < node_id_list@.len() ==> self.has(#[trigger] node_id_list@[i]),
        ensures
            self.is_deepest_common_or_self(node_id_list@, m),
    {
        let ns = node_id_list;
        let mut m = ns[0];
        proof {
            let pre = ns@.take(1);
            assert(pre[0] == m);
            assert(self.is_desc(m, m));
            assert forall|y: NodeID| #[trigger] self.is_common_or_self(pre, y) implies self.is_desc(m, y) by {
                assert(self.is_desc(pre[0], y));
            }
        }
        let mut j: usize = 1;
        while j < ns.len()
            invariant
                self.wf(),
                1 <= j <= ns@.len(),
                ns@ == node_id_list@,
                forall|i: int| 0 <= i < ns@.len() ==> self.has(#[trigger] ns@[i]),
                self.is_deepest_common_or_self(ns@.take(j as int), m),
            decreases ns@.len() - j,
        {
            let x = ns[j];
            let m2 = self.common_ancestor(m, x);
            proof {
                let pre = ns@.take(j as int);
                let pre2 = ns@.take(j + 1);
                assert forall|i: int| 0 <= i < pre2.len() implies self.is_desc(#[trigger] pre2[i], m2) by {
                    if i < j {
                        assert(pre2[i] == pre[i]);
                        self.lemma_desc_trans(pre[i], m, m2);
                    }
                }
                assert forall|y: NodeID| #[trigger] self.is_common_or_self(pre2, y) implies self.is_desc(m2, y) by {
                    assert forall|i: int| 0 <= i < pre.len() implies self.is_desc(#[trigger] pre[i], y) by {
                        assert(pre2[i] == pre[i]);
                    }
                    assert(self.is_common_or_self(pre, y));
                    assert(pre2[j as int] == x);
                }
            }
            m = m2;
            j = j + 1;
        }
        assert(ns@.take(ns@.len() as int) =~= ns@);
        m
    }

    /// The most recent common ancestor of the given nodes: the first node
    /// that the ancestor paths of all of them share. A node is not on its
    /// own ancestor path, so a list that holds the root has none.
    pub fn get_mrca(&self, node_id_list: &Vec<NodeID>) -> (r: Result<NodeID, TreeError>)
        requires
            self.wf(),
        ensures
            node_id_list@.len() == 0 ==> r == Err::<NodeID, TreeError>(TreeError::EmptyNodeSet),
            node_id_list@.len() > 0 && (exists|i: int| 0 <= i < node_id_list@.len() && !self.has(#[trigger] node_id_list@[i]))
                ==> r == Err::<NodeID, TreeError>(TreeError::InvalidIdentifier),
            node_id_list@.len() > 0 && (forall|i: int| 0 <= i < node_id_list@.len() ==> self.has(#[trigger] node_id_list@[i]))
                && node_id_list@.contains(self.spec_root())
                ==> r == Err::<NodeID, TreeError>(TreeError::NoCommonAncestor),
            node_id_list@.len() > 0 && (forall|i: int| 0 <= i < node_id_list@.len() ==> self.has(#[trigger] node_id_list@[i]))
                && !node_id_list@.contains(self.spec_root())
                ==> r is Ok && self.is_mrca(node_id_list@, r->Ok_0),
    {
        let ns = node_id_list;
        if ns.len() == 0 {
            return Err(TreeError::EmptyNodeSet);
        }
        let mut k: usize = 0;
        while k < ns.len()
            invariant
                0 <= k <= ns@.len(),
                ns@ == node_id_list@,
                ns@.len() > 0,
                forall|i: int| 0 <= i < k ==> self.has(#[trigger] ns@[i]),
            decreases ns@.len() - k,
        {
            if !self.contains(ns[k]) {
                assert(!self.has(ns@[k as int]));
                return Err(TreeError::InvalidIdentifier);
            }
            k = k + 1;
        }
        proof { self.lemma_tree_facts(); }
        let mut ps: Vec<NodeID> = Vec::new();
        let mut k: usize = 0;
        while k < ns.len()
            invariant
                self.wf(),
                self.wf_forest(),
                0 <= k <= ns@.len(),
                ns@ == node_id_list@,
                forall|i: int| 0 <= i < ns@.len() ==> self.has(#[trigger] ns@[i]),
                forall|i: int| 0 <= i < k ==> ns@[i] != self.spec_root(),
                ps@.len() == k,
                forall|i: int| 0 <= i < k ==> self.parent(ns@[i]) == Some(#[trigger] ps@[i]) && self.has(ps@[i]),
            decreases ns@.len() - k,
        {
            proof { self.lemma_forest_facts(); }
            match self.get_node_parent(ns[k]) {
                Ok(Some(p)) => {
                    ps.push(p);
                },
                _ => {
                    proof {
                        self.lemma_tree_facts();
                        assert(ns@[k as int] == self.spec_root());
                    }
                    return Err(TreeError::NoCommonAncestor);
                },
            }
            k = k + 1;
        }
        let m = self.deepest_common_or_self(&ps);
        proof {
            self.lemma_forest_facts();
            assert(!ns@.contains(self.spec_root()));
            assert forall|i: int| 0 <= i < ns@.len() implies self.ancestors(#[trigger] ns@[i]).contains(m) by {
                assert(self.is_desc(ps@[i], m));
                self.lemma_proper_ancestor(ns@[i], m);
            }
            assert forall|y: NodeID| #[trigger] self.is_common_ancestor(ns@, y) implies y == m || self.ancestors(m).contains(y) by {
                assert forall|i: int| 0 <= i < ps@.len() implies self.is_desc(#[trigger] ps@[i], y) by {
                    assert(self.ancestors(ns@[i]).contains(y));
                    self.lemma_proper_ancestor(ns@[i], y);
                }
                assert(self.is_common_or_self(ps@, y));
                assert(self.is_desc(m, y));
                self.lemma_ancestors_shape(m);
            }
        }
        Ok(m)
    }

    /// A node's ancestor path holds exactly the nodes at or above its parent.
    pub proof fn lemma_proper_ancestor(&self, x: NodeID, a: NodeID)
        requires
            self.wf(),
            self.has(x),
            self.parent(x) is Some,
        ensures
            self.ancestors(x).contains(a) <==> self.is_desc(self.parent(x)->Some_0, a),
    {
        self.lemma_tree_facts();
        self.lemma_forest_facts();
        let p = self.parent(x)->Some_0;
        self.lemma_ancestors_shape(x);
        assert(self.is_desc(x, a) ==> self.is_desc(x, a));
        if a == x {
            assert(!self.ancestors(x).contains(x)) by {
                if self.ancestors(x).contains(x) {
                    let k = choose|k: int| 0 <= k < self.ancestors(x).len() && self.ancestors(x)[k] == x;
                    assert(self.rank_of(self.ancestors(x)[k]) < self.rank_of(x));
                }
            }
            if self.is_desc(p, x) {
                self.lemma_desc_rank(p, x);
            }
        } else {
            assert(self.is_desc(x, a) == self.is_desc(p, a));
        }
    }

    /// The path length from `node` up to `ancestor`, which must lie on its
    /// ancestor path (so not be `node` itself), in billionths: the sum
    /// of the edge weights on it (an edge without weight adds nothing), or
    /// one whole unit per edge when `weighted` is false.
    pub fn distance_from_ancestor(&self, node: NodeID, ancestor: NodeID, weighted: bool) -> (r: Result<u128, TreeError>)
        requires
            self.wf(),
        ensures
            !(self.has(node) && self.has(ancestor)) ==> r == Err::<u128, TreeError>(TreeError::InvalidIdentifier),
            self.has(node) && self.has(ancestor) && !self.ancestors(node).contains(ancestor)
                ==> r == Err::<u128, TreeError>(TreeError::NotAnAncestor),
            self.has(node) && self.has(ancestor) && self.ancestors(node).contains(ancestor)
                ==> r == Ok::<u128, TreeError>(self.path_length(node, ancestor, weighted) as u128),
    {
        if !self.contains(node) || !self.contains(ancestor) {
            return Err(TreeError::InvalidIdentifier);
        }
        proof {
            self.lemma_ancestors_shape(node);
            if self.ancestors(node).contains(node) {
                let k = choose|k: int| 0 <= k < self.ancestors(node).len() && self.ancestors(node)[k] == node;
                assert(self.rank_of(self.ancestors(node)[k]) < self.rank_of(node));
            }
        }
        if node == ancestor || !self.is_at_or_below(node, ancestor) {
            return Err(TreeError::NotAnAncestor);
        }
        let id_count = self.slot_count();
        proof {
            assert(self.next_id() == id_count as nat);
            self.lemma_tree_facts();
            self.lemma_forest_facts();
            self.lemma_ancestors_shape(node);
            let anc = self.ancestors(node);
            assert forall|i: int| 0 <= i < anc.len() implies #[trigger] anc[i] < self.next_id() by {
                assert(self.has(anc[i]));
            }
            lemma_bounded_distinct(anc, self.next_id());
        }
        let mut cur = node;
        let mut total: u128 = 0;
        let ghost steps: int = 0;
        while cur != ancestor
            invariant
                self.wf(),
                self.wf_forest(),
                self.has(cur),
                self.is_desc(cur, ancestor),
                total + self.path_length(cur, ancestor, weighted) == self.path_length(node, ancestor, weighted),
                0 <= steps,
                steps + self.ancestors(cur).len() == self.ancestors(node).len(),
                self.ancestors(node).len() <= self.next_id() <= usize::MAX,
                total <= steps * 0xffff_ffff_ffff_ffff,
            decreases self.rank_of(cur),
        {
            proof {
                self.lemma_forest_facts();
                self.lemma_tree_facts();
                self.lemma_ancestors_shape(cur);
            }
            let p = match self.get_node_parent(cur) {
                Ok(Some(p)) => p,
                _ => {
                    return Err(TreeError::BrokenAncestorChain);
                },
            };
            let kids = match self.get_node_children(p) {
                Ok(v) => v,
                Err(e) => {
                    return Err(e);
                },
            };
            let mut i: usize = 0;
            while i < kids.len() && kids[i].0 != cur
                invariant
                    0 <= i <= kids@.len(),
                    forall|k: int| 0 <= k < i ==> (#[trigger] kids@[k]).0 != cur,
                decreases kids@.len() - i,
            {
                i = i + 1;
            }
            if i == kids.len() {
                proof {
                    assert(self.child_ids(p).contains(cur));
                    let k = choose|k: int| 0 <= k < self.child_ids(p).len() && self.child_ids(p)[k] == cur;
                    assert(kids@[k].0 == cur);
                }
                return Err(TreeError::BrokenAncestorChain);
            }
            proof {
                let k = choose|k: int| 0 <= k < self.kids(p).len() && self.kids(p)[k].0 == cur;
                assert(k == i);
                assert(self.ancestors(cur) == seq![p] + self.ancestors(p));
            }
            let step: u64 = if weighted {
                match kids[i].1 {
                    Some(w) => w.units,
                    None => 0,
                }
            } else {
                UNITS_PER_WHOLE
            };
            assert(steps + 1 <= usize::MAX);
            assert(total + step <= (steps + 1) * 0xffff_ffff_ffff_ffff) by (nonlinear_arith)
                requires total <= steps * 0xffff_ffff_ffff_ffff, step <= 0xffff_ffff_ffff_ffffu64;
            assert((steps + 1) * 0xffff_ffff_ffff_ffff <= 0xffff_ffff_ffff_ffff * 0xffff_ffff_ffff_ffff) by (nonlinear_arith)
                requires steps + 1 <= 0xffff_ffff_ffff_ffff;
            total = total + step as u128;
            proof { steps = steps + 1; }
            cur = p;
        }
        Ok(total)
    }

    /// The ids below `n` that the tree holds, in increasing order.
    pub open spec fn ids_upto(&self, n: nat) -> Seq<NodeID>
        decreases n,
    {
        if n == 0 {
            Seq::empty()
        } else if n - 1 <= usize::MAX && self.has((n - 1) as NodeID) {
            self.ids_upto((n - 1) as nat).push((n - 1) as NodeID)
        } else {
            self.ids_upto((n - 1) as nat)
        }
    }

    /// Every id that the tree holds, in increasing order.
    pub open spec fn all_ids(&self) -> Seq<NodeID> {
        self.ids_upto(self.next_id())
    }

    fn collect_ids(&self) -> (r: Vec<NodeID>)
        requires
            self.wf(),
        ensures
            r@ == self.all_ids(),
    {
        let n = self.slot_count();
        let mut out: Vec<NodeID> = Vec::new();
        let mut x: usize = 0;
        while x < n
            invariant
                n == self.next_id(),
                0 <= x <= n,
                out@ == self.ids_upto(x as nat),
            decreases n - x,
        {
            if self.contains(x) {
                out.push(x);
            }
            x = x + 1;
        }
        out
    }

    /// Every node with its kind and label, by increasing id.
    pub fn get_nodes(&self) -> (r: Vec<(NodeID, NodeType)>)
        requires
            self.wf(),
        ensures
            r@.len() == self.all_ids().len(),
            forall|k: int| 0 <= k < r@.len() ==> #[trigger] r@[k] == (self.all_ids()[k], self.node(self.all_ids()[k])),
    {
        let ids = self.collect_ids();
        let mut out: Vec<(NodeID, NodeType)> = Vec::new();
        let mut k: usize = 0;
        while k < ids.len()
            invariant
                ids@ == self.all_ids(),
                0 <= k <= ids@.len(),
                out@.len() == k,
                forall|j: int| 0 <= j < k ==> #[trigger] out@[j] == (ids@[j], self.node(ids@[j])),
            decreases ids@.len() - k,
        {
            if let Ok(n) = self.get_node(ids[k]) {
                out.push((ids[k], n.duplicate()));
            } else {
                proof { self.lemma_ids_present(self.next_id(), k as int); }
                return out;
            }
            k = k + 1;
        }
        out
    }

    /// Every node with its child list, by increasing id.
    pub fn get_children(&self) -> (r: Vec<(NodeID, Vec<(NodeID, Option<EdgeWeight>)>)>)
        requires
            self.wf(),
        ensures
            r@.len() == self.all_ids().len(),
            forall|k: int| 0 <= k < r@.len() ==> (#[trigger] r@[k]).0 == self.all_ids()[k]
                && r@[k].1@ == self.kids(self.all_ids()[k]),
    {
        let ids = self.collect_ids();
        let mut out: Vec<(NodeID, Vec<(NodeID, Option<EdgeWeight>)>)> = Vec::new();
        let mut k: usize = 0;
        while k < ids.len()
            invariant
                ids@ == self.all_ids(),
                0 <= k <= ids@.len(),
                out@.len() == k,
                forall|j: int| 0 <= j < k ==> (#[trigger] out@[j]).0 == ids@[j] && out@[j].1@ == self.kids(ids@[j]),
            decreases ids@.len() - k,
        {
            if let Ok(v) = self.get_node_children(ids[k]) {
                let mut copy: Vec<(NodeID, Option<EdgeWeight>)> = Vec::new();
                let mut i: usize = 0;
                while i < v.len()
                    invariant
                        0 <= i <= v@.len(),
                        copy@ == v@.take(i as int),
                    decreases v@.len() - i,
                {
                    copy.push(v[i]);
                    i = i + 1;
                    assert(copy@ =~= v@.take(i as int));
                }
                assert(v@.take(v@.len() as int) =~= v@);
                out.push((ids[k], copy));
            } else {
                proof { self.lemma_ids_present(self.next_id(), k as int); }
                return out;
            }
            k = k + 1;
        }
        out
    }

    /// Every node with its parent link, by increasing id.
    pub fn get_parents(&self) -> (r: Vec<(NodeID, Option<NodeID>)>)
        requires
            self.wf(),
        ensures
            r@.len() == self.all_ids().len(),
            forall|k: int| 0 <= k < r@.len() ==> #[trigger] r@[k] == (self.all_ids()[k], self.parent(self.all_ids()[k])),
    {
        let ids = self.collect_ids();
        let mut out: Vec<(NodeID, Option<NodeID>)> = Vec::new();
        let mut k: usize = 0;
        while k < ids.len()
            invariant
                ids@ == self.all_ids(),
                0 <= k <= ids@.len(),
                out@.len() == k,
                forall|j: int| 0 <= j < k ==> #[trigger] out@[j] == (ids@[j], self.parent(ids@[j])),
            decreases ids@.len() - k,
        {
            if let Ok(p) = self.get_node_parent(ids[k]) {
                out.push((ids[k], p));
            } else {
                proof { self.lemma_ids_present(self.next_id(), k as int); }
                return out;
            }
            k = k + 1;
        }
        out
    }

    pub proof fn lemma_ids_present(&self, n: nat, k: int)
        requires
            0 <= k < self.ids_upto(n).len(),
        ensures
            self.has(self.ids_upto(n)[k]),
        decreases n,
    {
        if n > 0 {
            let m = (n - 1) as nat;
            if k < self.ids_upto(m).len() {
                self.lemma_ids_present(m, k);
            }
        }
    }
}

} // verus!
