use vstd::prelude::*;
use crate::node::{EdgeWeight, NodeID, NodeType, TreeError};

verus! {

/// What the tree stores for one node id.
#[derive(Clone, Debug)]
pub struct Slot {
    pub node: NodeType,
    pub parent: Option<NodeID>,
    pub children: Vec<(NodeID, Option<EdgeWeight>)>,
}

/// A tree without a root: a shape only, with no operations.
pub struct UnrootedPhyloTree {
    pub nodes: Vec<Option<NodeType>>,
    pub neighbours: Vec<Vec<(Option<EdgeWeight>, NodeID)>>,
    pub leaves: Vec<(NodeID, String)>,
}

/// A rooted tree kept as an arena indexed by node id: slot `i` holds node `i`
/// when the tree has it.
pub struct RootedPhyloTree {
    pub(crate) root: NodeID,
    pub(crate) slots: Vec<Option<Slot>>,
    /// A ghost rank that grows strictly from parent to child: it witnesses
    /// that parent links never form a cycle.
    pub(crate) rank: Ghost<Map<NodeID, nat>>,
    pub(crate) bound: Ghost<nat>,
}

/// A parent link with its id moved by `d`.
pub open spec fn shift_parent(p: Option<NodeID>, d: int) -> Option<NodeID> {
    match p {
        Some(q) => Some((q + d) as NodeID),
        None => None,
    }
}

/// How many slots hold a node.
pub open spec fn count_some(s: Seq<Option<Slot>>) -> nat
    decreases s.len(),
{
    if s.len() == 0 {
        0
    } else {
        count_some(s.drop_last()) + if s.last() is Some { 1nat } else { 0nat }
    }
}

proof fn lemma_count_drop(s: Seq<Option<Slot>>, s2: Seq<Option<Slot>>, x: int)
    requires
        s.len() == s2.len(),
        0 <= x < s.len(),
        s[x] is Some,
        s2[x] is None,
        forall|y: int| 0 <= y < s.len() && y != x ==> (#[trigger] s[y] is Some <==> s2[y] is Some),
    ensures
        count_some(s2) + 1 == count_some(s),
    decreases s.len(),
{
    if x < s.len() - 1 {
        lemma_count_drop(s.drop_last(), s2.drop_last(), x);
        assert(s[s.len() - 1] is Some <==> s2[s.len() - 1] is Some);
    } else {
        lemma_count_same(s.drop_last(), s2.drop_last());
    }
}

proof fn lemma_count_same(s: Seq<Option<Slot>>, s2: Seq<Option<Slot>>)
    requires
        s.len() == s2.len(),
        forall|y: int| 0 <= y < s.len() ==> (#[trigger] s[y] is Some <==> s2[y] is Some),
    ensures
        count_some(s2) == count_some(s),
    decreases s.len(),
{
    if s.len() > 0 {
        lemma_count_same(s.drop_last(), s2.drop_last());
        assert(s[s.len() - 1] is Some <==> s2[s.len() - 1] is Some);
    }
}

/// A child list in which each entry for `child` carries the weight `w`.
pub open spec fn reweighted(s: Seq<(NodeID, Option<EdgeWeight>)>, child: NodeID, w: Option<EdgeWeight>) -> Seq<(NodeID, Option<EdgeWeight>)> {
    s.map_values(|e: (NodeID, Option<EdgeWeight>)| if e.0 == child { (e.0, w) } else { e })
}

/// A child list with each child id moved by `d`, weights and order kept.
pub open spec fn shift_kids(s: Seq<(NodeID, Option<EdgeWeight>)>, d: int) -> Seq<(NodeID, Option<EdgeWeight>)> {
    s.map_values(|e: (NodeID, Option<EdgeWeight>)| ((e.0 + d) as NodeID, e.1))
}

impl RootedPhyloTree {
    pub closed spec fn spec_root(&self) -> NodeID {
        self.root
    }

    pub closed spec fn has(&self, x: NodeID) -> bool {
        x < self.slots@.len() && self.slots@[x as int] is Some
    }

    pub closed spec fn slot(&self, x: NodeID) -> Slot {
        self.slots@[x as int]->Some_0
    }

    pub open spec fn node(&self, x: NodeID) -> NodeType {
        self.slot(x).node
    }

    pub open spec fn parent(&self, x: NodeID) -> Option<NodeID> {
        self.slot(x).parent
    }

    pub open spec fn kids(&self, x: NodeID) -> Seq<(NodeID, Option<EdgeWeight>)> {
        self.slot(x).children@
    }

    pub open spec fn child_ids(&self, x: NodeID) -> Seq<NodeID> {
        self.kids(x).map_values(|e: (NodeID, Option<EdgeWeight>)| e.0)
    }

    pub closed spec fn rank_of(&self, x: NodeID) -> nat {
        self.rank@[x]
    }

    /// Every rank lies below this bound.
    pub closed spec fn rank_bound(&self) -> nat {
        self.bound@
    }

    /// The id that the next added node gets.
    pub closed spec fn next_id(&self) -> nat {
        self.slots@.len()
    }

    /// The node kinds and labels, by id.
    pub open spec fn nodes_map(&self) -> Map<NodeID, NodeType> {
        Map::new(|x: NodeID| self.has(x), |x: NodeID| self.node(x))
    }

    /// The parent links, by id.
    pub open spec fn parents_map(&self) -> Map<NodeID, Option<NodeID>> {
        Map::new(|x: NodeID| self.has(x), |x: NodeID| self.parent(x))
    }

    /// The ordered child lists with edge weights, by id.
    pub open spec fn children_map(&self) -> Map<NodeID, Seq<(NodeID, Option<EdgeWeight>)>> {
        Map::new(|x: NodeID| self.has(x), |x: NodeID| self.kids(x))
    }

    /// Consistency of a forest under construction: links agree in both
    /// directions, each child appears once, and rank grows along each link.
    pub closed spec fn wf_forest(&self) -> bool {
        &&& self.has(self.root)
        &&& self.parent(self.root) is None
        &&& forall|x: NodeID| #[trigger] self.has(x) ==> self.rank@.dom().contains(x) && self.rank@[x] < self.bound@
        &&& forall|x: NodeID| #[trigger] self.has(x) && self.parent(x) is Some ==> {
            let p = self.parent(x)->Some_0;
            &&& self.has(p)
            &&& self.child_ids(p).contains(x)
            &&& self.rank@[p] < self.rank@[x]
        }
        &&& forall|p: NodeID, i: int| self.has(p) && 0 <= i < self.kids(p).len() ==> {
            let c = #[trigger] self.kids(p)[i];
            &&& self.has(c.0)
            &&& self.parent(c.0) == Some(p)
        }
        &&& forall|p: NodeID, i: int, j: int| self.has(p) && 0 <= i < j < self.kids(p).len()
            ==> #[trigger] self.kids(p)[i].0 != #[trigger] self.kids(p)[j].0
    }

    /// A tree: a consistent forest in which every node but the root has a
    /// parent.
    pub closed spec fn wf(&self) -> bool {
        &&& self.wf_forest()
        &&& forall|x: NodeID| #[trigger] self.has(x) && x != self.root ==> self.parent(x) is Some
    }

    /// A tree that holds the root alone, an unlabelled internal node with id 0.
    pub fn new() -> (t: Self)
        ensures
            t.wf(),
            t.wf_forest(),
            t.parent(0) is None,
            t.spec_root() == 0,
            t.next_id() == 1,
            t.has(0),
            forall|x: NodeID| t.has(x) <==> x == 0,
            t.node(0) == NodeType::Internal(None),
            t.kids(0).len() == 0,
    {
        let s = Slot { node: NodeType::Internal(None), parent: None, children: Vec::new() };
        let mut slots: Vec<Option<Slot>> = Vec::new();
        slots.push(Some(s));
        let t = RootedPhyloTree { root: 0, slots, rank: Ghost(Map::empty().insert(0usize, 0nat)), bound: Ghost(1nat) };
        assert(t.has(0));
        t
    }

    fn take_slot(&mut self, x: NodeID) -> (s: Slot)
        requires
            old(self).has(x),
        ensures
            s == old(self).slot(x),
            final(self).slots@ == old(self).slots@.update(x as int, None),
            final(self).root == old(self).root,
            final(self).rank == old(self).rank,
            final(self).bound == old(self).bound,
    {
        let mut tmp: Option<Slot> = None;
        std::mem::swap(&mut tmp, &mut self.slots[x]);
        tmp.unwrap()
    }

    fn put_slot(&mut self, x: NodeID, s: Slot)
        requires
            x < old(self).slots@.len(),
        ensures
            final(self).slots@ == old(self).slots@.update(x as int, Some(s)),
            final(self).root == old(self).root,
            final(self).rank == old(self).rank,
            final(self).bound == old(self).bound,
    {
        self.slots.set(x, Some(s));
    }

    /// Both trees hold the same ids, with the same ranks and root.
    pub open spec fn same_frame(&self, other: &Self) -> bool {
        &&& self.spec_root() == other.spec_root()
        &&& self.next_id() == other.next_id()
        &&& forall|x: NodeID| #[trigger] self.has(x) == other.has(x)
        &&& forall|x: NodeID| other.has(x) ==> #[trigger] self.rank_of(x) == other.rank_of(x)
    }

    /// Every slot other than those of `a` and `b` is as in `other`.
    pub open spec fn same_except(&self, other: &Self, a: NodeID, b: NodeID) -> bool {
        forall|x: NodeID| #[trigger] other.has(x) && x != a && x != b ==> self.slot(x) == other.slot(x)
    }

    /// Adds a node with no parent and no children, under the next id.
    pub fn add_node(&mut self) -> (r: NodeID)
        requires
            old(self).wf_forest(),
            old(self).next_id() < usize::MAX,
        ensures
            final(self).wf_forest(),
            r == old(self).next_id(),
            final(self).next_id() == old(self).next_id() + 1,
            final(self).spec_root() == old(self).spec_root(),
            final(self).has(r),
            final(self).node(r) == NodeType::Internal(None),
            final(self).parent(r) is None,
            final(self).kids(r).len() == 0,
            forall|x: NodeID| x != r ==> #[trigger] final(self).has(x) == old(self).has(x),
            forall|x: NodeID| #[trigger] old(self).has(x) ==> final(self).slot(x) == old(self).slot(x)
                && final(self).rank_of(x) == old(self).rank_of(x)
                && old(self).rank_of(x) < final(self).rank_of(r),
    {
        let id = self.slots.len();
        self.slots.push(Some(Slot { node: NodeType::Internal(None), parent: None, children: Vec::new() }));
        self.rank = Ghost(self.rank@.insert(id, self.bound@));
        self.bound = Ghost(self.bound@ + 1);
        proof {
            assert forall|p: NodeID, i: int| self.has(p) && 0 <= i < self.kids(p).len() implies {
                let c = #[trigger] self.kids(p)[i];
                &&& self.has(c.0)
                &&& self.parent(c.0) == Some(p)
            } by {
                assert(p != id);
                assert(old(self).kids(p)[i] == self.kids(p)[i]);
            }
            assert forall|x: NodeID| #[trigger] self.has(x) && self.parent(x) is Some implies {
                let p = self.parent(x)->Some_0;
                &&& self.has(p)
                &&& self.child_ids(p).contains(x)
                &&& self.rank@[p] < self.rank@[x]
            } by {
                assert(old(self).has(x));
                assert(old(self).child_ids(self.parent(x)->Some_0) == self.child_ids(self.parent(x)->Some_0));
            }
            assert forall|q: NodeID, i: int, j: int| self.has(q) && 0 <= i < j < self.kids(q).len()
                implies #[trigger] self.kids(q)[i].0 != #[trigger] self.kids(q)[j].0 by {
                assert(old(self).has(q));
                assert(old(self).kids(q) == self.kids(q));
                assert(old(self).kids(q)[i].0 != old(self).kids(q)[j].0);
            }
            assert forall|x: NodeID| #[trigger] self.has(x) implies self.rank@.dom().contains(x) && self.rank@[x] < self.bound@ by {
                if x != id {
                    assert(old(self).has(x));
                }
            }
        }
        id
    }

    /// Attaches a parentless node as the last child of `parent_id`, with the
    /// given edge weight, and sets its label. The parent must not lie at or
    /// below the node, which would close a cycle.
    #[verifier::rlimit(100)]
    #[verifier::spinoff_prover]
    pub fn set_child(&mut self, node_id: NodeID, parent_id: NodeID, distance: Option<EdgeWeight>, taxa: Option<String>)
        requires
            old(self).wf_forest(),
            old(self).has(node_id),
            old(self).has(parent_id),
            old(self).parent(node_id) is None,
            node_id != old(self).spec_root(),
            !old(self).is_desc(parent_id, node_id),
        ensures
            final(self).wf_forest(),
            final(self).spec_root() == old(self).spec_root(),
            final(self).next_id() == old(self).next_id(),
            forall|x: NodeID| #[trigger] final(self).has(x) == old(self).has(x),
            forall|x: NodeID| old(self).has(x) && !old(self).is_desc(x, node_id) ==> #[trigger] final(self).rank_of(x) == old(self).rank_of(x),
            final(self).same_except(old(self), node_id, parent_id),
            final(self).parent(node_id) == Some(parent_id),
            final(self).node(node_id) == NodeType::Internal(taxa),
            final(self).kids(node_id) == old(self).kids(node_id),
            final(self).parent(parent_id) == old(self).parent(parent_id),
            final(self).node(parent_id) == old(self).node(parent_id),
            final(self).kids(parent_id) == old(self).kids(parent_id).push((node_id, distance)),
    {
        let ghost o = *self;
        let mut c = self.take_slot(node_id);
        c.parent = Some(parent_id);
        c.node = NodeType::Internal(taxa);
        self.put_slot(node_id, c);
        let mut p = self.take_slot(parent_id);
        p.children.push((node_id, distance));
        self.put_slot(parent_id, p);
        let ghost k: nat = o.rank@[parent_id] + 1;
        self.rank = Ghost(Map::new(|x: NodeID| o.rank@.dom().contains(x),
            |x: NodeID| if o.is_desc(x, node_id) { o.rank@[x] + k } else { o.rank@[x] }));
        self.bound = Ghost(o.bound@ + k);
        proof {
            assert(o.is_desc(node_id, node_id));
            assert forall|x: NodeID| #[trigger] self.has(x) implies self.rank@.dom().contains(x) && self.rank@[x] < self.bound@ by {
                assert(o.has(x));
            }
            assert forall|x: NodeID| #[trigger] self.has(x) == o.has(x) by {}
            assert(!o.child_ids(parent_id).contains(node_id)) by {
                if o.child_ids(parent_id).contains(node_id) {
                    let i = choose|i: int| 0 <= i < o.child_ids(parent_id).len() && o.child_ids(parent_id)[i] == node_id;
                    assert(o.kids(parent_id)[i].0 == node_id);
                }
            }
            assert(self.child_ids(parent_id) == o.child_ids(parent_id).push(node_id));
            assert forall|q: NodeID, i: int| self.has(q) && 0 <= i < self.kids(q).len() implies {
                let c = #[trigger] self.kids(q)[i];
                &&& self.has(c.0)
                &&& self.parent(c.0) == Some(q)
            } by {
                if q != parent_id || i < o.kids(q).len() {
                    assert(self.kids(q)[i] == o.kids(q)[i]);
                }
            }
            assert forall|x: NodeID| #[trigger] self.has(x) && self.parent(x) is Some implies {
                let p = self.parent(x)->Some_0;
                &&& self.has(p)
                &&& self.child_ids(p).contains(x)
                &&& self.rank@[p] < self.rank@[x]
            } by {
                if x != node_id {
                    let p = self.parent(x)->Some_0;
                    assert(o.child_ids(p).contains(x));
                    assert(o.rank@[p] < o.rank@[x]);
                    assert(o.is_desc(x, node_id) == o.is_desc(p, node_id));
                    if p == parent_id {
                        let i = choose|i: int| 0 <= i < o.child_ids(p).len() && o.child_ids(p)[i] == x;
                        assert(self.child_ids(p)[i] == x);
                    }
                } else {
                    assert(self.child_ids(parent_id)[o.child_ids(parent_id).len() as int] == node_id);
                }
            }
            assert forall|q: NodeID, i: int, j: int| self.has(q) && 0 <= i < j < self.kids(q).len()
                implies #[trigger] self.kids(q)[i].0 != #[trigger] self.kids(q)[j].0 by {
                if q == parent_id && j == o.kids(q).len() {
                    assert(o.child_ids(q)[i] == o.kids(q)[i].0);
                }
            }
        }
    }

    /// Whether the tree holds a node under this id.
    pub fn contains(&self, node_id: NodeID) -> (r: bool)
        ensures
            r == self.has(node_id),
    {
        node_id < self.slots.len() && self.slots[node_id].is_some()
    }

    pub fn get_root(&self) -> (r: NodeID)
        ensures
            r == self.spec_root(),
    {
        self.root
    }

    pub fn get_node(&self, node_id: NodeID) -> (r: Result<&NodeType, TreeError>)
        ensures
            self.has(node_id) ==> r == Ok::<&NodeType, TreeError>(&self.node(node_id)),
            !self.has(node_id) ==> r == Err::<&NodeType, TreeError>(TreeError::InvalidIdentifier),
    {
        if !self.contains(node_id) {
            return Err(TreeError::InvalidIdentifier);
        }
        match &self.slots[node_id] {
            Some(s) => Ok(&s.node),
            None => Err(TreeError::InvalidIdentifier),
        }
    }

    /// The ordered (child, edge weight) list of a node.
    pub fn get_node_children(&self, node_id: NodeID) -> (r: Result<&Vec<(NodeID, Option<EdgeWeight>)>, TreeError>)
        ensures
            self.has(node_id) <==> r is Ok,
            r is Ok ==> r->Ok_0@ == self.kids(node_id),
            r is Err ==> r->Err_0 == TreeError::InvalidIdentifier,
    {
        if !self.contains(node_id) {
            return Err(TreeError::InvalidIdentifier);
        }
        match &self.slots[node_id] {
            Some(s) => Ok(&s.children),
            None => Err(TreeError::InvalidIdentifier),
        }
    }

    pub fn get_node_parent(&self, node_id: NodeID) -> (r: Result<Option<NodeID>, TreeError>)
        ensures
            self.has(node_id) ==> r == Ok::<Option<NodeID>, TreeError>(self.parent(node_id)),
            !self.has(node_id) ==> r == Err::<Option<NodeID>, TreeError>(TreeError::InvalidIdentifier),
    {
        if !self.contains(node_id) {
            return Err(TreeError::InvalidIdentifier);
        }
        match &self.slots[node_id] {
            Some(s) => Ok(s.parent),
            None => Err(TreeError::InvalidIdentifier),
        }
    }

    pub fn is_leaf(&self, node_id: NodeID) -> (r: Result<bool, TreeError>)
        ensures
            self.has(node_id) ==> r == Ok::<bool, TreeError>(self.node(node_id).spec_is_leaf()),
            !self.has(node_id) ==> r == Err::<bool, TreeError>(TreeError::InvalidIdentifier),
    {
        match self.get_node(node_id) {
            Ok(n) => Ok(n.is_leaf()),
            Err(e) => Err(e),
        }
    }

    /// The taxon label of a node, empty where none is set.
    pub fn get_taxa(&self, node_id: NodeID) -> (r: Result<String, TreeError>)
        ensures
            self.has(node_id) <==> r is Ok,
            r is Ok ==> r->Ok_0@ == self.node(node_id).taxon_view(),
            r is Err ==> r->Err_0 == TreeError::InvalidIdentifier,
    {
        match self.get_node(node_id) {
            Ok(n) => Ok(n.taxa()),
            Err(e) => Err(e),
        }
    }

    /// Flips a node between leaf and internal; the links stay as they are.
    pub fn set_leaf(&mut self, node_id: NodeID)
        requires
            old(self).wf_forest(),
            old(self).has(node_id),
        ensures
            final(self).wf_forest(),
            old(self).wf() ==> final(self).wf(),
            final(self).same_frame(old(self)),
            final(self).same_except(old(self), node_id, node_id),
            old(self).has(node_id) ==> final(self).node(node_id).spec_is_leaf() == !old(self).node(node_id).spec_is_leaf()
                && final(self).node(node_id).spec_taxon() == old(self).node(node_id).spec_taxon()
                && final(self).parent(node_id) == old(self).parent(node_id)
                && final(self).kids(node_id) == old(self).kids(node_id),
    {
        if self.contains(node_id) {
            let mut s = self.take_slot(node_id);
            s.node.flip();
            self.put_slot(node_id, s);
            proof { self.lemma_relabel_keeps_wf(*old(self), node_id); }
        }
    }

    /// Gives a node the label `taxa`, keeping its kind.
    pub fn assign_taxa(&mut self, node_id: NodeID, taxa: &str)
        requires
            old(self).wf_forest(),
            old(self).has(node_id),
        ensures
            final(self).wf_forest(),
            old(self).wf() ==> final(self).wf(),
            final(self).same_frame(old(self)),
            final(self).same_except(old(self), node_id, node_id),
            old(self).has(node_id) ==> final(self).node(node_id).spec_is_leaf() == old(self).node(node_id).spec_is_leaf()
                && final(self).node(node_id).spec_taxon() is Some
                && final(self).node(node_id).taxon_view() == taxa@
                && final(self).parent(node_id) == old(self).parent(node_id)
                && final(self).kids(node_id) == old(self).kids(node_id),
    {
        if self.contains(node_id) {
            let mut s = self.take_slot(node_id);
            s.node = if s.node.is_leaf() {
                NodeType::Leaf(Some(taxa.to_string()))
            } else {
                NodeType::Internal(Some(taxa.to_string()))
            };
            self.put_slot(node_id, s);
            proof { self.lemma_relabel_keeps_wf(*old(self), node_id); }
        }
    }

    proof fn lemma_relabel_keeps_wf(&self, o: Self, x: NodeID)
        requires
            o.wf_forest(),
            o.has(x),
            self.slots@.len() == o.slots@.len(),
            forall|y: int| 0 <= y < o.slots@.len() && y != x ==> #[trigger] self.slots@[y] == o.slots@[y],
            self.has(x),
            self.parent(x) == o.parent(x),
            self.kids(x) == o.kids(x),
            self.root == o.root,
            self.rank == o.rank,
            self.bound == o.bound,
        ensures
            self.wf_forest(),
            o.wf() ==> self.wf(),
            self.same_frame(&o),
            self.same_except(&o, x, x),
    {
        assert forall|y: NodeID| #[trigger] self.has(y) == o.has(y) by {
            if y < o.slots@.len() && y != x { assert(self.slots@[y as int] == o.slots@[y as int]); }
        }
        assert forall|y: NodeID| o.has(y) && y != x implies #[trigger] self.slot(y) == o.slot(y) by {
            assert(self.slots@[y as int] == o.slots@[y as int]);
        }
        assert forall|y: NodeID| o.has(y) implies #[trigger] self.kids(y) == o.kids(y) && self.parent(y) == o.parent(y) by {}
        assert forall|y: NodeID| o.has(y) implies #[trigger] self.child_ids(y) == o.child_ids(y) by {
            assert(self.kids(y) == o.kids(y));
        }
    }

    /// One past the largest id that the tree has handed out.
    pub fn slot_count(&self) -> (r: usize)
        ensures
            r == self.next_id(),
            forall|x: NodeID| #[trigger] self.has(x) ==> x < r,
    {
        self.slots.len()
    }

    /// In a consistent forest, a node without parent other than the root
    /// makes it no tree; where none is left, it is one.
    pub proof fn lemma_forest_is_tree(&self)
        requires
            self.wf_forest(),
            forall|x: NodeID| #[trigger] self.has(x) && self.parent(x) is None ==> x == self.spec_root(),
        ensures
            self.wf(),
    {
    }

    /// What a consistent forest guarantees, stated over the accessors.
    pub proof fn lemma_forest_facts(&self)
        requires
            self.wf_forest(),
        ensures
            self.has(self.spec_root()),
            self.parent(self.spec_root()) is None,
            forall|x: NodeID| #[trigger] self.has(x) ==> x < self.next_id() && self.rank_of(x) < self.rank_bound(),
            forall|x: NodeID| #[trigger] self.has(x) && self.parent(x) is Some ==> {
                let p = self.parent(x)->Some_0;
                &&& self.has(p)
                &&& self.child_ids(p).contains(x)
                &&& self.rank_of(p) < self.rank_of(x)
            },
            forall|p: NodeID, i: int| self.has(p) && 0 <= i < self.kids(p).len() ==> {
                let c = #[trigger] self.kids(p)[i];
                &&& self.has(c.0)
                &&& self.parent(c.0) == Some(p)
            },
            forall|p: NodeID, i: int, j: int| self.has(p) && 0 <= i < j < self.kids(p).len()
                ==> #[trigger] self.kids(p)[i].0 != #[trigger] self.kids(p)[j].0,
    {
    }

    /// What a tree guarantees beyond a forest.
    pub proof fn lemma_tree_facts(&self)
        requires
            self.wf(),
        ensures
            self.wf_forest(),
            forall|x: NodeID| #[trigger] self.has(x) && x != self.spec_root() ==> self.parent(x) is Some,
    {
    }

    /// Whether `t` is the part of this tree at and below `n`, rooted at `n`.
    pub open spec fn is_subtree_at(&self, t: &Self, n: NodeID) -> bool {
        &&& t.spec_root() == n
        &&& forall|x: NodeID| #[trigger] t.has(x) <==> self.has(x) && self.is_desc(x, n)
        &&& forall|x: NodeID| #[trigger] t.has(x) ==> t.node(x) == self.node(x) && t.kids(x) == self.kids(x)
            && t.parent(x) == (if x == n { None } else { self.parent(x) })
    }

    fn copy_children(v: &Vec<(NodeID, Option<EdgeWeight>)>) -> (r: Vec<(NodeID, Option<EdgeWeight>)>)
        ensures
            r@ == v@,
    {
        let mut out: Vec<(NodeID, Option<EdgeWeight>)> = Vec::new();
        let mut i: usize = 0;
        while i < v.len()
            invariant
                0 <= i <= v@.len(),
                out@ == v@.take(i as int),
            decreases v@.len() - i,
        {
            out.push(v[i]);
            i = i + 1;
            assert(out@ =~= v@.take(i as int));
        }
        assert(v@.take(v@.len() as int) =~= v@);
        out
    }

    /// A copy of the part of the tree at and below `n`, rooted at `n`.
    #[verifier::rlimit(100)]
    #[verifier::spinoff_prover]
    fn copy_below(&self, n: NodeID) -> (t: Self)
        requires
            self.wf(),
            self.has(n),
        ensures
            t.wf(),
            self.is_subtree_at(&t, n),
            t.next_id() == self.next_id(),
            forall|x: NodeID| #[trigger] t.has(x) ==> t.rank_of(x) == self.rank_of(x),
    {
        let len = self.slots.len();
        let mut slots: Vec<Option<Slot>> = Vec::new();
        let mut x: usize = 0;
        while x < len
            invariant
                self.wf(),
                self.has(n),
                len == self.slots@.len(),
                0 <= x <= len,
                slots@.len() == x,
                forall|y: int| 0 <= y < x ==> (#[trigger] slots@[y] is Some <==> self.has(y as NodeID) && self.is_desc(y as NodeID, n)),
                forall|y: int| 0 <= y < x && #[trigger] slots@[y] is Some ==> {
                    let s = slots@[y]->Some_0;
                    &&& s.node == self.node(y as NodeID)
                    &&& s.children@ == self.kids(y as NodeID)
                    &&& s.parent == (if y == n { None } else { self.parent(y as NodeID) })
                },
            decreases len - x,
        {
            let mut entry: Option<Slot> = None;
            if self.slots[x].is_some() && self.is_at_or_below(x, n) {
                match &self.slots[x] {
                    Some(s) => {
                        let parent = if x == n { None } else { s.parent };
                        entry = Some(Slot { node: s.node.duplicate(), parent, children: Self::copy_children(&s.children) });
                    },
                    None => {},
                }
            }
            slots.push(entry);
            x = x + 1;
        }
        let t = RootedPhyloTree { root: n, slots, rank: Ghost(self.rank@), bound: Ghost(self.bound@) };
        proof {
            assert forall|y: NodeID| #[trigger] t.has(y) <==> self.has(y) && self.is_desc(y, n) by {
                if y < len {
                    assert(t.slots@[y as int] is Some <==> self.has(y) && self.is_desc(y, n));
                }
            }
            assert forall|y: NodeID| #[trigger] t.has(y) implies t.node(y) == self.node(y) && t.kids(y) == self.kids(y)
                && t.parent(y) == (if y == n { None } else { self.parent(y) }) by {
                assert(t.slots@[y as int] is Some);
            }
            assert forall|y: NodeID| #[trigger] t.has(y) implies t.child_ids(y) == self.child_ids(y) by {
                assert(t.kids(y) == self.kids(y));
            }
            assert(self.is_desc(n, n));
            assert forall|y: NodeID| #[trigger] t.has(y) && t.parent(y) is Some implies {
                let p = t.parent(y)->Some_0;
                &&& t.has(p)
                &&& t.child_ids(p).contains(y)
                &&& t.rank@[p] < t.rank@[y]
            } by {
                let p = self.parent(y)->Some_0;
                assert(y != n);
                assert(self.is_desc(y, n) == self.is_desc(p, n));
                assert(t.has(p));
            }
            assert forall|p: NodeID, i: int| t.has(p) && 0 <= i < t.kids(p).len() implies {
                let c = #[trigger] t.kids(p)[i];
                &&& t.has(c.0)
                &&& t.parent(c.0) == Some(p)
            } by {
                let c = self.kids(p)[i].0;
                assert(self.kids(p)[i] == t.kids(p)[i]);
                assert(self.parent(c) == Some(p));
                if c == n {
                    self.lemma_desc_rank(p, n);
                } else {
                    assert(self.is_desc(c, n) == self.is_desc(p, n));
                }
            }
            assert forall|p: NodeID, i: int, j: int| t.has(p) && 0 <= i < j < t.kids(p).len()
                implies #[trigger] t.kids(p)[i].0 != #[trigger] t.kids(p)[j].0 by {
                assert(t.kids(p) == self.kids(p));
                assert(self.kids(p)[i].0 != self.kids(p)[j].0);
            }
            assert forall|y: NodeID| #[trigger] t.has(y) && y != t.root implies t.parent(y) is Some by {
                assert(self.is_desc(y, n));
                assert(self.has(y));
            }
        }
        t
    }

    /// A new tree holding a copy of the part of this tree at and below
    /// `node_id`, rooted there. A leaf has no subtree to give.
    pub fn get_subtree(&self, node_id: NodeID) -> (r: Result<RootedPhyloTree, TreeError>)
        requires
            self.wf(),
        ensures
            !self.has(node_id) ==> r is Err && r->Err_0 == TreeError::InvalidIdentifier,
            self.has(node_id) && self.node(node_id).spec_is_leaf() ==> r is Err && r->Err_0 == TreeError::InvalidNodeKind,
            self.has(node_id) && !self.node(node_id).spec_is_leaf() ==> r is Ok && r->Ok_0.wf() && self.is_subtree_at(&r->Ok_0, node_id),
    {
        match self.is_leaf(node_id) {
            Err(e) => Err(e),
            Ok(true) => Err(TreeError::InvalidNodeKind),
            Ok(false) => Ok(self.copy_below(node_id)),
        }
    }

    /// Cuts the part of the tree at and below `node_id` out of this tree and
    /// returns it as a tree of its own, rooted at `node_id`. The ids are
    /// kept: the two trees split the ids of the tree before the cut between
    /// them. The root cannot be cut out of its own tree.
    #[verifier::rlimit(100)]
    #[verifier::spinoff_prover]
    pub fn prune(&mut self, node_id: NodeID) -> (r: Result<RootedPhyloTree, TreeError>)
        requires
            old(self).wf(),
        ensures
            final(self).wf(),
            !old(self).has(node_id) ==> r is Err && r->Err_0 == TreeError::InvalidIdentifier,
            node_id == old(self).spec_root() ==> r is Err && r->Err_0 == TreeError::InvalidNodeKind,
            r is Err ==> final(self).nodes_map() == old(self).nodes_map()
                && final(self).parents_map() == old(self).parents_map()
                && final(self).children_map() == old(self).children_map(),
            old(self).has(node_id) && node_id != old(self).spec_root() ==> {
                let t = r->Ok_0;
                let p = old(self).parent(node_id)->Some_0;
                &&& r is Ok
                &&& t.wf()
                &&& old(self).is_subtree_at(&t, node_id)
                &&& final(self).spec_root() == old(self).spec_root()
                &&& forall|x: NodeID| #[trigger] final(self).has(x) <==> old(self).has(x) && !old(self).is_desc(x, node_id)
                &&& forall|x: NodeID| #[trigger] final(self).has(x) ==> final(self).node(x) == old(self).node(x)
                    && final(self).parent(x) == old(self).parent(x)
                    && (x != p ==> final(self).kids(x) == old(self).kids(x))
                &&& exists|k: int| 0 <= k < old(self).kids(p).len() && #[trigger] old(self).kids(p)[k].0 == node_id
                    && final(self).kids(p) == old(self).kids(p).remove(k)
            },
    {
        if !self.contains(node_id) {
            return Err(TreeError::InvalidIdentifier);
        }
        if node_id == self.root {
            return Err(TreeError::InvalidNodeKind);
        }
        let ghost o = *self;
        let t = self.copy_below(node_id);
        proof { self.lemma_tree_facts(); self.lemma_forest_facts(); }
        let p = match self.get_node_parent(node_id) {
            Ok(Some(p)) => p,
            _ => {
                return Err(TreeError::InvalidIdentifier);
            },
        };
        let kids = match self.get_node_children(p) {
            Ok(v) => v,
            Err(e) => {
                return Err(e);
            },
        };
        let mut k: usize = 0;
        while k < kids.len() && kids[k].0 != node_id
            invariant
                0 <= k <= kids@.len(),
                forall|j: int| 0 <= j < k ==> (#[trigger] kids@[j]).0 != node_id,
            decreases kids@.len() - k,
        {
            k = k + 1;
        }
        if k == kids.len() {
            proof {
                assert(self.child_ids(p).contains(node_id));
                let j = choose|j: int| 0 <= j < self.child_ids(p).len() && self.child_ids(p)[j] == node_id;
                assert(kids@[j].0 == node_id);
            }
            return Err(TreeError::BrokenAncestorChain);
        }
        proof {
            assert(!o.is_desc(p, node_id)) by {
                if o.is_desc(p, node_id) {
                    self.lemma_desc_rank(p, node_id);
                }
            }
            assert(!t.has(p));
        }
        let len = self.slots.len();
        let mut x: usize = 0;
        while x < len
            invariant
                len == self.slots@.len(),
                len == o.slots@.len(),
                0 <= x <= len,
                self.root == o.root,
                self.rank == o.rank,
                self.bound == o.bound,
                forall|y: NodeID| t.has(y) ==> y < len,
                forall|y: int| 0 <= y < x ==> #[trigger] self.slots@[y] == (if t.has(y as NodeID) { None } else { o.slots@[y] }),
                forall|y: int| x <= y < len ==> #[trigger] self.slots@[y] == o.slots@[y],
            decreases len - x,
        {
            if t.contains(x) {
                self.slots.set(x, None);
            }
            x = x + 1;
        }
        let mut ps = self.take_slot(p);
        ps.children.remove(k);
        self.put_slot(p, ps);
        proof {
            assert forall|y: int| 0 <= y < len && y != p implies #[trigger] self.slots@[y] == (if t.has(y as NodeID) { None } else { o.slots@[y] }) by {}
            assert(ps.children@ == o.kids(p).remove(k as int));
            self.lemma_pruned(o, t, node_id, p, k as int);
        }
        Ok(t)
    }

    #[verifier::rlimit(100)]
    #[verifier::spinoff_prover]
    proof fn lemma_pruned(&self, o: Self, t: Self, n: NodeID, p: NodeID, kk: int)
        requires
            o.wf(),
            o.has(n),
            o.is_subtree_at(&t, n),
            n != o.root,
            o.parent(n) == Some(p),
            0 <= kk < o.kids(p).len(),
            o.kids(p)[kk].0 == n,
            !t.has(p),
            self.slots@.len() == o.slots@.len(),
            self.root == o.root,
            self.rank == o.rank,
            self.bound == o.bound,
            forall|y: int| 0 <= y < o.slots@.len() && y != p ==> #[trigger] self.slots@[y] == (if t.has(y as NodeID) { None } else { o.slots@[y] }),
            self.has(p),
            self.parent(p) == o.parent(p),
            self.node(p) == o.node(p),
            self.kids(p) == o.kids(p).remove(kk),
        ensures
            self.wf(),
            forall|x: NodeID| #[trigger] self.has(x) <==> o.has(x) && !o.is_desc(x, n),
            forall|x: NodeID| #[trigger] self.has(x) ==> self.node(x) == o.node(x) && self.parent(x) == o.parent(x)
                && (x != p ==> self.kids(x) == o.kids(x)),
    {
        o.lemma_tree_facts();
        o.lemma_forest_facts();
        assert forall|y: NodeID| #[trigger] self.has(y) <==> o.has(y) && !o.is_desc(y, n) by {
            if y < o.slots@.len() && y != p {
                assert(self.slots@[y as int] == (if t.has(y) { None } else { o.slots@[y as int] }));
            }
        }
        assert forall|y: NodeID| #[trigger] self.has(y) && y != p implies self.slot(y) == o.slot(y) by {
            assert(self.slots@[y as int] == (if t.has(y) { None } else { o.slots@[y as int] }));
        }
        assert(!o.is_desc(o.root, n));
        assert forall|q: NodeID, i: int| self.has(q) && 0 <= i < self.kids(q).len() implies {
            let c = #[trigger] self.kids(q)[i];
            &&& self.has(c.0)
            &&& self.parent(c.0) == Some(q)
        } by {
            let j = if q == p && i >= kk { i + 1 } else { i };
            assert(self.kids(q)[i] == o.kids(q)[j]);
            let c = o.kids(q)[j].0;
            assert(o.parent(c) == Some(q));
            if q == p {
                assert(o.kids(q)[j].0 != o.kids(q)[kk].0);
            }
            assert(c != n);
            assert(o.is_desc(c, n) == o.is_desc(q, n));
        }
        assert forall|y: NodeID| #[trigger] self.has(y) && self.parent(y) is Some implies {
            let q = self.parent(y)->Some_0;
            &&& self.has(q)
            &&& self.child_ids(q).contains(y)
            &&& self.rank@[q] < self.rank@[y]
        } by {
            let q = o.parent(y)->Some_0;
            assert(o.is_desc(y, n) == o.is_desc(q, n));
            assert(o.child_ids(q).contains(y));
            let j = choose|j: int| 0 <= j < o.child_ids(q).len() && o.child_ids(q)[j] == y;
            if q == p {
                assert(y != n);
                assert(j != kk);
                let i = if j < kk { j } else { j - 1 };
                assert(self.kids(q)[i] == o.kids(q)[j]);
                assert(self.child_ids(q)[i] == y);
            } else {
                assert(self.child_ids(q)[j] == y);
            }
        }
        assert forall|q: NodeID, i: int, j: int| self.has(q) && 0 <= i < j < self.kids(q).len()
            implies #[trigger] self.kids(q)[i].0 != #[trigger] self.kids(q)[j].0 by {
            let a = if q == p && i >= kk { i + 1 } else { i };
            let b = if q == p && j >= kk { j + 1 } else { j };
            assert(self.kids(q)[i] == o.kids(q)[a]);
            assert(self.kids(q)[j] == o.kids(q)[b]);
        }
        assert forall|y: NodeID| #[trigger] self.has(y) implies self.rank@.dom().contains(y) && self.rank@[y] < self.bound@ by {
            assert(o.has(y));
        }
        assert forall|y: NodeID| #[trigger] self.has(y) && y != self.root implies self.parent(y) is Some by {
            assert(o.has(y));
        }
    }

    /// This tree is `o` with every id moved by `d`: node keys, parent links
    /// and child entries alike.
    pub open spec fn is_shift_of(&self, o: &Self, d: int) -> bool {
        &&& self.spec_root() == o.spec_root() + d
        &&& forall|x: NodeID| #[trigger] o.has(x) ==> 0 <= x + d <= usize::MAX && self.has((x + d) as NodeID)
        &&& forall|y: NodeID| #[trigger] self.has(y) ==> 0 <= y - d <= usize::MAX && o.has((y - d) as NodeID)
        &&& forall|x: NodeID| #[trigger] o.has(x) ==> {
            let y = (x + d) as NodeID;
            &&& self.node(y) == o.node(x)
            &&& self.parent(y) == shift_parent(o.parent(x), d)
            &&& self.kids(y) == shift_kids(o.kids(x), d)
        }
    }

    fn shift_slot(s: &Slot, add: usize, sub: usize) -> (r: Slot)
        requires
            s.parent is Some ==> sub <= s.parent->Some_0 && s.parent->Some_0 + add <= usize::MAX,
            forall|i: int| 0 <= i < s.children@.len() ==> sub <= (#[trigger] s.children@[i]).0 && s.children@[i].0 + add <= usize::MAX,
        ensures
            r.node == s.node,
            r.parent == shift_parent(s.parent, add - sub),
            r.children@ == shift_kids(s.children@, add - sub),
    {
        let parent = match s.parent {
            Some(q) => Some(q - sub + add),
            None => None,
        };
        let mut children: Vec<(NodeID, Option<EdgeWeight>)> = Vec::new();
        let mut i: usize = 0;
        while i < s.children.len()
            invariant
                0 <= i <= s.children@.len(),
                forall|j: int| 0 <= j < s.children@.len() ==> sub <= (#[trigger] s.children@[j]).0 && s.children@[j].0 + add <= usize::MAX,
                children@ == shift_kids(s.children@.take(i as int), add - sub),
            decreases s.children@.len() - i,
        {
            let (c, w) = s.children[i];
            assert(sub <= s.children@[i as int].0);
            children.push((c - sub + add, w));
            i = i + 1;
            assert(children@ =~= shift_kids(s.children@.take(i as int), add - sub));
        }
        assert(s.children@.take(s.children@.len() as int) =~= s.children@);
        Slot { node: s.node.duplicate(), parent, children }
    }

    /// A copy of the tree with every id `x` moved to `x + add - sub`.
    #[verifier::rlimit(100)]
    #[verifier::spinoff_prover]
    fn shifted(&self, add: usize, sub: usize) -> (t: Self)
        requires
            self.wf(),
            self.next_id() + add <= usize::MAX,
            sub <= self.next_id(),
            forall|x: NodeID| #[trigger] self.has(x) ==> sub <= x,
        ensures
            t.wf(),
            t.is_shift_of(self, add - sub),
            t.next_id() == self.next_id() + add - sub,
    {
        proof { self.lemma_tree_facts(); self.lemma_forest_facts(); }
        let d: Ghost<int> = Ghost(add - sub);
        let len = self.slots.len();
        let mut slots: Vec<Option<Slot>> = Vec::new();
        let mut i: usize = 0;
        while i < add
            invariant
                0 <= i <= add,
                slots@.len() == i,
                forall|y: int| 0 <= y < i ==> #[trigger] slots@[y] is None,
            decreases add - i,
        {
            slots.push(None);
            i = i + 1;
        }
        let mut x: usize = sub;
        while x < len
            invariant
                self.wf(),
                self.wf_forest(),
                len == self.slots@.len(),
                len + add <= usize::MAX,
                sub <= x <= len,
                slots@.len() == add + x - sub,
                forall|y: NodeID| #[trigger] self.has(y) ==> sub <= y,
                forall|y: int| 0 <= y < add ==> #[trigger] slots@[y] is None,
                forall|y: int| add <= y < slots@.len() ==> (#[trigger] slots@[y] is Some <==> self.has((y - add + sub) as NodeID)),
                forall|y: int| add <= y < slots@.len() && #[trigger] slots@[y] is Some ==> {
                    let o = self.slot((y - add + sub) as NodeID);
                    let s = slots@[y]->Some_0;
                    &&& s.node == o.node
                    &&& s.parent == shift_parent(o.parent, add - sub)
                    &&& s.children@ == shift_kids(o.children@, add - sub)
                },
            decreases len - x,
        {
            proof { self.lemma_forest_facts(); }
            let entry = match &self.slots[x] {
                Some(s) => {
                    proof {
                        assert(self.has(x));
                        if s.parent is Some {
                            assert(self.has(s.parent->Some_0));
                        }
                        assert forall|j: int| 0 <= j < s.children@.len() implies sub <= (#[trigger] s.children@[j]).0 && s.children@[j].0 + add <= usize::MAX by {
                            assert(s.children@[j] == self.kids(x)[j]);
                            assert(self.has(self.kids(x)[j].0));
                        }
                    }
                    Some(Self::shift_slot(s, add, sub))
                },
                None => None,
            };
            slots.push(entry);
            x = x + 1;
        }
        let rank = Ghost(Map::new(|y: NodeID| y >= add && (y - add + sub) as NodeID == y - add + sub && self.rank@.dom().contains((y - add + sub) as NodeID),
            |y: NodeID| self.rank@[(y - add + sub) as NodeID]));
        let t = RootedPhyloTree { root: self.root + add - sub, slots, rank, bound: Ghost(self.bound@) };
        proof {
            let d = add - sub;
            assert forall|x: NodeID| #[trigger] self.has(x) implies 0 <= x + d <= usize::MAX && t.has((x + d) as NodeID) by {
                assert(t.slots@[x + d] is Some);
            }
            assert forall|y: NodeID| #[trigger] t.has(y) implies 0 <= y - d <= usize::MAX && self.has((y - d) as NodeID) by {
                assert(y >= add);
            }
            assert forall|x: NodeID| #[trigger] self.has(x) implies {
                let y = (x + d) as NodeID;
                &&& t.node(y) == self.node(x)
                &&& t.parent(y) == shift_parent(self.parent(x), d)
                &&& t.kids(y) == shift_kids(self.kids(x), d)
            } by {
                assert(t.slots@[x + d] is Some);
            }
            self.lemma_shift_wf(&t, d);
        }
        t
    }

    #[verifier::rlimit(100)]
    #[verifier::spinoff_prover]
    proof fn lemma_shift_wf(&self, t: &Self, d: int)
        requires
            self.wf(),
            t.is_shift_of(self, d),
            t.bound@ == self.bound@,
            forall|x: NodeID| #[trigger] self.has(x) ==> t.rank@.dom().contains((x + d) as NodeID)
                && t.rank@[(x + d) as NodeID] == self.rank@[x],
        ensures
            t.wf(),
    {
        self.lemma_tree_facts();
        self.lemma_forest_facts();
        assert forall|y: NodeID| #[trigger] t.has(y) implies t.rank@.dom().contains(y) && t.rank@[y] < t.bound@ by {
            let x = (y - d) as NodeID;
            assert(self.has(x));
            assert((x + d) as NodeID == y);
        }
        assert forall|y: NodeID| #[trigger] t.has(y) && t.parent(y) is Some implies {
            let p = t.parent(y)->Some_0;
            &&& t.has(p)
            &&& t.child_ids(p).contains(y)
            &&& t.rank@[p] < t.rank@[y]
        } by {
            let x = (y - d) as NodeID;
            assert(self.has(x));
            assert((x + d) as NodeID == y);
            let q = self.parent(x)->Some_0;
            assert(self.has(q));
            let p = (q + d) as NodeID;
            assert(t.parent(y) == Some(p));
            assert(t.has(p));
            assert(self.child_ids(q).contains(x));
            let j = choose|j: int| 0 <= j < self.child_ids(q).len() && self.child_ids(q)[j] == x;
            assert(t.kids(p) == shift_kids(self.kids(q), d));
            assert(t.child_ids(p)[j] == y);
        }
        assert forall|p: NodeID, i: int| t.has(p) && 0 <= i < t.kids(p).len() implies {
            let c = #[trigger] t.kids(p)[i];
            &&& t.has(c.0)
            &&& t.parent(c.0) == Some(p)
        } by {
            let q = (p - d) as NodeID;
            assert(self.has(q));
            assert((q + d) as NodeID == p);
            let c = self.kids(q)[i].0;
            assert(self.has(c));
            assert(t.kids(p)[i].0 == (c + d) as NodeID);
        }
        assert forall|p: NodeID, i: int, j: int| t.has(p) && 0 <= i < j < t.kids(p).len()
            implies #[trigger] t.kids(p)[i].0 != #[trigger] t.kids(p)[j].0 by {
            let q = (p - d) as NodeID;
            assert(self.has(q));
            assert((q + d) as NodeID == p);
            assert(self.kids(q)[i].0 != self.kids(q)[j].0);
        }
        assert(t.has(t.root)) by {
            assert(self.has(self.root));
        }
        assert forall|y: NodeID| #[trigger] t.has(y) && y != t.root implies t.parent(y) is Some by {
            let x = (y - d) as NodeID;
            assert(self.has(x));
            assert((x + d) as NodeID == y);
        }
        assert(t.parent(t.root) is None) by {
            assert(self.has(self.root));
        }
    }

    /// Moves every id of the tree up by `value`, in node keys, parent links
    /// and child entries alike.
    pub fn incerement_ids(&mut self, value: usize)
        requires
            old(self).wf(),
            old(self).next_id() + value <= usize::MAX,
        ensures
            final(self).wf(),
            final(self).is_shift_of(old(self), value as int),
    {
        proof { self.lemma_tree_facts(); self.lemma_forest_facts(); }
        *self = self.shifted(value, 0);
    }

    /// Moves every id of the tree down by `value`; each id must be at least
    /// `value`, else the tree is left as it is and the id is reported
    /// invalid.
    pub fn decrement_ids(&mut self, value: usize) -> (r: Result<(), TreeError>)
        requires
            old(self).wf(),
        ensures
            final(self).wf(),
            (forall|x: NodeID| #[trigger] old(self).has(x) ==> value <= x) <==> r is Ok,
            r is Ok ==> final(self).is_shift_of(old(self), -value),
            r is Err ==> r->Err_0 == TreeError::InvalidIdentifier && *final(self) == *old(self),
    {
        let len = self.slots.len();
        let mut x: usize = 0;
        while x < len && x < value
            invariant
                len == self.slots@.len(),
                0 <= x <= len,
                *self == *old(self),
                self.wf(),
                forall|y: NodeID| y < x ==> !#[trigger] self.has(y),
            decreases len - x,
        {
            if self.slots[x].is_some() {
                assert(self.has(x) && x < value);
                return Err(TreeError::InvalidIdentifier);
            }
            x = x + 1;
        }
        proof {
            self.lemma_tree_facts();
            self.lemma_forest_facts();
            assert(self.has(self.root));
        }
        *self = self.shifted(0, value);
        Ok(())
    }

    proof fn lemma_same_links(&self, o: Self)
        requires
            o.wf(),
            self.root == o.root,
            self.rank == o.rank,
            self.bound == o.bound,
            forall|x: NodeID| #[trigger] self.has(x) == o.has(x),
            forall|x: NodeID| #[trigger] o.has(x) ==> self.parent(x) == o.parent(x) && self.child_ids(x) == o.child_ids(x),
        ensures
            self.wf(),
    {
        assert forall|p: NodeID, i: int| self.has(p) && 0 <= i < self.kids(p).len() implies {
            let c = #[trigger] self.kids(p)[i];
            &&& self.has(c.0)
            &&& self.parent(c.0) == Some(p)
        } by {
            assert(self.child_ids(p).len() == self.kids(p).len());
            assert(o.child_ids(p).len() == o.kids(p).len());
            assert(self.child_ids(p)[i] == o.child_ids(p)[i]);
            assert(o.kids(p)[i].0 == self.kids(p)[i].0);
        }
        assert forall|p: NodeID, i: int, j: int| self.has(p) && 0 <= i < j < self.kids(p).len()
            implies #[trigger] self.kids(p)[i].0 != #[trigger] self.kids(p)[j].0 by {
            assert(self.child_ids(p).len() == self.kids(p).len());
            assert(o.child_ids(p).len() == o.kids(p).len());
            assert(self.child_ids(p)[i] == o.child_ids(p)[i]);
            assert(self.child_ids(p)[j] == o.child_ids(p)[j]);
            assert(o.kids(p)[i].0 != o.kids(p)[j].0);
        }
    }

    /// Sets the weight of the edge from `parent` to `child`; where `child`
    /// is not a child of `parent`, nothing changes.
    pub fn set_edge_weight(&mut self, parent: NodeID, child: NodeID, edge_weight: Option<EdgeWeight>)
        requires
            old(self).wf(),
            old(self).has(parent),
        ensures
            final(self).wf(),
            final(self).same_frame(old(self)),
            final(self).same_except(old(self), parent, parent),
            old(self).has(parent) ==> final(self).node(parent) == old(self).node(parent)
                && final(self).parent(parent) == old(self).parent(parent)
                && final(self).kids(parent) == reweighted(old(self).kids(parent), child, edge_weight),
    {
        if !self.contains(parent) {
            return;
        }
        let ghost o = *self;
        let kids = match self.get_node_children(parent) {
            Ok(v) => v,
            Err(_) => {
                return;
            },
        };
        let mut nk: Vec<(NodeID, Option<EdgeWeight>)> = Vec::new();
        let mut i: usize = 0;
        while i < kids.len()
            invariant
                0 <= i <= kids@.len(),
                nk@.len() == i,
                forall|j: int| 0 <= j < i ==> #[trigger] nk@[j] == (if kids@[j].0 == child { (kids@[j].0, edge_weight) } else { kids@[j] }),
            decreases kids@.len() - i,
        {
            if kids[i].0 == child {
                nk.push((child, edge_weight));
            } else {
                nk.push(kids[i]);
            }
            i = i + 1;
        }
        let mut s = self.take_slot(parent);
        s.children = nk;
        self.put_slot(parent, s);
        proof {
            assert(self.kids(parent) =~= reweighted(o.kids(parent), child, edge_weight));
            assert forall|x: NodeID| #[trigger] self.has(x) == o.has(x) by {}
            assert forall|x: NodeID| #[trigger] o.has(x) implies self.parent(x) == o.parent(x) && self.child_ids(x) == o.child_ids(x) by {
                if x != parent {
                    assert(self.slots@[x as int] == o.slots@[x as int]);
                } else {
                    assert(self.child_ids(x) =~= o.child_ids(x));
                }
            }
            self.lemma_same_links(o);
        }
    }

    /// Puts a new internal node in the middle of the edge `(parent, child)`:
    /// the parent's entry for `child` now leads to the new node, with the
    /// first weight, and the new node's one child is `child`, with the
    /// second. Returns the new node's id.
    #[verifier::rlimit(100)]
    #[verifier::spinoff_prover]
    pub fn split_edge(&mut self, edge: (NodeID, NodeID), edge_weights: (Option<EdgeWeight>, Option<EdgeWeight>)) -> (r: Result<NodeID, TreeError>)
        requires
            old(self).wf(),
            old(self).next_id() < usize::MAX,
        ensures
            final(self).wf(),
            !(old(self).has(edge.1) && old(self).parent(edge.1) == Some(edge.0)) ==> r is Err
                && r->Err_0 == TreeError::InvalidIdentifier && *final(self) == *old(self),
            old(self).has(edge.1) && old(self).parent(edge.1) == Some(edge.0) ==> {
                let m = r->Ok_0;
                let (p, c) = edge;
                &&& r is Ok
                &&& m == old(self).next_id()
                &&& final(self).spec_root() == old(self).spec_root()
                &&& forall|x: NodeID| #[trigger] final(self).has(x) <==> old(self).has(x) || x == m
                &&& final(self).node(m) == NodeType::Internal(None)
                &&& final(self).parent(m) == Some(p)
                &&& final(self).kids(m) == seq![(c, edge_weights.1)]
                &&& final(self).parent(c) == Some(m)
                &&& final(self).kids(c) == old(self).kids(c)
                &&& final(self).node(c) == old(self).node(c)
                &&& final(self).node(p) == old(self).node(p)
                &&& final(self).parent(p) == old(self).parent(p)
                &&& exists|k: int| 0 <= k < old(self).kids(p).len() && #[trigger] old(self).kids(p)[k].0 == c
                    && final(self).kids(p) == old(self).kids(p).update(k, (m, edge_weights.0))
                &&& forall|x: NodeID| #[trigger] old(self).has(x) && x != p && x != c ==> final(self).slot(x) == old(self).slot(x)
            },
    {
        let (p, c) = edge;
        match self.get_node_parent(c) {
            Ok(Some(q)) => {
                if q != p {
                    return Err(TreeError::InvalidIdentifier);
                }
            },
            _ => {
                return Err(TreeError::InvalidIdentifier);
            },
        }
        proof { self.lemma_tree_facts(); self.lemma_forest_facts(); }
        let ghost o = *self;
        let kids = match self.get_node_children(p) {
            Ok(v) => v,
            Err(e) => {
                return Err(e);
            },
        };
        let mut k: usize = 0;
        while k < kids.len() && kids[k].0 != c
            invariant
                0 <= k <= kids@.len(),
                forall|j: int| 0 <= j < k ==> (#[trigger] kids@[j]).0 != c,
            decreases kids@.len() - k,
        {
            k = k + 1;
        }
        if k == kids.len() {
            proof {
                assert(self.child_ids(p).contains(c));
                let j = choose|j: int| 0 <= j < self.child_ids(p).len() && self.child_ids(p)[j] == c;
                assert(kids@[j].0 == c);
            }
            return Err(TreeError::BrokenAncestorChain);
        }
        let m = self.slots.len();
        let mut nc: Vec<(NodeID, Option<EdgeWeight>)> = Vec::new();
        nc.push((c, edge_weights.1));
        self.slots.push(Some(Slot { node: NodeType::Internal(None), parent: Some(p), children: nc }));
        let mut ps = self.take_slot(p);
        ps.children.set(k, (m, edge_weights.0));
        self.put_slot(p, ps);
        let mut cs = self.take_slot(c);
        cs.parent = Some(m);
        self.put_slot(c, cs);
        let ghost old_rank = self.rank@;
        self.rank = Ghost(Map::new(|x: NodeID| old_rank.dom().contains(x) || x == m,
            |x: NodeID| if x == m { (2 * old_rank[c] - 1) as nat } else { 2 * old_rank[x] }));
        self.bound = Ghost(2 * self.bound@);
        proof {
            let kk = k as int;
            assert(o.rank@[p] < o.rank@[c]);
            assert forall|x: NodeID| #[trigger] self.has(x) <==> o.has(x) || x == m by {
                if x < m {
                    assert(o.slots@[x as int] is Some <==> self.slots@[x as int] is Some);
                }
            }
            assert forall|x: NodeID| #[trigger] o.has(x) && x != p && x != c implies self.slot(x) == o.slot(x) by {
                assert(self.slots@[x as int] == o.slots@[x as int]);
            }
            assert(self.kids(p) == o.kids(p).update(kk, (m, edge_weights.0)));
            assert(self.kids(m) =~= seq![(c, edge_weights.1)]);
            assert forall|x: NodeID| #[trigger] self.has(x) implies self.rank@.dom().contains(x) && self.rank@[x] < self.bound@ by {
                if x != m {
                    assert(o.has(x));
                }
            }
            assert forall|x: NodeID| #[trigger] self.has(x) && self.parent(x) is Some implies {
                let q = self.parent(x)->Some_0;
                &&& self.has(q)
                &&& self.child_ids(q).contains(x)
                &&& self.rank@[q] < self.rank@[x]
            } by {
                if x == m {
                    assert(self.child_ids(p)[kk] == m);
                } else if x == c {
                    assert(self.child_ids(m)[0] == c);
                } else {
                    assert(o.has(x));
                    let q = o.parent(x)->Some_0;
                    assert(o.child_ids(q).contains(x));
                    let j = choose|j: int| 0 <= j < o.child_ids(q).len() && o.child_ids(q)[j] == x;
                    if q == p {
                        assert(j != kk);
                        assert(self.child_ids(q)[j] == x);
                    } else if q == c {
                        assert(self.child_ids(q)[j] == x);
                    } else {
                        assert(self.child_ids(q)[j] == x);
                    }
                }
            }
            assert forall|q: NodeID, i: int| self.has(q) && 0 <= i < self.kids(q).len() implies {
                let e = #[trigger] self.kids(q)[i];
                &&& self.has(e.0)
                &&& self.parent(e.0) == Some(q)
            } by {
                if q == m {
                } else if q == p && i == kk {
                } else {
                    assert(o.has(q));
                    assert(self.kids(q)[i] == o.kids(q)[i]);
                    let e = o.kids(q)[i].0;
                    assert(o.parent(e) == Some(q));
                    if e == c {
                        assert(q == p);
                        assert(o.kids(q)[i].0 != o.kids(q)[kk].0);
                    }
                    assert(e != m);
                }
            }
            assert forall|q: NodeID, i: int, j: int| self.has(q) && 0 <= i < j < self.kids(q).len()
                implies #[trigger] self.kids(q)[i].0 != #[trigger] self.kids(q)[j].0 by {
                if q != m {
                    assert(o.has(q));
                    if q == p && (i == kk || j == kk) {
                        let other = if i == kk { j } else { i };
                        assert(o.has(o.kids(q)[other].0));
                    } else {
                        assert(self.kids(q)[i] == o.kids(q)[i]);
                        assert(self.kids(q)[j] == o.kids(q)[j]);
                    }
                }
            }
            assert forall|x: NodeID| #[trigger] self.has(x) && x != self.root implies self.parent(x) is Some by {
                if x != m && x != c {
                    assert(o.has(x));
                }
            }
            assert(self.root != c);
            assert(self.root != m);
        }
        Ok(m)
    }

    /// A node that contraction removes: an internal root with one child, or
    /// another internal node with fewer than two children.
    pub open spec fn is_redundant(&self, x: NodeID) -> bool {
        &&& self.has(x)
        &&& !self.node(x).spec_is_leaf()
        &&& if x == self.spec_root() {
            self.kids(x).len() == 1
        } else {
            self.kids(x).len() < 2
        }
    }

    /// In this tree, which contraction made from `o`, node `y` hangs below
    /// its nearest ancestor in `o` that is still here.
    pub open spec fn links_to_nearest_kept(&self, o: &Self, y: NodeID) -> bool {
        let q = self.parent(y)->Some_0;
        &&& self.parent(y) is Some
        &&& q != y
        &&& o.is_desc(y, q)
        &&& forall|z: NodeID| #[trigger] self.has(z) && z != y && o.is_desc(y, z) ==> o.is_desc(q, z)
    }

    /// How many nodes the tree holds.
    pub closed spec fn node_count(&self) -> nat {
        count_some(self.slots@)
    }

    fn find_redundant(&self) -> (r: Option<NodeID>)
        requires
            self.wf(),
        ensures
            r is Some ==> self.is_redundant(r->Some_0),
            r is None ==> forall|x: NodeID| !#[trigger] self.is_redundant(x),
    {
        let len = self.slots.len();
        let mut x: usize = 0;
        while x < len
            invariant
                len == self.slots@.len(),
                0 <= x <= len,
                forall|y: NodeID| y < x ==> !#[trigger] self.is_redundant(y),
            decreases len - x,
        {
            match &self.slots[x] {
                Some(s) => {
                    let n = s.children.len();
                    if s.node.is_leaf() {
                    } else if x == self.root {
                        if n == 1 {
                            return Some(x);
                        }
                    } else if n < 2 {
                        return Some(x);
                    }
                },
                None => {},
            }
            x = x + 1;
        }
        None
    }

    fn splice_list(a: &Vec<(NodeID, Option<EdgeWeight>)>, k: usize, b: &Vec<(NodeID, Option<EdgeWeight>)>) -> (r: Vec<(NodeID, Option<EdgeWeight>)>)
        requires
            k < a@.len(),
        ensures
            r@ == a@.take(k as int) + b@ + a@.skip(k + 1),
    {
        let mut out: Vec<(NodeID, Option<EdgeWeight>)> = Vec::new();
        let mut i: usize = 0;
        while i < k
            invariant
                k < a@.len(),
                0 <= i <= k,
                out@ == a@.take(i as int),
            decreases k - i,
        {
            out.push(a[i]);
            i = i + 1;
            assert(out@ =~= a@.take(i as int));
        }
        let mut j: usize = 0;
        while j < b.len()
            invariant
                k < a@.len(),
                0 <= j <= b@.len(),
                out@ == a@.take(k as int) + b@.take(j as int),
            decreases b@.len() - j,
        {
            out.push(b[j]);
            j = j + 1;
            assert(out@ =~= a@.take(k as int) + b@.take(j as int));
        }
        assert(b@.take(b@.len() as int) =~= b@);
        let alen = a.len();
        let mut i: usize = k + 1;
        while i < alen
            invariant
                alen == a@.len(),
                k < a@.len(),
                k + 1 <= i <= a@.len(),
                out@ == a@.take(k as int) + b@ + a@.subrange(k + 1, i as int),
            decreases a@.len() - i,
        {
            out.push(a[i]);
            i = i + 1;
            assert(out@ =~= a@.take(k as int) + b@ + a@.subrange(k + 1, i as int));
        }
        assert(a@.subrange(k + 1, a@.len() as int) =~= a@.skip(k + 1));
        out
    }

    /// Gives every node whose parent is `from` the parent `to` instead.
    fn reparent_children(&mut self, from: NodeID, to: Option<NodeID>)
        ensures
            final(self).slots@.len() == old(self).slots@.len(),
            final(self).root == old(self).root,
            final(self).rank == old(self).rank,
            final(self).bound == old(self).bound,
            forall|y: int| 0 <= y < old(self).slots@.len() ==> #[trigger] final(self).slots@[y] == (
                if old(self).slots@[y] is Some && old(self).slots@[y]->Some_0.parent == Some(from) {
                    Some(Slot { parent: to, ..old(self).slots@[y]->Some_0 })
                } else {
                    old(self).slots@[y]
                }),
    {
        let ghost o = *self;
        let len = self.slots.len();
        let mut y: usize = 0;
        while y < len
            invariant
                len == self.slots@.len(),
                len == o.slots@.len(),
                0 <= y <= len,
                self.root == o.root,
                self.rank == o.rank,
                self.bound == o.bound,
                forall|z: int| 0 <= z < y ==> #[trigger] self.slots@[z] == (
                    if o.slots@[z] is Some && o.slots@[z]->Some_0.parent == Some(from) {
                        Some(Slot { parent: to, ..o.slots@[z]->Some_0 })
                    } else {
                        o.slots@[z]
                    }),
                forall|z: int| y <= z < len ==> #[trigger] self.slots@[z] == o.slots@[z],
            decreases len - y,
        {
            let hit = match &self.slots[y] {
                Some(s) => s.parent == Some(from),
                None => false,
            };
            if hit {
                let mut s = self.take_slot(y);
                s.parent = to;
                self.put_slot(y, s);
            }
            y = y + 1;
        }
    }

    /// Removes the non-root node `x`, handing its children, with their edge
    /// weights, to its parent in its place.
    pub fn splice_out(&mut self, x: NodeID)
        requires
            old(self).wf(),
            old(self).has(x),
            x != old(self).spec_root(),
        ensures
            final(self).wf(),
            final(self).node_count() + 1 == old(self).node_count(),
            final(self).spec_root() == old(self).spec_root(),
            forall|y: NodeID| #[trigger] final(self).has(y) <==> old(self).has(y) && y != x,
            forall|y: NodeID| #[trigger] final(self).has(y) ==> final(self).node(y) == old(self).node(y)
                && (old(self).kids(y).len() == 0 ==> final(self).kids(y).len() == 0)
                && final(self).parent(y) == (if old(self).parent(y) == Some(x) { old(self).parent(x) } else { old(self).parent(y) }),
            forall|y: NodeID| #[trigger] final(self).has(y) && final(self).parent(y) is Some
                ==> final(self).weight_to(final(self).parent(y)->Some_0, y) == old(self).weight_to(old(self).parent(y)->Some_0, y),
            forall|y: NodeID| #[trigger] final(self).has(y) && y != old(self).parent(x)->Some_0 ==> final(self).kids(y) == old(self).kids(y),
            ({
                let p = old(self).parent(x)->Some_0;
                exists|k: int| 0 <= k < old(self).kids(p).len() && #[trigger] old(self).kids(p)[k].0 == x
                    && final(self).kids(p) == old(self).kids(p).take(k) + old(self).kids(x) + old(self).kids(p).skip(k + 1)
            }),
    {
        proof { self.lemma_tree_facts(); self.lemma_forest_facts(); }
        let ghost o = *self;
        let p = match self.get_node_parent(x) {
            Ok(Some(p)) => p,
            _ => {
                return;
            },
        };
        let kids = match self.get_node_children(p) {
            Ok(v) => v,
            Err(_) => {
                return;
            },
        };
        let mut k: usize = 0;
        while k < kids.len() && kids[k].0 != x
            invariant
                0 <= k <= kids@.len(),
                forall|j: int| 0 <= j < k ==> (#[trigger] kids@[j]).0 != x,
            decreases kids@.len() - k,
        {
            k = k + 1;
        }
        if k == kids.len() {
            proof {
                assert(self.child_ids(p).contains(x));
                let j = choose|j: int| 0 <= j < self.child_ids(p).len() && self.child_ids(p)[j] == x;
                assert(kids@[j].0 == x);
            }
            return;
        }
        let xs = match self.get_node_children(x) {
            Ok(v) => v,
            Err(_) => {
                return;
            },
        };
        let nk = Self::splice_list(kids, k, xs);
        self.reparent_children(x, Some(p));
        let ghost o1 = *self;
        proof {
            assert(o1.slots@[p as int] == o.slots@[p as int]) by {
                assert(o.rank_of(p) < o.rank_of(x));
            }
            assert(o1.slots@[x as int] == o.slots@[x as int]);
        }
        let mut ps = self.take_slot(p);
        ps.children = nk;
        self.put_slot(p, ps);
        self.slots.set(x, None);
        proof {
            assert(self.has(p));
            self.lemma_spliced(o, o1, x, p, k as int);
            self.lemma_spliced_weights(o, x, p, k as int);
        }
    }

    #[verifier::rlimit(100)]
    #[verifier::spinoff_prover]
    proof fn lemma_spliced(&self, o: Self, o1: Self, x: NodeID, p: NodeID, kk: int)
        requires
            o.wf(),
            o.has(x),
            x != o.root,
            o.parent(x) == Some(p),
            0 <= kk < o.kids(p).len(),
            o.kids(p)[kk].0 == x,
            o1.slots@.len() == o.slots@.len(),
            forall|y: int| 0 <= y < o.slots@.len() ==> #[trigger] o1.slots@[y] == (
                if o.slots@[y] is Some && o.slots@[y]->Some_0.parent == Some(x) {
                    Some(Slot { parent: Some(p), ..o.slots@[y]->Some_0 })
                } else {
                    o.slots@[y]
                }),
            self.slots@.len() == o.slots@.len(),
            forall|y: int| 0 <= y < o.slots@.len() && y != p && y != x ==> #[trigger] self.slots@[y] == o1.slots@[y],
            self.slots@[x as int] is None,
            self.has(p),
            self.slot(p).node == o.slot(p).node,
            self.slot(p).parent == o.slot(p).parent,
            self.slot(p).children@ == o.kids(p).take(kk) + o.kids(x) + o.kids(p).skip(kk + 1),
            self.root == o.root,
            self.rank == o.rank,
            self.bound == o.bound,
        ensures
            self.wf(),
            self.node_count() + 1 == o.node_count(),
            forall|y: NodeID| #[trigger] self.has(y) <==> o.has(y) && y != x,
            forall|y: NodeID| #[trigger] self.has(y) ==> self.node(y) == o.node(y)
                && (o.kids(y).len() == 0 ==> self.kids(y).len() == 0)
                && (y != p ==> self.kids(y) == o.kids(y))
                && self.parent(y) == (if o.parent(y) == Some(x) { Some(p) } else { o.parent(y) }),
            self.kids(p) == o.kids(p).take(kk) + o.kids(x) + o.kids(p).skip(kk + 1),
    {
        o.lemma_tree_facts();
        o.lemma_forest_facts();
        let cs = o.kids(x);
        let nk = self.kids(p);
        let pre = o.kids(p).take(kk);
        let post = o.kids(p).skip(kk + 1);
        assert(p != x);
        assert forall|y: NodeID| #[trigger] self.has(y) <==> o.has(y) && y != x by {
            if y < o.slots@.len() && y != x && y != p {
                assert(self.slots@[y as int] == o1.slots@[y as int]);
                assert(o1.slots@[y as int] is Some <==> o.slots@[y as int] is Some);
            }
        }
        assert forall|y: NodeID| #[trigger] self.has(y) implies self.node(y) == o.node(y)
            && (y != p ==> self.kids(y) == o.kids(y))
            && self.parent(y) == (if o.parent(y) == Some(x) { Some(p) } else { o.parent(y) }) by {
            if y != p {
                assert(self.slots@[y as int] == o1.slots@[y as int]);
            }
            assert(o1.slots@[y as int] == (if o.slots@[y as int] is Some && o.slots@[y as int]->Some_0.parent == Some(x) {
                    Some(Slot { parent: Some(p), ..o.slots@[y as int]->Some_0 })
                } else {
                    o.slots@[y as int]
                }));
        }
        assert(self.slots@.len() == o.slots@.len());
        assert(self.slots@[x as int] is None);
        assert forall|y: int| 0 <= y < o.slots@.len() && y != x implies (#[trigger] o.slots@[y] is Some <==> self.slots@[y] is Some) by {
            if y != p {
                assert(self.slots@[y] == o1.slots@[y]);
            }
            assert(o1.slots@[y] is Some <==> o.slots@[y] is Some);
        }
        lemma_count_drop(o.slots@, self.slots@, x as int);
        assert(o.rank@[p] < o.rank@[x]);
        // every entry of the new child list of `p`
        assert forall|i: int| 0 <= i < nk.len() implies
            (#[trigger] nk[i]) == (if i < kk { o.kids(p)[i] } else if i < kk + cs.len() { cs[i - kk] } else { o.kids(p)[i - cs.len() + 1] }) by {
            if i < kk {
                assert(nk[i] == pre[i]);
            } else if i < kk + cs.len() {
                assert(nk[i] == cs[i - kk]);
            } else {
                assert(nk[i] == post[i - kk - cs.len()]);
            }
        }
        assert(nk.len() == o.kids(p).len() - 1 + cs.len());
        assert forall|q: NodeID, i: int| self.has(q) && 0 <= i < self.kids(q).len() implies {
            let e = #[trigger] self.kids(q)[i];
            &&& self.has(e.0)
            &&& self.parent(e.0) == Some(q)
        } by {
            if q == p {
                if i < kk || i >= kk + cs.len() {
                    let j = if i < kk { i } else { i - cs.len() + 1 };
                    assert(j != kk);
                    let e = o.kids(p)[j].0;
                    assert(o.kids(p)[j].0 != o.kids(p)[kk].0);
                    assert(o.parent(e) == Some(p));
                    assert(self.has(e));
                } else {
                    let e = cs[i - kk].0;
                    assert(o.parent(e) == Some(x));
                    assert(o.rank_of(x) < o.rank_of(e));
                    assert(self.has(e));
                }
            } else {
                assert(self.kids(q) == o.kids(q));
                let e = o.kids(q)[i].0;
                assert(o.parent(e) == Some(q));
                assert(q != x);
                assert(e != x);
                assert(self.has(e));
            }
        }
        assert forall|y: NodeID| #[trigger] self.has(y) && self.parent(y) is Some implies {
            let q = self.parent(y)->Some_0;
            &&& self.has(q)
            &&& self.child_ids(q).contains(y)
            &&& self.rank@[q] < self.rank@[y]
        } by {
            let q0 = o.parent(y)->Some_0;
            assert(o.child_ids(q0).contains(y));
            let j = choose|j: int| 0 <= j < o.child_ids(q0).len() && o.child_ids(q0)[j] == y;
            if q0 == x {
                assert(cs[j].0 == y);
                assert(nk[kk + j] == cs[j]);
                assert(self.child_ids(p)[kk + j] == y);
                assert(o.rank_of(p) < o.rank_of(x));
            } else if q0 == p {
                assert(j != kk);
                let i = if j < kk { j } else { j + cs.len() - 1 };
                assert(nk[i] == o.kids(p)[j]);
                assert(self.child_ids(p)[i] == y);
            } else {
                assert(self.kids(q0) == o.kids(q0));
                assert(self.child_ids(q0)[j] == y);
            }
        }
        assert forall|q: NodeID, i: int, j: int| self.has(q) && 0 <= i < j < self.kids(q).len()
            implies #[trigger] self.kids(q)[i].0 != #[trigger] self.kids(q)[j].0 by {
            if q == p {
                let a = nk[i].0;
                let b = nk[j].0;
                let i_in = kk <= i < kk + cs.len();
                let j_in = kk <= j < kk + cs.len();
                if i_in && j_in {
                    assert(cs[i - kk].0 != cs[j - kk].0);
                } else if !i_in && !j_in {
                    let ii = if i < kk { i } else { i - cs.len() + 1 };
                    let jj = if j < kk { j } else { j - cs.len() + 1 };
                    assert(o.kids(p)[ii].0 != o.kids(p)[jj].0);
                } else {
                    let (ci, oi) = if i_in { (i - kk, if j < kk { j } else { j - cs.len() + 1 }) } else { (j - kk, if i < kk { i } else { i - cs.len() + 1 }) };
                    assert(o.parent(cs[ci].0) == Some(x));
                    assert(o.parent(o.kids(p)[oi].0) == Some(p));
                }
            } else {
                assert(self.kids(q) == o.kids(q));
                assert(o.kids(q)[i].0 != o.kids(q)[j].0);
            }
        }
        assert forall|y: NodeID| #[trigger] self.has(y) implies self.rank@.dom().contains(y) && self.rank@[y] < self.bound@ by {
            assert(o.has(y));
        }
        assert forall|y: NodeID| #[trigger] self.has(y) && y != self.root implies self.parent(y) is Some by {
            assert(o.has(y));
        }
        assert(self.has(self.root));
        assert(self.parent(self.root) is None) by {
            assert(o.parent(o.root) is None);
        }
    }

    /// Drops a root that has one child, making that child the root.
    #[verifier::rlimit(100)]
    #[verifier::spinoff_prover]
    fn promote_only_child(&mut self)
        requires
            old(self).wf(),
            old(self).kids(old(self).spec_root()).len() == 1,
        ensures
            final(self).wf(),
            final(self).node_count() + 1 == old(self).node_count(),
            final(self).spec_root() == old(self).kids(old(self).spec_root())[0].0,
            forall|y: NodeID| #[trigger] final(self).has(y) <==> old(self).has(y) && y != old(self).spec_root(),
            forall|y: NodeID| #[trigger] final(self).has(y) ==> final(self).node(y) == old(self).node(y)
                && final(self).kids(y) == old(self).kids(y)
                && (y != final(self).spec_root() ==> final(self).parent(y) == old(self).parent(y)),
    {
        proof { self.lemma_tree_facts(); self.lemma_forest_facts(); }
        let ghost o = *self;
        let r = self.root;
        let c = match self.get_node_children(r) {
            Ok(v) => v[0].0,
            Err(_) => {
                return;
            },
        };
        proof {
            assert(o.kids(r)[0].0 == c);
            assert(o.has(c));
            assert(o.parent(c) == Some(r));
        }
        let mut cs = self.take_slot(c);
        cs.parent = None;
        self.put_slot(c, cs);
        self.slots.set(r, None);
        self.root = c;
        proof {
            assert forall|y: NodeID| #[trigger] self.has(y) <==> o.has(y) && y != r by {
                if y < o.slots@.len() && y != c && y != r {
                    assert(self.slots@[y as int] == o.slots@[y as int]);
                }
            }
            assert forall|y: NodeID| #[trigger] self.has(y) && y != c implies self.slot(y) == o.slot(y) by {
                assert(self.slots@[y as int] == o.slots@[y as int]);
            }
            assert forall|y: int| 0 <= y < o.slots@.len() && y != r implies (#[trigger] o.slots@[y] is Some <==> self.slots@[y] is Some) by {
                if y != c {
                    assert(self.slots@[y] == o.slots@[y]);
                }
            }
            lemma_count_drop(o.slots@, self.slots@, r as int);
            assert forall|q: NodeID, i: int| self.has(q) && 0 <= i < self.kids(q).len() implies {
                let e = #[trigger] self.kids(q)[i];
                &&& self.has(e.0)
                &&& self.parent(e.0) == Some(q)
            } by {
                assert(self.kids(q) == o.kids(q));
                let e = o.kids(q)[i].0;
                assert(o.parent(e) == Some(q));
                assert(e != r);
                assert(e != c);
            }
            assert forall|y: NodeID| #[trigger] self.has(y) && self.parent(y) is Some implies {
                let q = self.parent(y)->Some_0;
                &&& self.has(q)
                &&& self.child_ids(q).contains(y)
                &&& self.rank@[q] < self.rank@[y]
            } by {
                let q = o.parent(y)->Some_0;
                assert(y != c);
                assert(o.child_ids(q).contains(y));
                if q == r {
                    let j = choose|j: int| 0 <= j < o.child_ids(q).len() && o.child_ids(q)[j] == y;
                    assert(o.kids(r)[j].0 == y);
                }
                assert(self.child_ids(q) == o.child_ids(q));
            }
            assert forall|q: NodeID, i: int, j: int| self.has(q) && 0 <= i < j < self.kids(q).len()
                implies #[trigger] self.kids(q)[i].0 != #[trigger] self.kids(q)[j].0 by {
                assert(self.kids(q) == o.kids(q));
                assert(o.kids(q)[i].0 != o.kids(q)[j].0);
            }
            assert forall|y: NodeID| #[trigger] self.has(y) implies self.rank@.dom().contains(y) && self.rank@[y] < self.bound@ by {
                assert(o.has(y));
            }
            assert forall|y: NodeID| #[trigger] self.has(y) && y != self.root implies self.parent(y) is Some by {
                assert(o.has(y));
            }
        }
    }

    /// Contracts redundant nodes until none is left: an internal root with
    /// one child gives way to that child, and an internal node with fewer
    /// than two children is spliced out (see `splice_out`), its children
    /// taking its place in its parent's list with their own edge weights.
    pub fn clean(&mut self)
        requires
            old(self).wf(),
        ensures
            final(self).wf(),
            forall|x: NodeID| !#[trigger] final(self).is_redundant(x),
            forall|x: NodeID| #[trigger] final(self).has(x) ==> old(self).has(x) && final(self).node(x) == old(self).node(x),
            forall|x: NodeID| #[trigger] old(self).has(x) && !final(self).has(x) ==> !old(self).node(x).spec_is_leaf(),
            forall|x: NodeID| #[trigger] old(self).has(x) && old(self).node(x).spec_is_leaf() && old(self).kids(x).len() == 0
                ==> final(self).has(x) && final(self).kids(x).len() == 0,
            forall|y: NodeID| #[trigger] final(self).has(y) && y != final(self).spec_root()
                ==> final(self).links_to_nearest_kept(old(self), y)
                && final(self).weight_to(final(self).parent(y)->Some_0, y) == old(self).weight_to(old(self).parent(y)->Some_0, y),
            (forall|x: NodeID| !#[trigger] old(self).is_redundant(x)) ==> *final(self) == *old(self),
            (forall|x: NodeID| #[trigger] old(self).has(x) && !old(self).node(x).spec_is_leaf() ==> old(self).kids(x).len() >= 1)
                ==> forall|x: NodeID| #[trigger] old(self).has(x) && !final(self).has(x) ==> old(self).kids(x).len() == 1,
    {
        let ghost o = *self;
        proof {
            o.lemma_tree_facts();
            o.lemma_forest_facts();
            assert forall|y: NodeID| #[trigger] o.has(y) && y != o.spec_root() implies o.links_to_nearest_kept(&o, y) by {
                let q = o.parent(y)->Some_0;
                assert(o.is_desc(q, q));
                assert(o.is_desc(y, q));
            }
        }
        loop
            invariant
                self.wf(),
                o == *old(self),
                o.wf(),
                forall|x: NodeID| #[trigger] self.has(x) ==> o.has(x) && self.node(x) == o.node(x),
                forall|x: NodeID| #[trigger] o.has(x) && !self.has(x) ==> !o.node(x).spec_is_leaf(),
                forall|x: NodeID| #[trigger] o.has(x) && o.node(x).spec_is_leaf() && o.kids(x).len() == 0
                    ==> self.has(x) && self.kids(x).len() == 0,
                forall|y: NodeID| #[trigger] self.has(y) && y != self.spec_root()
                    ==> self.links_to_nearest_kept(&o, y)
                    && self.weight_to(self.parent(y)->Some_0, y) == o.weight_to(o.parent(y)->Some_0, y),
                (forall|x: NodeID| !#[trigger] o.is_redundant(x)) ==> *self == o,
                (forall|x: NodeID| #[trigger] o.has(x) && !o.node(x).spec_is_leaf() ==> o.kids(x).len() >= 1) ==> {
                    &&& forall|y: NodeID| #[trigger] self.has(y) ==> self.kids(y).len() == o.kids(y).len()
                    &&& forall|x: NodeID| #[trigger] o.has(x) && !self.has(x) ==> o.kids(x).len() == 1
                },
            decreases self.node_count(),
        {
            let ghost s0 = *self;
            match self.find_redundant() {
                None => {
                    return;
                },
                Some(x) => {
                    if x == self.root {
                        self.promote_only_child();
                        proof {
                            self.lemma_tree_facts();
                            self.lemma_forest_facts();
                            assert forall|y: NodeID| #[trigger] self.has(y) && y != self.spec_root() implies
                                self.links_to_nearest_kept(&o, y)
                                && self.weight_to(self.parent(y)->Some_0, y) == o.weight_to(o.parent(y)->Some_0, y) by {
                                assert(s0.has(y));
                                let q = self.parent(y)->Some_0;
                                assert(self.has(q));
                                assert(self.kids(q) == s0.kids(q));
                                assert forall|z: NodeID| #[trigger] self.has(z) && z != y && o.is_desc(y, z) implies o.is_desc(q, z) by {
                                    assert(s0.has(z));
                                }
                            }
                        }
                    } else {
                        self.splice_out(x);
                        proof {
                            let p = s0.parent(x)->Some_0;
                            assert(s0.links_to_nearest_kept(&o, x));
                            assert forall|y: NodeID| #[trigger] self.has(y) && y != self.spec_root() implies
                                self.links_to_nearest_kept(&o, y)
                                && self.weight_to(self.parent(y)->Some_0, y) == o.weight_to(o.parent(y)->Some_0, y) by {
                                assert(s0.has(y));
                                assert(s0.links_to_nearest_kept(&o, y));
                                if s0.parent(y) == Some(x) {
                                    o.lemma_desc_trans(y, x, p);
                                    o.lemma_desc_rank(y, x);
                                    o.lemma_desc_rank(x, p);
                                    assert forall|z: NodeID| #[trigger] self.has(z) && z != y && o.is_desc(y, z) implies o.is_desc(p, z) by {
                                        assert(s0.has(z));
                                        assert(o.is_desc(x, z));
                                    }
                                } else {
                                    let q = s0.parent(y)->Some_0;
                                    assert forall|z: NodeID| #[trigger] self.has(z) && z != y && o.is_desc(y, z) implies o.is_desc(q, z) by {
                                        assert(s0.has(z));
                                    }
                                }
                            }
                        }
                    }
                    proof {
                        assert(s0.is_redundant(x));
                        assert forall|z: NodeID| #[trigger] o.has(z) && !self.has(z) implies !o.node(z).spec_is_leaf() by {
                            if s0.has(z) {
                                assert(z == x);
                            }
                        }
                        if forall|z: NodeID| #[trigger] o.has(z) && !o.node(z).spec_is_leaf() ==> o.kids(z).len() >= 1 {
                            assert(o.has(x));
                            assert(s0.kids(x).len() == o.kids(x).len());
                            assert(o.kids(x).len() == 1);
                            assert forall|y: NodeID| #[trigger] self.has(y) implies self.kids(y).len() == o.kids(y).len() by {
                                assert(s0.has(y));
                            }
                            assert forall|z: NodeID| #[trigger] o.has(z) && !self.has(z) implies o.kids(z).len() == 1 by {
                                if s0.has(z) {
                                    assert(z == x);
                                }
                            }
                        }
                    }
                },
            }
        }
    }

    /// Grafting a tree onto an edge is not provided.
    pub fn graft_subtree(&mut self, _tree: RootedPhyloTree, _edge: (NodeID, NodeID)) -> (r: Result<(), TreeError>)
        ensures
            r == Err::<(), TreeError>(TreeError::Unsupported),
            *final(self) == *old(self),
    {
        Err(TreeError::Unsupported)
    }

    /// Re-rooting at a node is not provided.
    pub fn reroot_at_node(&mut self, _node_id: NodeID) -> (r: Result<(), TreeError>)
        ensures
            r == Err::<(), TreeError>(TreeError::Unsupported),
            *final(self) == *old(self),
    {
        Err(TreeError::Unsupported)
    }

    /// Re-rooting on an edge is not provided.
    pub fn reroot_at_edge(&mut self, _edge: (NodeID, NodeID)) -> (r: Result<(), TreeError>)
        ensures
            r == Err::<(), TreeError>(TreeError::Unsupported),
            *final(self) == *old(self),
    {
        Err(TreeError::Unsupported)
    }

    #[verifier::rlimit(100)]
    #[verifier::spinoff_prover]
    proof fn lemma_spliced_weights(&self, o: Self, x: NodeID, p: NodeID, kk: int)
        requires
            o.wf(),
            self.wf(),
            o.has(x),
            o.parent(x) == Some(p),
            0 <= kk < o.kids(p).len(),
            o.kids(p)[kk].0 == x,
            forall|y: NodeID| #[trigger] self.has(y) <==> o.has(y) && y != x,
            forall|y: NodeID| #[trigger] self.has(y) ==> (y != p ==> self.kids(y) == o.kids(y))
                && self.parent(y) == (if o.parent(y) == Some(x) { Some(p) } else { o.parent(y) }),
            self.kids(p) == o.kids(p).take(kk) + o.kids(x) + o.kids(p).skip(kk + 1),
        ensures
            forall|y: NodeID| #[trigger] self.has(y) && self.parent(y) is Some
                ==> self.weight_to(self.parent(y)->Some_0, y) == o.weight_to(o.parent(y)->Some_0, y),
            exists|k: int| 0 <= k < o.kids(p).len() && #[trigger] o.kids(p)[k].0 == x
                && self.kids(p) == o.kids(p).take(k) + o.kids(x) + o.kids(p).skip(k + 1),
    {
        o.lemma_tree_facts();
        o.lemma_forest_facts();
        self.lemma_tree_facts();
        self.lemma_forest_facts();
        let cs = o.kids(x);
        assert forall|y: NodeID| #[trigger] self.has(y) && self.parent(y) is Some
            implies self.weight_to(self.parent(y)->Some_0, y) == o.weight_to(o.parent(y)->Some_0, y) by {
            let q0 = o.parent(y)->Some_0;
            assert(o.child_ids(q0).contains(y));
            let j = choose|j: int| 0 <= j < o.child_ids(q0).len() && o.child_ids(q0)[j] == y;
            assert(o.kids(q0)[j].0 == y);
            o.lemma_weight_at(q0, j);
            if q0 == x {
                assert(self.kids(p)[kk + j] == cs[j]);
                self.lemma_weight_at(p, kk + j);
            } else if q0 == p {
                assert(j != kk);
                let i = if j < kk { j } else { j + cs.len() - 1 };
                assert(self.kids(p)[i] == o.kids(p)[j]);
                self.lemma_weight_at(p, i);
            } else {
                assert(self.has(q0));
                assert(self.kids(q0) == o.kids(q0));
                self.lemma_weight_at(q0, j);
            }
        }
    }
}

} // verus!
