use vstd::prelude::*;

verus! {

/// Identifier of a node, unique within one tree.
pub type NodeID = usize;

/// Number of units in one whole edge-weight unit: weights are kept as
/// fixed-point decimals with nine fractional digits.
pub const UNITS_PER_WHOLE: u64 = 1_000_000_000;

/// An edge weight (branch length), a non-negative decimal held in
/// billionths.
#[derive(Clone, Copy, Debug, PartialEq, Eq, Structural)]
pub struct EdgeWeight {
    pub units: u64,
}

/// A vertex of a tree: its role and its optional taxon label.
#[derive(Clone, Debug)]
pub enum NodeType {
    Internal(Option<String>),
    Leaf(Option<String>),
}

/// The ways in which a tree operation can fail.
#[derive(Clone, Copy, Debug, PartialEq, Eq, Structural)]
pub enum TreeError {
    /// The tree text ended inside a group, or closed a group never opened.
    MalformedInput,
    /// A node id that the tree does not hold.
    InvalidIdentifier,
    /// An operation that the node's kind does not allow (a subtree of a leaf).
    InvalidNodeKind,
    /// A parent link without the matching child entry.
    BrokenAncestorChain,
    /// The given node is not an ancestor of the other.
    NotAnAncestor,
    /// The nodes share no ancestor: one of them is the root.
    NoCommonAncestor,
    /// A query over an empty set of nodes.
    EmptyNodeSet,
    /// An operation that this library does not provide.
    Unsupported,
}

impl NodeType {
    pub open spec fn spec_is_leaf(&self) -> bool {
        self is Leaf
    }

    pub open spec fn spec_taxon(&self) -> Option<String> {
        match self {
            NodeType::Internal(t) => *t,
            NodeType::Leaf(t) => *t,
        }
    }

    /// The label as characters, empty when unset.
    pub open spec fn taxon_view(&self) -> Seq<char> {
        match self.spec_taxon() {
            Some(s) => s@,
            None => Seq::empty(),
        }
    }

    pub fn is_leaf(&self) -> (r: bool)
        ensures
            r == self.spec_is_leaf(),
    {
        match self {
            NodeType::Internal(_) => false,
            NodeType::Leaf(_) => true,
        }
    }

    /// The taxon label, or the empty string where none is set.
    pub fn taxa(&self) -> (r: String)
        ensures
            r@ == self.taxon_view(),
    {
        match self {
            NodeType::Internal(Some(t)) => t.clone(),
            NodeType::Leaf(Some(t)) => t.clone(),
            _ => String::new(),
        }
    }

    /// A copy equal to this node.
    pub fn duplicate(&self) -> (r: NodeType)
        ensures
            r == *self,
    {
        match self {
            NodeType::Internal(Some(t)) => NodeType::Internal(Some(t.clone())),
            NodeType::Internal(None) => NodeType::Internal(None),
            NodeType::Leaf(Some(t)) => NodeType::Leaf(Some(t.clone())),
            NodeType::Leaf(None) => NodeType::Leaf(None),
        }
    }

    /// Swaps the kind between internal and leaf, keeping the label.
    pub fn flip(&mut self)
        ensures
            final(self).spec_is_leaf() == !old(self).spec_is_leaf(),
            final(self).spec_taxon() == old(self).spec_taxon(),
    {
        let t = match self {
            NodeType::Internal(t) => t.clone(),
            NodeType::Leaf(t) => t.clone(),
        };
        *self = match self {
            NodeType::Internal(_) => NodeType::Leaf(t),
            NodeType::Leaf(_) => NodeType::Internal(t),
        };
    }
}

} // verus!
