use phylo::node::{EdgeWeight, NodeType, TreeError};
use phylo::tree::RootedPhyloTree;
use phylo::weight::parse_weight;

fn parse(s: &str) -> RootedPhyloTree {
    RootedPhyloTree::from_newick(s.to_string()).unwrap()
}

fn labels(v: &[(usize, NodeType)]) -> Vec<String> {
    v.iter().map(|(_, n)| n.taxa()).collect()
}

#[test]
fn parses_labels_weights_and_leaves() {
    let t = parse("(A:1,B:2)C;");
    let root = t.get_root();
    assert_eq!(root, 0);
    assert_eq!(t.get_taxa(root).unwrap(), "C");
    let kids = t.get_node_children(root).unwrap().clone();
    assert_eq!(kids.len(), 2);
    assert_eq!(t.get_taxa(kids[0].0).unwrap(), "A");
    assert_eq!(t.get_taxa(kids[1].0).unwrap(), "B");
    assert_eq!(kids[0].1, Some(EdgeWeight { units: 1_000_000_000 }));
    assert_eq!(kids[1].1, Some(EdgeWeight { units: 2_000_000_000 }));
    assert_eq!(t.is_leaf(kids[0].0), Ok(true));
    assert_eq!(t.is_leaf(kids[1].0), Ok(true));
    assert_eq!(t.is_leaf(root), Ok(false));
}

#[test]
fn parses_nested_groups_and_finds_mrca() {
    let t = parse("((A,B),(C,D));");
    let root = t.get_root();
    let kids = t.get_node_children(root).unwrap().clone();
    assert_eq!(kids.len(), 2);
    for (k, _) in kids.iter() {
        assert_eq!(t.is_leaf(*k), Ok(false));
        let g = t.get_node_children(*k).unwrap();
        assert_eq!(g.len(), 2);
        for (l, _) in g.iter() {
            assert_eq!(t.is_leaf(*l), Ok(true));
        }
    }
    let ab = kids[0].0;
    let a = t.get_node_children(ab).unwrap()[0].0;
    let b = t.get_node_children(ab).unwrap()[1].0;
    let c = t.get_node_children(kids[1].0).unwrap()[0].0;
    assert_eq!(t.get_mrca(&vec![a, c]), Ok(root));
    assert_eq!(t.get_mrca(&vec![a, b]), Ok(ab));
    assert_eq!(t.get_mrca(&vec![]), Err(TreeError::EmptyNodeSet));
    assert_eq!(t.get_mrca(&vec![ab, a]), Ok(root));
    assert_eq!(t.get_mrca(&vec![a]), Ok(ab));
    assert_eq!(t.get_mrca(&vec![root, a]), Err(TreeError::NoCommonAncestor));
    assert_eq!(t.get_mrca(&vec![a, 99]), Err(TreeError::InvalidIdentifier));
}

#[test]
fn cluster_and_bipartition() {
    let t = parse("((A,B),(C,D));");
    let root = t.get_root();
    let cluster = t.get_cluster(root).unwrap();
    assert_eq!(labels(&cluster), vec!["A", "B", "C", "D"]);
    let ab = t.get_node_children(root).unwrap()[0].0;
    let (inside, outside) = t.get_bipartition((root, ab)).unwrap();
    assert_eq!(labels(&inside), vec!["A", "B"]);
    assert_eq!(labels(&outside), vec!["C", "D"]);
    assert_eq!(t.get_bipartition((ab, root)).map(|_| ()), Err(TreeError::InvalidIdentifier));
}

#[test]
fn distance_weighted_and_by_hops() {
    let t = parse("(A:1,B:2)C;");
    let a = t.get_node_children(0).unwrap()[0].0;
    let b = t.get_node_children(0).unwrap()[1].0;
    assert_eq!(t.distance_from_ancestor(a, 0, true), Ok(1_000_000_000));
    assert_eq!(t.distance_from_ancestor(a, 0, false), Ok(1_000_000_000));
    assert_eq!(t.distance_from_ancestor(b, 0, true), Ok(2_000_000_000));
    assert_eq!(t.distance_from_ancestor(a, a, true), Err(TreeError::NotAnAncestor));
    assert_eq!(t.distance_from_ancestor(0, a, true), Err(TreeError::NotAnAncestor));
    assert_eq!(t.distance_from_ancestor(a, 42, true), Err(TreeError::InvalidIdentifier));
}

#[test]
fn distance_treats_missing_weight_as_zero() {
    let t = parse("((A:0.5)X,B);");
    let x = t.get_node_children(0).unwrap()[0].0;
    let a = t.get_node_children(x).unwrap()[0].0;
    assert_eq!(t.distance_from_ancestor(a, 0, true), Ok(500_000_000));
    assert_eq!(t.distance_from_ancestor(a, 0, false), Ok(2_000_000_000));
}

#[test]
fn ancestors_nearest_first() {
    let t = parse("((A,B),(C,D));");
    assert_eq!(t.get_ancestors_pre(2), Ok(vec![1, 0]));
    assert_eq!(t.get_ancestors_pre(0), Ok(vec![]));
    assert_eq!(t.get_ancestors_pre(7), Err(TreeError::InvalidIdentifier));
}

#[test]
fn traversal_orders() {
    let t = parse("((A,B),(C,D));");
    assert_eq!(t.iter_node_pre(0), Ok(vec![0, 1, 2, 3, 4, 5, 6]));
    assert_eq!(t.iter_node_post(0), Ok(vec![2, 3, 1, 5, 6, 4, 0]));
    assert_eq!(t.iter_node_pre(4), Ok(vec![4, 5, 6]));
    assert_eq!(t.iter_edges_pre(0), Ok(vec![(0, 1), (1, 2), (1, 3), (0, 4), (4, 5), (4, 6)]));
    assert_eq!(t.iter_edges_post(0), Ok(vec![(1, 2), (1, 3), (0, 1), (4, 5), (4, 6), (0, 4)]));
}

#[test]
fn leaves_are_exactly_the_childless_nodes() {
    let t = parse("(((A)B,C),D,(E,F)G)H;");
    for id in 0..t.slot_count() {
        if t.contains(id) {
            let empty = t.get_node_children(id).unwrap().is_empty();
            assert_eq!(t.is_leaf(id), Ok(empty));
        }
    }
    let mut leaves = Vec::new();
    t.leaves_of_node(0, &mut leaves);
    let names: Vec<String> = leaves.iter().map(|x| t.get_taxa(*x).unwrap()).collect();
    assert_eq!(names, vec!["A", "C", "D", "E", "F"]);
}

#[test]
fn parse_ignores_whitespace_and_trailing_text() {
    let t = parse(" ( A : 1.5 ,\n B ) ; junk");
    let a = t.get_node_children(0).unwrap()[0];
    assert_eq!(t.get_taxa(a.0).unwrap(), "A");
    assert_eq!(a.1, Some(EdgeWeight { units: 1_500_000_000 }));
}

#[test]
fn parse_rejects_unbalanced_text() {
    assert!(matches!(RootedPhyloTree::from_newick("((A,B);".to_string()), Err(TreeError::MalformedInput)));
    assert!(matches!(RootedPhyloTree::from_newick("(A,B".to_string()), Err(TreeError::MalformedInput)));
    assert!(matches!(RootedPhyloTree::from_newick("A,B);".to_string()), Err(TreeError::MalformedInput)));
    assert!(matches!(RootedPhyloTree::from_newick("(A,B))".to_string()), Err(TreeError::MalformedInput)));
}

#[test]
fn weights_in_fixed_point() {
    let w = |s: &str| parse_weight(&s.chars().collect());
    assert_eq!(w("1"), Some(EdgeWeight { units: 1_000_000_000 }));
    assert_eq!(w("0.25"), Some(EdgeWeight { units: 250_000_000 }));
    assert_eq!(w(".5"), Some(EdgeWeight { units: 500_000_000 }));
    assert_eq!(w("3."), Some(EdgeWeight { units: 3_000_000_000 }));
    assert_eq!(w("0.1234567891"), Some(EdgeWeight { units: 123_456_789 }));
    assert_eq!(w(""), None);
    assert_eq!(w("."), None);
    assert_eq!(w("1.2.3"), None);
    assert_eq!(w("99999999999"), None);
}

#[test]
fn invalid_identifier_on_accessors() {
    let t = parse("(A,B);");
    assert!(matches!(t.get_node(99), Err(TreeError::InvalidIdentifier)));
    assert!(matches!(t.get_node_children(99), Err(TreeError::InvalidIdentifier)));
    assert_eq!(t.get_node_parent(99), Err(TreeError::InvalidIdentifier));
    assert_eq!(t.is_leaf(99), Err(TreeError::InvalidIdentifier));
    assert_eq!(t.get_taxa(99), Err(TreeError::InvalidIdentifier));
}

#[test]
fn building_by_hand() {
    let mut t = RootedPhyloTree::new();
    let a = t.add_node();
    assert_eq!(a, 1);
    t.set_child(a, 0, Some(EdgeWeight { units: 7 }), Some("A".to_string()));
    t.set_leaf(a);
    t.assign_taxa(a, "A2");
    assert_eq!(t.is_leaf(a), Ok(true));
    assert_eq!(t.get_taxa(a).unwrap(), "A2");
    t.assign_taxa(0, "R");
    assert_eq!(t.get_taxa(0).unwrap(), "R");
    assert_eq!(t.is_leaf(a), Ok(true));
    assert_eq!(t.get_node_parent(a), Ok(Some(0)));
    assert_eq!(t.get_node_children(0).unwrap().clone(), vec![(1, Some(EdgeWeight { units: 7 }))]);
}

fn node_ids(t: &RootedPhyloTree) -> Vec<usize> {
    (0..t.slot_count()).filter(|x| t.contains(*x)).collect()
}

#[test]
fn subtree_of_leaf_is_refused() {
    let t = parse("((A,B),(C,D));");
    assert!(matches!(t.get_subtree(2), Err(TreeError::InvalidNodeKind)));
    assert!(matches!(t.get_subtree(50), Err(TreeError::InvalidIdentifier)));
}

#[test]
fn subtree_copies_the_part_below() {
    let t = parse("((A:1,B:2)X,(C,D));");
    let s = t.get_subtree(1).unwrap();
    assert_eq!(s.get_root(), 1);
    assert_eq!(node_ids(&s), vec![1, 2, 3]);
    assert_eq!(s.get_node_parent(1), Ok(None));
    assert_eq!(s.get_taxa(1).unwrap(), "X");
    assert_eq!(s.get_node_children(1).unwrap().clone(), t.get_node_children(1).unwrap().clone());
    assert_eq!(node_ids(&t), vec![0, 1, 2, 3, 4, 5, 6]);
}

#[test]
fn prune_splits_the_node_set() {
    let mut t = parse("((A,B),(C,D));");
    let p = t.prune(1).unwrap();
    assert_eq!(node_ids(&t), vec![0, 4, 5, 6]);
    assert_eq!(node_ids(&p), vec![1, 2, 3]);
    assert_eq!(p.get_root(), 1);
    assert_eq!(t.get_node_children(0).unwrap().iter().map(|e| e.0).collect::<Vec<_>>(), vec![4]);
    let names: Vec<String> = t.get_cluster(0).unwrap().iter().map(|(_, n)| n.taxa()).collect();
    assert_eq!(names, vec!["C", "D"]);
    let names: Vec<String> = p.get_cluster(1).unwrap().iter().map(|(_, n)| n.taxa()).collect();
    assert_eq!(names, vec!["A", "B"]);
    assert!(matches!(t.prune(0), Err(TreeError::InvalidNodeKind)));
    assert!(matches!(t.prune(2), Err(TreeError::InvalidIdentifier)));
}

#[test]
fn split_edge_inserts_a_node() {
    let mut t = parse("(A:1,B:2)C;");
    let w1 = Some(EdgeWeight { units: 3 });
    let w2 = Some(EdgeWeight { units: 4 });
    let m = t.split_edge((0, 1), (w1, w2)).unwrap();
    assert_eq!(m, 3);
    assert_eq!(t.get_node_children(0).unwrap().clone(), vec![(3, w1), (2, Some(EdgeWeight { units: 2_000_000_000 }))]);
    assert_eq!(t.get_node_children(3).unwrap().clone(), vec![(1, w2)]);
    assert_eq!(t.get_node_parent(1), Ok(Some(3)));
    assert_eq!(t.get_node_parent(3), Ok(Some(0)));
    assert_eq!(t.get_ancestors_pre(1), Ok(vec![3, 0]));
    assert_eq!(t.distance_from_ancestor(1, 0, true), Ok(7));
    assert_eq!(t.split_edge((1, 0), (None, None)), Err(TreeError::InvalidIdentifier));
}

#[test]
fn set_edge_weight_changes_one_entry() {
    let mut t = parse("(A:1,B:2)C;");
    t.set_edge_weight(0, 2, None);
    assert_eq!(t.get_node_children(0).unwrap().clone(), vec![(1, Some(EdgeWeight { units: 1_000_000_000 })), (2, None)]);
    assert_eq!(t.distance_from_ancestor(2, 0, true), Ok(0));
}

#[test]
fn increment_then_decrement_round_trips() {
    let t0 = parse("((A:1,B:2)X,(C,D));");
    let mut t = parse("((A:1,B:2)X,(C,D));");
    t.incerement_ids(10);
    assert_eq!(t.get_root(), 10);
    assert_eq!(node_ids(&t), vec![10, 11, 12, 13, 14, 15, 16]);
    assert_eq!(t.get_node_parent(12), Ok(Some(11)));
    assert_eq!(t.get_node_children(11).unwrap().clone(), vec![(12, Some(EdgeWeight { units: 1_000_000_000 })), (13, Some(EdgeWeight { units: 2_000_000_000 }))]);
    assert_eq!(t.decrement_ids(11), Err(TreeError::InvalidIdentifier));
    assert_eq!(t.decrement_ids(10), Ok(()));
    assert_eq!(t.get_root(), t0.get_root());
    assert_eq!(node_ids(&t), node_ids(&t0));
    for x in node_ids(&t0) {
        assert_eq!(t.get_node_parent(x), t0.get_node_parent(x));
        assert_eq!(t.get_node_children(x).unwrap().clone(), t0.get_node_children(x).unwrap().clone());
        assert_eq!(t.get_taxa(x), t0.get_taxa(x));
        assert_eq!(t.is_leaf(x), t0.is_leaf(x));
    }
}

#[test]
fn clean_splices_out_unary_node() {
    // node 1 (X) has a single child Y (node 2), which has children A and B
    let mut t = parse("(((A:1,B:2)Y:3)X:4,C:5)R;");
    assert_eq!(t.get_node_children(1).unwrap().len(), 1);
    t.clean();
    assert!(!t.contains(1));
    assert_eq!(t.get_node_children(0).unwrap().clone(), vec![
        (2, Some(EdgeWeight { units: 3_000_000_000 })),
        (5, Some(EdgeWeight { units: 5_000_000_000 })),
    ]);
    assert_eq!(t.get_node_parent(2), Ok(Some(0)));
    assert_eq!(t.get_node_children(2).unwrap().clone(), vec![
        (3, Some(EdgeWeight { units: 1_000_000_000 })),
        (4, Some(EdgeWeight { units: 2_000_000_000 })),
    ]);
    assert_eq!(node_ids(&t), vec![0, 2, 3, 4, 5]);
    assert_eq!(t.iter_node_pre(0), Ok(vec![0, 2, 3, 4, 5]));
}

#[test]
fn clean_promotes_single_child_of_root() {
    let mut t = parse("((A,B)X)R;");
    t.clean();
    assert_eq!(t.get_root(), 1);
    assert!(!t.contains(0));
    assert_eq!(t.get_node_parent(1), Ok(None));
    assert_eq!(t.get_taxa(1).unwrap(), "X");
    assert_eq!(t.iter_node_pre(1), Ok(vec![1, 2, 3]));
}

#[test]
fn clean_leaves_binary_tree_alone() {
    let mut t = parse("((A,B),(C,D));");
    t.clean();
    assert_eq!(node_ids(&t), vec![0, 1, 2, 3, 4, 5, 6]);
}

#[test]
fn unsupported_operations() {
    let mut t = parse("((A,B),(C,D));");
    let other = parse("(E,F);");
    assert_eq!(t.graft_subtree(other, (0, 1)), Err(TreeError::Unsupported));
    assert_eq!(t.reroot_at_node(1), Err(TreeError::Unsupported));
    assert_eq!(t.reroot_at_edge((0, 1)), Err(TreeError::Unsupported));
    assert_eq!(node_ids(&t), vec![0, 1, 2, 3, 4, 5, 6]);
}

#[test]
fn whole_tables_by_id() {
    let mut t = parse("((A,B),(C,D));");
    t.prune(1).unwrap();
    let nodes = t.get_nodes();
    assert_eq!(nodes.iter().map(|e| e.0).collect::<Vec<_>>(), vec![0, 4, 5, 6]);
    assert_eq!(labels(&nodes), vec!["", "", "C", "D"]);
    assert_eq!(t.get_parents(), vec![(0, None), (4, Some(0)), (5, Some(4)), (6, Some(4))]);
    let children = t.get_children();
    assert_eq!(children[0], (0, vec![(4, None)]));
    assert_eq!(children[1], (4, vec![(5, None), (6, None)]));
    assert_eq!(children[2], (5, vec![]));
}

#[test]
fn clean_keeps_grandchild_weight() {
    let mut t = parse("((A:1):2,B:3);");
    t.clean();
    assert_eq!(t.get_root(), 0);
    assert!(!t.contains(1));
    assert_eq!(t.get_node_parent(2), Ok(Some(0)));
    assert_eq!(t.get_node_children(0).unwrap().clone(), vec![
        (2, Some(EdgeWeight { units: 1_000_000_000 })),
        (3, Some(EdgeWeight { units: 3_000_000_000 })),
    ]);
    let before = (node_ids(&t), t.get_parents(), t.get_children());
    t.clean();
    assert_eq!((node_ids(&t), t.get_parents(), t.get_children()), before);
}

#[test]
fn splice_out_puts_children_in_place() {
    let mut t = parse("(X,(A:1,B:2)Y:5,Z);");
    t.splice_out(2);
    let ids: Vec<usize> = t.get_node_children(0).unwrap().iter().map(|e| e.0).collect();
    assert_eq!(ids, vec![1, 3, 4, 5]);
    assert_eq!(t.get_node_parent(3), Ok(Some(0)));
}
