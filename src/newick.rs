use vstd::prelude::*;
use crate::node::{EdgeWeight, NodeID, NodeType, TreeError};
use crate::tree::RootedPhyloTree;
use crate::weight::{digits_and_dots, is_digit, parse_weight, weight_of};

verus! {

/// Unicode White_Space, the characters that `char::is_whitespace` accepts.
pub open spec fn is_space(c: char) -> bool {
    let u = c as u32;
    (0x9 <= u && u <= 0xd) || u == 0x20 || u == 0x85 || u == 0xa0 || u == 0x1680
        || (0x2000 <= u && u <= 0x200a) || u == 0x2028 || u == 0x2029 || u == 0x202f
        || u == 0x205f || u == 0x3000
}

/// The text with every whitespace character taken out.
pub open spec fn without_spaces(s: Seq<char>) -> Seq<char>
    decreases s.len(),
{
    if s.len() == 0 {
        s
    } else if is_space(s.last()) {
        without_spaces(s.drop_last())
    } else {
        without_spaces(s.drop_last()).push(s.last())
    }
}

pub open spec fn is_structural(c: char) -> bool {
    c == '(' || c == ')' || c == ',' || c == ':' || c == ';'
}

/// Reads the grouping characters of a tree text left to right, as
/// (a `;` was reached, the text is broken, open groups): a `)` or `,` outside
/// any group, or a `;` inside one, breaks it; what follows the first `;` is
/// not read.
pub open spec fn nest_state(s: Seq<char>) -> (bool, bool, nat)
    decreases s.len(),
{
    if s.len() == 0 {
        (false, false, 0)
    } else {
        let (stop, bad, d) = nest_state(s.drop_last());
        let c = s.last();
        if stop || bad {
            (stop, bad, d)
        } else if c == ';' {
            if d == 0 { (true, false, 0) } else { (false, true, d) }
        } else if c == '(' {
            (false, false, d + 1)
        } else if c == ')' {
            if d == 0 { (false, true, 0) } else { (false, false, (d - 1) as nat) }
        } else if c == ',' {
            if d == 0 { (false, true, 0) } else { (false, false, d) }
        } else {
            (false, false, d)
        }
    }
}

/// How many nodes the text opens besides the root: one for each `(` and
/// each `,` read before the text ends, breaks, or reaches its first `;`.
pub open spec fn node_marks(s: Seq<char>) -> nat
    decreases s.len(),
{
    if s.len() == 0 {
        0
    } else {
        let (stop, bad, d) = nest_state(s.drop_last());
        let m = node_marks(s.drop_last());
        if stop || bad {
            m
        } else if s.last() == '(' || s.last() == ',' {
            m + 1
        } else {
            m
        }
    }
}

proof fn lemma_node_marks_len(s: Seq<char>)
    ensures
        node_marks(s) <= s.len(),
    decreases s.len(),
{
    if s.len() > 0 {
        lemma_node_marks_len(s.drop_last());
    }
}

/// Whether every group of the text is closed, and none is closed or split
/// outside a group, up to its first `;`.
pub open spec fn well_nested(s: Seq<char>) -> bool {
    let (stop, bad, d) = nest_state(s);
    !bad && d == 0
}

/// Where a left-to-right reading of a tree text stands: the open groups
/// and the node being read, the label and weight text gathered for it,
/// and, by node id, the parent, label and (child, weight) list built so far.
pub struct ScanModel {
    pub stack: Seq<NodeID>,
    pub ctx: NodeID,
    pub taxa: Seq<char>,
    pub dec: Seq<char>,
    pub in_weight: bool,
    pub stopped: bool,
    pub bad: bool,
    pub count: nat,
    pub labels: Map<NodeID, Option<Seq<char>>>,
    pub parents: Map<NodeID, Option<NodeID>>,
    pub kids: Map<NodeID, Seq<(NodeID, Option<EdgeWeight>)>>,
}

/// A gathered label: none where no character was read.
pub open spec fn label_of(taxa: Seq<char>) -> Option<Seq<char>> {
    if taxa.len() == 0 { None } else { Some(taxa) }
}

/// The label of a node as characters.
pub open spec fn label_view(n: NodeType) -> Option<Seq<char>> {
    match n.spec_taxon() {
        Some(t) => Some(t@),
        None => None,
    }
}

/// Before any character: the root, id 0, alone and open for reading.
pub open spec fn scan_start() -> ScanModel {
    ScanModel {
        stack: Seq::empty(),
        ctx: 0,
        taxa: Seq::empty(),
        dec: Seq::empty(),
        in_weight: false,
        stopped: false,
        bad: false,
        count: 1,
        labels: Map::empty().insert(0, None),
        parents: Map::empty().insert(0, None),
        kids: Map::empty().insert(0, Seq::empty()),
    }
}

/// The reading with one more node, parentless, childless and unlabelled,
/// which becomes the node being read.
pub open spec fn scan_open(m: ScanModel) -> ScanModel {
    let id = m.count as NodeID;
    ScanModel {
        ctx: id,
        count: m.count + 1,
        labels: m.labels.insert(id, None),
        parents: m.parents.insert(id, None),
        kids: m.kids.insert(id, Seq::empty()),
        ..m
    }
}

/// The reading with the node being read attached as the last child of the
/// innermost open group, with the gathered label and weight.
pub open spec fn scan_attach(m: ScanModel) -> ScanModel {
    let top = m.stack.last();
    ScanModel {
        taxa: Seq::empty(),
        dec: Seq::empty(),
        in_weight: false,
        labels: m.labels.insert(m.ctx, label_of(m.taxa)),
        parents: m.parents.insert(m.ctx, Some(top)),
        kids: m.kids.insert(top, m.kids[top].push((m.ctx, weight_of(m.dec)))),
        ..m
    }
}

/// Reads one character.
pub open spec fn scan_step(m: ScanModel, c: char) -> ScanModel {
    if m.stopped || m.bad {
        m
    } else if c == '(' {
        scan_open(ScanModel { stack: m.stack.push(m.ctx), in_weight: false, ..m })
    } else if c == ')' || c == ',' {
        if m.stack.len() == 0 {
            ScanModel { bad: true, ..m }
        } else if c == ',' {
            scan_open(scan_attach(m))
        } else {
            let a = scan_attach(m);
            ScanModel { ctx: m.stack.last(), stack: m.stack.drop_last(), ..a }
        }
    } else if c == ';' {
        if m.stack.len() != 0 {
            ScanModel { bad: true, ..m }
        } else if m.taxa.len() != 0 {
            ScanModel { stopped: true, labels: m.labels.insert(m.ctx, Some(m.taxa)), ..m }
        } else {
            ScanModel { stopped: true, ..m }
        }
    } else if c == ':' {
        ScanModel { in_weight: true, ..m }
    } else if m.in_weight && (c == '.' || is_digit(c)) {
        ScanModel { dec: m.dec.push(c), ..m }
    } else {
        ScanModel { in_weight: false, taxa: m.taxa.push(c), ..m }
    }
}

/// The reading of a whole text (whitespace already taken out), left to
/// right.
pub open spec fn scan(s: Seq<char>) -> ScanModel
    decreases s.len(),
{
    if s.len() == 0 {
        scan_start()
    } else {
        scan_step(scan(s.drop_last()), s.last())
    }
}

pub proof fn lemma_scan_sticky(s: Seq<char>, k: int)
    requires
        0 <= k <= s.len(),
        scan(s.take(k)).stopped || scan(s.take(k)).bad,
    ensures
        scan(s) == scan(s.take(k)),
    decreases s.len(),
{
    if k == s.len() {
        assert(s.take(k) =~= s);
    } else {
        assert(s.drop_last().take(k) =~= s.take(k));
        lemma_scan_sticky(s.drop_last(), k);
    }
}

/// Relies on str::chars: the characters of the text, in order.
#[verifier::external_body]
fn chars_of(s: &str) -> (r: Vec<char>)
    ensures
        r@ == s@,
{
    s.chars().collect()
}

/// Relies on String's FromIterator<char>: the string of these characters.
#[verifier::external_body]
fn string_of(cs: &Vec<char>) -> (r: String)
    ensures
        r@ == cs@,
{
    cs.iter().collect()
}

/// Whether the character has the Unicode White_Space property.
fn char_is_whitespace(c: char) -> (r: bool)
    ensures
        r == is_space(c),
{
    let u = c as u32;
    (0x9 <= u && u <= 0xd) || u == 0x20 || u == 0x85 || u == 0xa0 || u == 0x1680
        || (0x2000 <= u && u <= 0x200a) || u == 0x2028 || u == 0x2029 || u == 0x202f
        || u == 0x205f || u == 0x3000
}

/// Whether the character is an ASCII digit.
fn is_digit_char(c: char) -> (r: bool)
    ensures
        r == is_digit(c),
{
    let u = c as u32;
    '0' as u32 <= u && u <= '9' as u32
}

/// The characters of the text with whitespace taken out.
pub fn strip_spaces(s: &Vec<char>) -> (r: Vec<char>)
    ensures
        r@ == without_spaces(s@),
{
    let mut out: Vec<char> = Vec::new();
    let mut i: usize = 0;
    while i < s.len()
        invariant
            0 <= i <= s@.len(),
            out@ == without_spaces(s@.take(i as int)),
        decreases s@.len() - i,
    {
        assert(s@.take(i + 1).drop_last() =~= s@.take(i as int));
        if !char_is_whitespace(s[i]) {
            out.push(s[i]);
        }
        i = i + 1;
    }
    assert(s@.take(s@.len() as int) =~= s@);
    out
}

proof fn lemma_nest_sticky(s: Seq<char>, k: int)
    requires
        0 <= k <= s.len(),
        nest_state(s.take(k)).0 || nest_state(s.take(k)).1,
    ensures
        nest_state(s) == nest_state(s.take(k)),
        node_marks(s) == node_marks(s.take(k)),
    decreases s.len(),
{
    if k == s.len() {
        assert(s.take(k) =~= s);
    } else {
        assert(s.drop_last().take(k) =~= s.take(k));
        lemma_nest_sticky(s.drop_last(), k);
    }
}

proof fn lemma_without_spaces_len(s: Seq<char>)
    ensures
        without_spaces(s).len() <= s.len(),
    decreases s.len(),
{
    if s.len() > 0 {
        lemma_without_spaces_len(s.drop_last());
    }
}

impl RootedPhyloTree {
    /// Builds a tree from its nested-parenthesis text; whitespace anywhere
    /// is ignored. Edge weights are read as fixed-point decimals in
    /// billionths (see `weight_of`): fractional digits past the ninth are
    /// dropped, and a weight above `u64::MAX` billionths (about 1.8e10), or
    /// text that is no decimal number, gives no weight (`None`). Fails with `MalformedInput` where a group is
    /// left open, or a `)` or `,` stands outside any group.
    pub fn from_newick(newick_string: String) -> (r: Result<RootedPhyloTree, TreeError>)
        requires
            newick_string@.len() < usize::MAX,
        ensures
            r is Ok <==> well_nested(without_spaces(newick_string@)),
            r is Err ==> r->Err_0 == TreeError::MalformedInput,
            r is Ok ==> {
                let t = r->Ok_0;
                &&& t.wf()
                &&& t.spec_root() == 0
                &&& forall|x: NodeID| #[trigger] t.has(x) ==> (t.node(x).spec_is_leaf() <==> t.kids(x).len() == 0)
                &&& forall|x: NodeID| #[trigger] t.has(x) <==> x <= node_marks(without_spaces(newick_string@))
                &&& forall|x: NodeID| #[trigger] t.has(x) ==> t.parent(x) == scan(without_spaces(newick_string@)).parents[x]
                    && t.kids(x) == scan(without_spaces(newick_string@)).kids[x]
                    && label_view(t.node(x)) == scan(without_spaces(newick_string@)).labels[x]
            },
    {
        let cs = chars_of(newick_string.as_str());
        let stripped = strip_spaces(&cs);
        proof { lemma_without_spaces_len(cs@); }
        RootedPhyloTree::from_chars(&stripped)
    }

    /// Builds a tree from text without whitespace: nested groups in
    /// parentheses, siblings split by commas, each node with an optional label
    /// and an optional `:`-prefixed weight, ended by `;`.
    #[verifier::rlimit(100)]
    #[verifier::spinoff_prover]
    pub fn from_chars(s: &Vec<char>) -> (r: Result<RootedPhyloTree, TreeError>)
        requires
            s@.len() < usize::MAX,
        ensures
            r is Ok <==> well_nested(s@),
            r is Err ==> r->Err_0 == TreeError::MalformedInput,
            r is Ok ==> {
                let t = r->Ok_0;
                &&& t.wf()
                &&& t.spec_root() == 0
                &&& forall|x: NodeID| #[trigger] t.has(x) ==> (t.node(x).spec_is_leaf() <==> t.kids(x).len() == 0)
                &&& forall|x: NodeID| #[trigger] t.has(x) <==> x <= node_marks(s@)
                &&& forall|x: NodeID| #[trigger] t.has(x) ==> t.parent(x) == scan(s@).parents[x]
                    && t.kids(x) == scan(s@).kids[x] && label_view(t.node(x)) == scan(s@).labels[x]
            },
    {
        let mut tree = RootedPhyloTree::new();
        let mut stack: Vec<NodeID> = Vec::new();
        let mut context: NodeID = tree.get_root();
        let mut taxa: Vec<char> = Vec::new();
        let mut decimal: Vec<char> = Vec::new();
        let mut in_weight: bool = false;
        let mut i: usize = 0;
        let mut stopped: bool = false;
        while i < s.len() && !stopped
            invariant
                0 <= i <= s@.len() < usize::MAX,
                tree.wf_forest(),
                tree.spec_root() == 0,
                tree.next_id() == 1 + node_marks(s@.take(i as int)),
                node_marks(s@.take(i as int)) <= i,
                forall|x: NodeID| #[trigger] tree.has(x) <==> x < tree.next_id(),
                digits_and_dots(decimal@),
                stopped ==> nest_state(s@.take(i as int)) == (true, false, 0nat) && stack@.len() == 0,
                !stopped ==> nest_state(s@.take(i as int)) == (false, false, stack@.len() as nat),
                tree.has(context),
                tree.parent(context) is None,
                stack@.len() == 0 ==> context == 0,
                stack@.len() > 0 ==> stack@[0] == 0,
                forall|k: int| 0 <= k < stack@.len() ==> tree.has(#[trigger] stack@[k]) && tree.parent(stack@[k]) is None,
                forall|j: int, k: int| 0 <= j < k < stack@.len() ==> tree.rank_of(#[trigger] stack@[j]) < tree.rank_of(#[trigger] stack@[k]),
                stack@.len() > 0 ==> tree.rank_of(stack@[stack@.len() - 1]) < tree.rank_of(context),
                forall|x: NodeID| #[trigger] tree.has(x) && tree.parent(x) is None ==> x == context || stack@.contains(x),
                forall|x: NodeID| #[trigger] tree.has(x) ==> tree.node(x) is Internal,
                scan(s@.take(i as int)).stack == stack@,
                scan(s@.take(i as int)).ctx == context,
                scan(s@.take(i as int)).taxa == taxa@,
                scan(s@.take(i as int)).dec == decimal@,
                scan(s@.take(i as int)).in_weight == in_weight,
                scan(s@.take(i as int)).stopped == stopped,
                !scan(s@.take(i as int)).bad,
                scan(s@.take(i as int)).count == tree.next_id(),
                forall|x: NodeID| #[trigger] tree.has(x) ==> tree.parent(x) == scan(s@.take(i as int)).parents[x]
                    && tree.kids(x) == scan(s@.take(i as int)).kids[x]
                    && label_view(tree.node(x)) == scan(s@.take(i as int)).labels[x],
            decreases s@.len() - i,
        {
            let c = s[i];
            assert(s@.take(i + 1).drop_last() =~= s@.take(i as int));
            assert(s@.take(i + 1).last() == c);
            proof { lemma_node_marks_len(s@.take(i + 1)); }
            let ghost old_stack = stack@;
            let ghost old_ctx = context;
            let ghost t0 = tree;
            let ghost m0 = scan(s@.take(i as int));
            assert(scan(s@.take(i + 1)) == scan_step(m0, c));
            if c == '(' {
                stack.push(context);
                context = tree.add_node();
                in_weight = false;
                i = i + 1;
                proof {
                    let m1 = scan(s@.take(i as int));
                    assert forall|x: NodeID| #[trigger] tree.has(x) implies tree.parent(x) == m1.parents[x]
                        && tree.kids(x) == m1.kids[x] && label_view(tree.node(x)) == m1.labels[x] by {
                        if x != context {
                            assert(t0.has(x));
                        }
                    }
                    assert forall|x: NodeID| #[trigger] tree.has(x) && tree.parent(x) is None implies x == context || stack@.contains(x) by {
                        if x != context {
                            assert(t0.has(x));
                            if x == old_ctx {
                                assert(stack@[old_stack.len() as int] == x);
                            } else {
                                let k = choose|k: int| 0 <= k < old_stack.len() && old_stack[k] == x;
                                assert(stack@[k] == x);
                            }
                        }
                    }
                    assert forall|k: int| 0 <= k < stack@.len() implies tree.has(#[trigger] stack@[k]) && tree.parent(stack@[k]) is None by {
                        if k < old_stack.len() {
                            assert(stack@[k] == old_stack[k]);
                            assert(t0.has(old_stack[k]));
                        }
                    }
                    assert forall|j: int, k: int| 0 <= j < k < stack@.len() implies tree.rank_of(#[trigger] stack@[j]) < tree.rank_of(#[trigger] stack@[k]) by {
                        assert(t0.has(stack@[j]));
                        assert(t0.has(stack@[k]));
                        if k < old_stack.len() {
                            assert(stack@[k] == old_stack[k]);
                            assert(stack@[j] == old_stack[j]);
                        }
                    }
                }
            } else if c == ')' || c == ',' {
                if stack.len() == 0 {
                    proof { lemma_nest_sticky(s@, i + 1); }
                    return Err(TreeError::MalformedInput);
                }
                let top = stack[stack.len() - 1];
                let w = parse_weight(&decimal);
                let label = if taxa.len() == 0 { None } else { Some(string_of(&taxa)) };
                assert(stack@.len() == 1 || tree.rank_of(stack@[0]) < tree.rank_of(top));
                tree.set_child(context, top, w, label);
                let ghost t1 = tree;
                taxa = Vec::new();
                decimal = Vec::new();
                in_weight = false;
                assert(taxa@ =~= Seq::<char>::empty());
                assert(decimal@ =~= Seq::<char>::empty());
                let ghost old_ctx = context;
                if c == ',' {
                    context = tree.add_node();
                } else {
                    context = stack.pop().unwrap();
                }
                i = i + 1;
                proof {
                    let m1 = scan(s@.take(i as int));
                    assert forall|x: NodeID| #[trigger] tree.has(x) implies tree.parent(x) == m1.parents[x]
                        && tree.kids(x) == m1.kids[x] && label_view(tree.node(x)) == m1.labels[x] by {
                        if c == ',' && x == context {
                        } else {
                            assert(t0.has(x));
                            assert(t1.has(x));
                        }
                    }
                    assert forall|x: NodeID| #[trigger] tree.has(x) && tree.parent(x) is None implies x == context || stack@.contains(x) by {
                        if x != context {
                            assert(t0.has(x));
                            assert(t1.has(x));
                            assert(x != old_ctx);
                            let k = choose|k: int| 0 <= k < old_stack.len() && old_stack[k] == x;
                            if c == ')' {
                                assert(k != old_stack.len() - 1);
                                assert(stack@[k] == x);
                            } else {
                                assert(stack@[k] == x);
                            }
                        }
                    }
                    assert forall|k: int| 0 <= k < stack@.len() implies tree.has(#[trigger] stack@[k]) && tree.parent(stack@[k]) is None by {
                        assert(stack@[k] == old_stack[k]);
                        assert(t0.has(old_stack[k]));
                        assert(t1.has(old_stack[k]));
                        assert(t1.parent(old_stack[k]) is None);
                    }
                    assert forall|j: int, k: int| 0 <= j < k < stack@.len() implies tree.rank_of(#[trigger] stack@[j]) < tree.rank_of(#[trigger] stack@[k]) by {
                        assert(stack@[k] == old_stack[k]);
                        assert(stack@[j] == old_stack[j]);
                        assert(t0.has(stack@[j]));
                        assert(t0.has(stack@[k]));
                        assert(t1.has(stack@[j]));
                        assert(t1.has(stack@[k]));
                    }
                    if c == ',' {
                        assert(t1.has(stack@[stack@.len() - 1]));
                    }
                    if c == ')' {
                        assert(old_stack[old_stack.len() - 1] == context);
                        assert(t0.has(context));
                        if stack@.len() > 0 {
                            assert(t0.rank_of(old_stack[stack@.len() - 1]) < t0.rank_of(old_stack[old_stack.len() - 1]));
                            assert(t0.has(stack@[stack@.len() - 1]));
                        } else {
                            assert(context == old_stack[0]);
                        }
                    }
                }
            } else if c == ';' {
                if stack.len() != 0 {
                    proof { lemma_nest_sticky(s@, i + 1); }
                    return Err(TreeError::MalformedInput);
                }
                if taxa.len() != 0 {
                    let label = string_of(&taxa);
                    tree.assign_taxa(context, label.as_str());
                }
                stopped = true;
                i = i + 1;
                proof {
                    let m1 = scan(s@.take(i as int));
                    assert forall|x: NodeID| #[trigger] tree.has(x) implies tree.parent(x) == m1.parents[x]
                        && tree.kids(x) == m1.kids[x] && label_view(tree.node(x)) == m1.labels[x] by {
                        assert(t0.has(x));
                    }
                }
            } else if c == ':' {
                in_weight = true;
                i = i + 1;
            } else {
                if in_weight && (c == '.' || is_digit_char(c)) {
                    decimal.push(c);
                } else {
                    in_weight = false;
                    taxa.push(c);
                }
                i = i + 1;
            }
        }
        if stopped {
            proof { lemma_nest_sticky(s@, i as int); lemma_scan_sticky(s@, i as int); }
        } else {
            assert(s@.take(i as int) =~= s@);
        }
        if stack.len() != 0 {
            return Err(TreeError::MalformedInput);
        }
        proof {
            assert forall|x: NodeID| #[trigger] tree.has(x) && tree.parent(x) is None implies x == tree.spec_root() by {
                assert(!stack@.contains(x));
            }
            tree.lemma_forest_is_tree();
        }
        let n = tree.slot_count();
        let mut x: usize = 0;
        while x < n
            invariant
                tree.wf(),
                tree.spec_root() == 0,
                n == tree.next_id(),
                tree.wf_forest(),
                forall|y: NodeID| #[trigger] tree.has(y) <==> y < n,
                n == 1 + node_marks(s@),
                forall|y: NodeID| #[trigger] tree.has(y) ==> tree.parent(y) == scan(s@).parents[y]
                    && tree.kids(y) == scan(s@).kids[y] && label_view(tree.node(y)) == scan(s@).labels[y],
                0 <= x <= n,
                forall|y: NodeID| #[trigger] tree.has(y) && y < x ==> (tree.node(y).spec_is_leaf() <==> tree.kids(y).len() == 0),
                forall|y: NodeID| #[trigger] tree.has(y) && y >= x ==> tree.node(y) is Internal,
            decreases n - x,
        {
            if tree.contains(x) {
                let empty = match tree.get_node_children(x) {
                    Ok(v) => v.len() == 0,
                    Err(_) => false,
                };
                if empty {
                    tree.set_leaf(x);
                }
            }
            x = x + 1;
        }
        Ok(tree)
    }
}

} // verus!
