//! The aggregation tree: node representation, its mathematical view, and the
//! spec-level measures (mass, leaf sums, rolled-up state) that the library's
//! contracts are stated over.

use vstd::prelude::*;

verus! {

/// One flat input record: a three-level classification plus an integer count.
pub struct ClassifiedRecord {
    pub chapter: String,
    pub subchapter: String,
    pub title: String,
    pub value: u64,
}

/// Mathematical view of a record: the labels as character sequences.
#[verifier::ext_equal]
pub struct RecordV {
    pub chapter: Seq<char>,
    pub subchapter: Seq<char>,
    pub title: Seq<char>,
    pub value: u64,
}

impl View for ClassifiedRecord {
    type V = RecordV;

    open spec fn view(&self) -> RecordV {
        RecordV {
            chapter: self.chapter@,
            subchapter: self.subchapter@,
            title: self.title@,
            value: self.value,
        }
    }
}

impl DeepView for ClassifiedRecord {
    type V = RecordV;

    open spec fn deep_view(&self) -> RecordV {
        self.view()
    }
}

/// Which of the two node variants a tree node is.
///
/// A `Leaf` wraps one input record's count. An `Aggregate` represents a
/// classification level; when `precomputed` is true its stored value is
/// authoritative and rollup leaves it alone (used for synthetic "Other"
/// nodes created by coalescing).
#[derive(Clone, Copy, Debug)]
pub enum NodeKind {
    Leaf,
    Aggregate { precomputed: bool },
}

/// A node of the aggregation tree. Each node owns its children outright;
/// there are no parent back-references and hence no sharing or cycles.
#[derive(Debug)]
pub struct TreeNode {
    pub title: String,
    pub value: u64,
    pub kind: NodeKind,
    pub children: Vec<TreeNode>,
}

/// Mathematical view of a tree node.
#[verifier::ext_equal]
pub struct NodeV {
    pub title: Seq<char>,
    pub value: u64,
    pub leaf: bool,
    pub precomputed: bool,
    pub children: Seq<NodeV>,
}

pub open spec fn kind_is_leaf(k: NodeKind) -> bool {
    k is Leaf
}

pub open spec fn kind_precomputed(k: NodeKind) -> bool {
    match k {
        NodeKind::Leaf => false,
        NodeKind::Aggregate { precomputed } => precomputed,
    }
}

pub open spec fn node_view(t: TreeNode) -> NodeV
    decreases t,
{
    NodeV {
        title: t.title@,
        value: t.value,
        leaf: kind_is_leaf(t.kind),
        precomputed: kind_precomputed(t.kind),
        children: nodes_view(t.children@),
    }
}

pub open spec fn nodes_view(cs: Seq<TreeNode>) -> Seq<NodeV>
    decreases cs,
{
    if cs.len() == 0 {
        Seq::empty()
    } else {
        seq![node_view(cs[0])] + nodes_view(cs.drop_first())
    }
}

impl View for TreeNode {
    type V = NodeV;

    open spec fn view(&self) -> NodeV {
        node_view(*self)
    }
}

impl DeepView for TreeNode {
    type V = NodeV;

    open spec fn deep_view(&self) -> NodeV {
        self.view()
    }
}

pub broadcast proof fn lemma_nodes_view_len(cs: Seq<TreeNode>)
    ensures
        (#[trigger] nodes_view(cs)).len() == cs.len(),
    decreases cs,
{
    if cs.len() > 0 {
        lemma_nodes_view_len(cs.drop_first());
    }
}

pub broadcast proof fn lemma_nodes_view_index(cs: Seq<TreeNode>, i: int)
    requires
        0 <= i < cs.len(),
    ensures
        #[trigger] nodes_view(cs)[i] == node_view(cs[i]),
    decreases cs,
{
    lemma_nodes_view_len(cs);
    if i > 0 {
        lemma_nodes_view_index(cs.drop_first(), i - 1);
    }
}

/// The conserved quantity of a tree: the sum of every leaf's value plus the
/// stored value of every childless precomputed aggregate. Rollup and both
/// coalescing transforms keep it unchanged.
pub open spec fn mass(n: NodeV) -> int
    decreases n,
{
    if n.leaf {
        n.value as int
    } else if n.precomputed && n.children.len() == 0 {
        n.value as int
    } else {
        mass_seq(n.children)
    }
}

pub open spec fn mass_seq(cs: Seq<NodeV>) -> int
    decreases cs,
{
    if cs.len() == 0 {
        0
    } else {
        mass(cs[0]) + mass_seq(cs.drop_first())
    }
}

/// The sum of the values of every `Leaf` node in the tree.
pub open spec fn leaf_sum(n: NodeV) -> int
    decreases n,
{
    if n.leaf {
        n.value as int
    } else {
        leaf_sum_seq(n.children)
    }
}

pub open spec fn leaf_sum_seq(cs: Seq<NodeV>) -> int
    decreases cs,
{
    if cs.len() == 0 {
        0
    } else {
        leaf_sum(cs[0]) + leaf_sum_seq(cs.drop_first())
    }
}

/// The sum of the stored values of a sequence of nodes.
pub open spec fn sum_values(cs: Seq<NodeV>) -> int
    decreases cs,
{
    if cs.len() == 0 {
        0
    } else {
        cs[0].value + sum_values(cs.drop_first())
    }
}

/// No node in the tree carries the precomputed mark: the state of a freshly
/// built, never-coalesced tree.
pub open spec fn no_precomputed(n: NodeV) -> bool
    decreases n,
{
    &&& !n.precomputed
    &&& forall|i: int| 0 <= i < n.children.len() ==> no_precomputed(#[trigger] n.children[i])
}

/// Structural well-formedness: a leaf owns no children.
pub open spec fn wf(n: NodeV) -> bool
    decreases n,
{
    &&& n.leaf ==> n.children.len() == 0
    &&& forall|i: int| 0 <= i < n.children.len() ==> wf(#[trigger] n.children[i])
}

/// The tree is in the state a rollup pass leaves it in: every node's stored
/// value equals its mass, all the way down.
pub open spec fn is_rolled(n: NodeV) -> bool
    decreases n,
{
    &&& n.value as int == mass(n)
    &&& !n.leaf ==> forall|i: int| 0 <= i < n.children.len() ==> is_rolled(
        #[trigger] n.children[i],
    )
}

pub proof fn lemma_mass_nonneg(n: NodeV)
    ensures
        mass(n) >= 0,
    decreases n,
{
    if !n.leaf && !(n.precomputed && n.children.len() == 0) {
        lemma_mass_seq_nonneg(n.children);
    }
}

pub proof fn lemma_mass_seq_nonneg(cs: Seq<NodeV>)
    ensures
        mass_seq(cs) >= 0,
    decreases cs,
{
    if cs.len() > 0 {
        lemma_mass_nonneg(cs[0]);
        lemma_mass_seq_nonneg(cs.drop_first());
    }
}

pub proof fn lemma_mass_seq_index(cs: Seq<NodeV>, i: int)
    requires
        0 <= i < cs.len(),
    ensures
        mass_seq(cs) == mass_seq(cs.take(i)) + mass(cs[i]) + mass_seq(cs.skip(i + 1)),
    decreases cs,
{
    if i == 0 {
        assert(cs.take(0) =~= Seq::empty());
        assert(cs.skip(1) =~= cs.drop_first());
    } else {
        lemma_mass_seq_index(cs.drop_first(), i - 1);
        assert(cs.drop_first().take(i - 1) =~= cs.take(i).drop_first());
        assert(cs.drop_first().skip(i) =~= cs.skip(i + 1));
        assert(cs.take(i)[0] == cs[0]);
        assert(mass_seq(cs.take(i)) == mass(cs[0]) + mass_seq(cs.take(i).drop_first()));
    }
}

pub proof fn lemma_sum_values_nonneg(cs: Seq<NodeV>)
    ensures
        sum_values(cs) >= 0,
    decreases cs,
{
    if cs.len() > 0 {
        lemma_sum_values_nonneg(cs.drop_first());
    }
}

/// Where every node's stored value equals its mass — a rolled-up sibling
/// list — the value sum and the mass coincide.
pub proof fn lemma_values_mass_seq(cs: Seq<NodeV>)
    requires
        forall|i: int| 0 <= i < cs.len() ==> (#[trigger] cs[i].value) as int == mass(cs[i]),
    ensures
        sum_values(cs) == mass_seq(cs),
    decreases cs,
{
    if cs.len() > 0 {
        assert(cs[0].value as int == mass(cs[0]));
        assert(forall|i: int|
            0 <= i < cs.drop_first().len() ==> (#[trigger] cs.drop_first()[i].value) as int == mass(
                cs.drop_first()[i],
            ));
        lemma_values_mass_seq(cs.drop_first());
    }
}

impl TreeNode {
    /// A leaf node for one record's count.
    pub fn leaf(title: String, value: u64) -> (r: TreeNode)
        ensures
            r@ == (NodeV {
                title: title@,
                value: value,
                leaf: true,
                precomputed: false,
                children: Seq::empty(),
            }),
    {
        let r = TreeNode { title, value, kind: NodeKind::Leaf, children: Vec::new() };
        proof {
            assert(nodes_view(r.children@) =~= Seq::<NodeV>::empty());
        }
        r
    }

    /// A fresh aggregate node whose value will be filled in by rollup.
    pub fn aggregate(title: String) -> (r: TreeNode)
        ensures
            r@ == (NodeV {
                title: title@,
                value: 0,
                leaf: false,
                precomputed: false,
                children: Seq::empty(),
            }),
    {
        let r = TreeNode {
            title,
            value: 0,
            kind: NodeKind::Aggregate { precomputed: false },
            children: Vec::new(),
        };
        proof {
            assert(nodes_view(r.children@) =~= Seq::<NodeV>::empty());
        }
        r
    }

    /// A synthetic "Other" node: a childless aggregate whose pre-summed value
    /// rollup must not overwrite.
    pub fn other(title: String, value: u64) -> (r: TreeNode)
        ensures
            r@ == (NodeV {
                title: title@,
                value: value,
                leaf: false,
                precomputed: true,
                children: Seq::empty(),
            }),
    {
        let r = TreeNode {
            title,
            value,
            kind: NodeKind::Aggregate { precomputed: true },
            children: Vec::new(),
        };
        proof {
            assert(nodes_view(r.children@) =~= Seq::<NodeV>::empty());
        }
        r
    }
}

fn clone_node(t: &TreeNode) -> (r: TreeNode)
    ensures
        r@ == t@,
    decreases *t,
{
    let mut children: Vec<TreeNode> = Vec::new();
    let mut i: usize = 0;
    while i < t.children.len()
        invariant
            i <= t.children.len(),
            nodes_view(children@) =~= nodes_view(t.children@).take(i as int),
        decreases t.children.len() - i,
    {
        let ghost prev = children@;
        let c = clone_node(&t.children[i]);
        children.push(c);
        proof {
            lemma_nodes_view_push(prev, c);
            lemma_nodes_view_len(t.children@);
            lemma_nodes_view_index(t.children@, i as int);
            assert(nodes_view(t.children@).take(i + 1) =~= nodes_view(t.children@).take(
                i as int,
            ).push(nodes_view(t.children@)[i as int]));
        }
        i = i + 1;
    }
    proof {
        lemma_nodes_view_len(t.children@);
        assert(nodes_view(t.children@).take(t.children@.len() as int) =~= nodes_view(t.children@));
    }
    let r = TreeNode { title: t.title.clone(), value: t.value, kind: t.kind, children };
    proof {
        assert(r@ =~= t@);
    }
    r
}

pub broadcast proof fn lemma_nodes_view_push(cs: Seq<TreeNode>, t: TreeNode)
    ensures
        #[trigger] nodes_view(cs.push(t)) =~= nodes_view(cs).push(node_view(t)),
{
    lemma_nodes_view_len(cs.push(t));
    lemma_nodes_view_len(cs);
    assert forall|i: int| 0 <= i < cs.len() + 1 implies nodes_view(cs.push(t))[i] == nodes_view(
        cs,
    ).push(node_view(t))[i] by {
        lemma_nodes_view_index(cs.push(t), i);
        if i < cs.len() {
            lemma_nodes_view_index(cs, i);
            assert(cs.push(t)[i] == cs[i]);
        } else {
            assert(cs.push(t)[i] == t);
        }
    }
}

impl Clone for TreeNode {
    /// Clones the whole subtree; the copy has the same view.
    fn clone(&self) -> (r: TreeNode)
        ensures
            r@ == self@,
    {
        clone_node(self)
    }
}

} // verus!
