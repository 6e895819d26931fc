//! Bottom-up rollup: every aggregate's stored value is recomputed as the sum
//! of its children's values, except childless precomputed aggregates, whose
//! stored value is authoritative.

use vstd::prelude::*;

use crate::tree::{
    lemma_mass_nonneg, lemma_mass_seq_index, lemma_mass_seq_nonneg, lemma_nodes_view_index,
    lemma_nodes_view_len, lemma_nodes_view_push, leaf_sum, leaf_sum_seq, is_rolled, mass, mass_seq,
    no_precomputed, nodes_view, wf, NodeKind, NodeV, TreeNode,
};

verus! {

/// The tree a rollup pass produces: post-order, every non-precomputed
/// aggregate's value is replaced by the sum of its (rolled-up) children's
/// values. Leaves and childless precomputed aggregates are untouched.
pub open spec fn ru(n: NodeV) -> NodeV
    decreases n,
{
    if n.leaf {
        n
    } else if n.precomputed && n.children.len() == 0 {
        n
    } else {
        let kids = ru_seq(n.children);
        NodeV { value: mass_seq(kids) as u64, children: kids, ..n }
    }
}

pub open spec fn ru_seq(cs: Seq<NodeV>) -> Seq<NodeV>
    decreases cs,
{
    if cs.len() == 0 {
        Seq::empty()
    } else {
        seq![ru(cs[0])] + ru_seq(cs.drop_first())
    }
}

pub broadcast proof fn lemma_ru_seq_len(cs: Seq<NodeV>)
    ensures
        (#[trigger] ru_seq(cs)).len() == cs.len(),
    decreases cs,
{
    if cs.len() > 0 {
        lemma_ru_seq_len(cs.drop_first());
    }
}

pub broadcast proof fn lemma_ru_seq_index(cs: Seq<NodeV>, i: int)
    requires
        0 <= i < cs.len(),
    ensures
        #[trigger] ru_seq(cs)[i] == ru(cs[i]),
    decreases cs,
{
    lemma_ru_seq_len(cs);
    if i > 0 {
        lemma_ru_seq_index(cs.drop_first(), i - 1);
    }
}

/// Rollup conserves the tree's mass.
pub proof fn lemma_ru_mass(n: NodeV)
    ensures
        mass(ru(n)) == mass(n),
    decreases n,
{
    if n.leaf || (n.precomputed && n.children.len() == 0) {
    } else {
        lemma_ru_seq_mass(n.children);
        lemma_ru_seq_len(n.children);
    }
}

pub proof fn lemma_ru_seq_mass(cs: Seq<NodeV>)
    ensures
        mass_seq(ru_seq(cs)) == mass_seq(cs),
    decreases cs,
{
    if cs.len() > 0 {
        lemma_ru_mass(cs[0]);
        lemma_ru_seq_mass(cs.drop_first());
        lemma_ru_seq_len(cs);
        assert(ru_seq(cs)[0] == ru(cs[0]));
        assert(ru_seq(cs).drop_first() =~= ru_seq(cs.drop_first()));
    }
}

/// After a rollup pass over a tree whose total mass fits in the value type,
/// every stored value equals the mass beneath it.
pub proof fn lemma_ru_rolled(n: NodeV)
    requires
        mass(n) <= u64::MAX,
    ensures
        is_rolled(ru(n)),
        ru(n).value as int == mass(n),
    decreases n,
{
    lemma_mass_nonneg(n);
    if n.leaf || (n.precomputed && n.children.len() == 0) {
    } else {
        lemma_ru_seq_mass(n.children);
        lemma_ru_seq_len(n.children);
        assert forall|i: int| 0 <= i < ru(n).children.len() implies is_rolled(
            #[trigger] ru(n).children[i],
        ) by {
            lemma_ru_seq_index(n.children, i);
            lemma_mass_seq_index(n.children, i);
            lemma_mass_seq_nonneg(n.children.take(i));
            lemma_mass_seq_nonneg(n.children.skip(i + 1));
            lemma_ru_rolled(n.children[i]);
        }
        assert(ru(n).value as int == mass(ru(n)));
        assert(is_rolled(ru(n)));
    }
}

/// A tree already in rolled-up state is a fixed point of rollup.
pub proof fn lemma_rolled_fixed(n: NodeV)
    requires
        is_rolled(n),
    ensures
        ru(n) == n,
    decreases n,
{
    if n.leaf || (n.precomputed && n.children.len() == 0) {
    } else {
        lemma_ru_seq_len(n.children);
        assert forall|i: int| 0 <= i < n.children.len() implies ru_seq(n.children)[i]
            == n.children[i] by {
            lemma_ru_seq_index(n.children, i);
            lemma_rolled_fixed(n.children[i]);
        }
        assert(ru_seq(n.children) =~= n.children);
        lemma_mass_nonneg(n);
        assert(ru(n) =~= n);
    }
}

/// Running rollup twice in succession yields the same tree as running it
/// once, on any tree whatever.
pub proof fn lemma_rollup_idempotent(n: NodeV)
    ensures
        ru(ru(n)) == ru(n),
    decreases n,
{
    if n.leaf || (n.precomputed && n.children.len() == 0) {
    } else {
        let kids = ru_seq(n.children);
        lemma_ru_seq_len(n.children);
        let m = ru(n);
        assert(m.children == kids);
        if m.precomputed && m.children.len() == 0 {
            assert(n.children.len() == 0);
            assert(kids =~= Seq::empty());
            assert(mass_seq(kids) == 0);
            assert(ru(ru(n)) == ru(n));
        } else {
            assert forall|i: int| 0 <= i < kids.len() implies ru_seq(kids)[i] == kids[i] by {
                lemma_ru_seq_index(kids, i);
                lemma_ru_seq_index(n.children, i);
                lemma_rollup_idempotent(n.children[i]);
            }
            lemma_ru_seq_len(kids);
            assert(ru_seq(kids) =~= kids);
            assert(ru(ru(n)) =~= ru(n));
        }
    }
}

/// In a tree with no precomputed nodes — as tree-building produces and before
/// any coalescing — the mass is exactly the sum of all leaf values.
pub proof fn lemma_uncoalesced_mass(n: NodeV)
    requires
        no_precomputed(n),
    ensures
        mass(n) == leaf_sum(n),
    decreases n,
{
    if !n.leaf {
        lemma_uncoalesced_mass_seq(n.children);
    }
}

pub proof fn lemma_uncoalesced_mass_seq(cs: Seq<NodeV>)
    requires
        forall|i: int| 0 <= i < cs.len() ==> no_precomputed(#[trigger] cs[i]),
    ensures
        mass_seq(cs) == leaf_sum_seq(cs),
    decreases cs,
{
    if cs.len() > 0 {
        lemma_uncoalesced_mass(cs[0]);
        lemma_uncoalesced_mass_seq(cs.drop_first());
    }
}

/// Rollup preserves structural well-formedness.
pub proof fn lemma_ru_wf(n: NodeV)
    requires
        wf(n),
    ensures
        wf(ru(n)),
    decreases n,
{
    if n.leaf || (n.precomputed && n.children.len() == 0) {
    } else {
        lemma_ru_seq_len(n.children);
        assert forall|i: int| 0 <= i < ru(n).children.len() implies wf(
            #[trigger] ru(n).children[i],
        ) by {
            lemma_ru_seq_index(n.children, i);
            lemma_ru_wf(n.children[i]);
        }
    }
}

/// Recursive post-order rollup. The total mass must fit in `u64`; the result
/// is the rolled-up tree, whose root value is the conserved total.
pub fn rollup(t: &TreeNode) -> (r: TreeNode)
    requires
        mass(t@) <= u64::MAX,
    ensures
        r@ == ru(t@),
        r@.value as int == mass(t@),
        is_rolled(r@),
    decreases *t,
{
    proof {
        lemma_ru_rolled(t@);
        lemma_mass_nonneg(t@);
    }
    let is_leaf = match t.kind {
        NodeKind::Leaf => true,
        NodeKind::Aggregate { .. } => false,
    };
    let precomputed = match t.kind {
        NodeKind::Leaf => false,
        NodeKind::Aggregate { precomputed } => precomputed,
    };
    if is_leaf || (precomputed && t.children.len() == 0) {
        let r = t.clone();
        proof {
            lemma_nodes_view_len(t.children@);
        }
        r
    } else {
        let ghost cvs = nodes_view(t.children@);
        proof {
            lemma_nodes_view_len(t.children@);
        }
        let mut children: Vec<TreeNode> = Vec::new();
        let mut sum: u64 = 0;
        let mut i: usize = 0;
        while i < t.children.len()
            invariant
                i <= t.children.len(),
                cvs == nodes_view(t.children@),
                cvs.len() == t.children@.len(),
                mass_seq(cvs) <= u64::MAX,
                nodes_view(children@) =~= ru_seq(cvs).take(i as int),
                sum as int == mass_seq(cvs.take(i as int)),
            decreases t.children.len() - i,
        {
            proof {
                lemma_nodes_view_index(t.children@, i as int);
                lemma_mass_seq_index(cvs, i as int);
                lemma_mass_seq_nonneg(cvs.take(i as int));
                lemma_mass_seq_nonneg(cvs.skip(i as int + 1));
                lemma_mass_nonneg(cvs[i as int]);
            }
            let c = rollup(&t.children[i]);
            sum = sum + c.value;
            let ghost prev = children@;
            children.push(c);
            proof {
                lemma_nodes_view_push(prev, c);
                lemma_ru_seq_len(cvs);
                lemma_ru_seq_index(cvs, i as int);
                assert(ru_seq(cvs).take(i + 1) =~= ru_seq(cvs).take(i as int).push(
                    ru_seq(cvs)[i as int],
                ));
                assert(cvs.take(i + 1) =~= cvs.take(i as int).push(cvs[i as int]));
                lemma_mass_seq_push(cvs.take(i as int), cvs[i as int]);
            }
            i = i + 1;
        }
        proof {
            lemma_ru_seq_len(cvs);
            assert(ru_seq(cvs).take(cvs.len() as int) =~= ru_seq(cvs));
            assert(cvs.take(cvs.len() as int) =~= cvs);
            lemma_ru_seq_mass(cvs);
        }
        let r = TreeNode { title: t.title.clone(), value: sum, kind: t.kind, children };
        proof {
            assert(r@ =~= ru(t@));
        }
        r
    }
}

pub proof fn lemma_mass_seq_push(cs: Seq<NodeV>, n: NodeV)
    ensures
        mass_seq(cs.push(n)) == mass_seq(cs) + mass(n),
    decreases cs,
{
    if cs.len() == 0 {
        reveal_with_fuel(mass_seq, 2);
        assert(cs.push(n)[0] == n);
        assert(cs.push(n).drop_first() =~= Seq::<NodeV>::empty());
    } else {
        assert(cs.push(n)[0] == cs[0]);
        assert(cs.push(n).drop_first() =~= cs.drop_first().push(n));
        lemma_mass_seq_push(cs.drop_first(), n);
    }
}

} // verus!
