//! Display-title uniqueness: the downstream flow-diagram format requires all
//! node titles in the tree to be pairwise distinct. The validator visits
//! every node once and reports a boolean; callers decide whether to abort.

use vstd::prelude::*;

use crate::tree::{lemma_nodes_view_index, lemma_nodes_view_len, nodes_view, NodeV, TreeNode};

verus! {

/// Every title in the tree, root first, then each child's subtree in order.
pub open spec fn titles(n: NodeV) -> Seq<Seq<char>>
    decreases n,
{
    seq![n.title] + titles_seq(n.children)
}

pub open spec fn titles_seq(cs: Seq<NodeV>) -> Seq<Seq<char>>
    decreases cs,
{
    if cs.len() == 0 {
        Seq::empty()
    } else {
        titles(cs[0]) + titles_seq(cs.drop_first())
    }
}

/// No two entries are the same.
pub open spec fn all_distinct(ts: Seq<Seq<char>>) -> bool {
    forall|i: int, j: int| 0 <= i < j < ts.len() ==> ts[i] != ts[j]
}

pub proof fn lemma_titles_seq_push(cs: Seq<NodeV>, x: NodeV)
    ensures
        titles_seq(cs.push(x)) =~= titles_seq(cs) + titles(x),
    decreases cs,
{
    if cs.len() == 0 {
        reveal_with_fuel(titles_seq, 2);
        assert(cs.push(x)[0] == x);
        assert(cs.push(x).drop_first() =~= Seq::<NodeV>::empty());
    } else {
        assert(cs.push(x)[0] == cs[0]);
        assert(cs.push(x).drop_first() =~= cs.drop_first().push(x));
        lemma_titles_seq_push(cs.drop_first(), x);
    }
}

/// Clone every title in the subtree into `out`, pre-order.
fn collect_titles(t: &TreeNode, out: &mut Vec<String>)
    ensures
        final(out).deep_view() =~= old(out).deep_view() + titles(t@),
    decreases *t,
{
    let ghost base = out.deep_view();
    let ghost cvs = nodes_view(t.children@);
    let ghost dv0 = out.deep_view();
    out.push(t.title.clone());
    proof {
        lemma_nodes_view_len(t.children@);
        assert(out.deep_view() =~= dv0.push(t@.title));
        assert(titles_seq(cvs.take(0)) =~= Seq::<Seq<char>>::empty()) by {
            assert(cvs.take(0) =~= Seq::<NodeV>::empty());
        }
        assert(out.deep_view() =~= base + seq![t@.title] + titles_seq(cvs.take(0)));
    }
    let mut i: usize = 0;
    while i < t.children.len()
        invariant
            i <= t.children.len(),
            cvs == nodes_view(t.children@),
            cvs.len() == t.children@.len(),
            out.deep_view() =~= base + seq![t@.title] + titles_seq(cvs.take(i as int)),
        decreases t.children.len() - i,
    {
        proof {
            lemma_nodes_view_index(t.children@, i as int);
        }
        collect_titles(&t.children[i], out);
        proof {
            assert(cvs.take(i + 1) =~= cvs.take(i as int).push(cvs[i as int]));
            lemma_titles_seq_push(cvs.take(i as int), cvs[i as int]);
        }
        i = i + 1;
    }
    proof {
        assert(cvs.take(cvs.len() as int) =~= cvs);
        assert(base + seq![t@.title] + titles_seq(cvs) =~= base + titles(t@));
    }
}

/// True exactly when every display title in the tree is distinct from every
/// other — the precondition the downstream flow-diagram format puts on its
/// input. Visits each node once; the traversal order cannot affect the
/// result.
pub fn validate_unique(t: &TreeNode) -> (r: bool)
    ensures
        r == all_distinct(titles(t@)),
{
    let mut ts: Vec<String> = Vec::new();
    collect_titles(t, &mut ts);
    let ghost tv = titles(t@);
    proof {
        assert(ts.deep_view() =~= tv);
        assert(ts.deep_view().len() == ts@.len());
    }
    let mut i: usize = 0;
    while i < ts.len()
        invariant
            i <= ts.len(),
            tv == titles(t@),
            ts.deep_view() =~= tv,
            ts.deep_view().len() == ts@.len(),
            forall|a: int, b: int| 0 <= a < b < ts@.len() && a < i ==> tv[a] != tv[b],
        decreases ts.len() - i,
    {
        let mut j: usize = i + 1;
        while j < ts.len()
            invariant
                i < j <= ts@.len() || (i as int == ts@.len() && j == i + 1),
                i < ts@.len(),
                tv == titles(t@),
                ts.deep_view() =~= tv,
                ts.deep_view().len() == ts@.len(),
                forall|b: int| i < b < j ==> tv[i as int] != tv[b],
            decreases ts.len() - j,
        {
            if ts[i] == ts[j] {
                proof {
                    assert(tv[i as int] == ts@[i as int]@);
                    assert(tv[j as int] == ts@[j as int]@);
                    assert(!all_distinct(tv));
                }
                return false;
            }
            proof {
                assert(tv[i as int] == ts@[i as int]@);
                assert(tv[j as int] == ts@[j as int]@);
            }
            j = j + 1;
        }
        i = i + 1;
    }
    true
}

} // verus!
