//! Ordered serialization: the finished tree becomes a list of flow-edge
//! strings, one per non-root node, `"<parent> [<value>] <title>"`, with each
//! node's children emitted in descending value order and the root's direct
//! children introduced by a `"' All <root-title>"` sentinel label.

use vstd::prelude::*;

use crate::sort::{
    lemma_sort_desc_len, lemma_sort_desc_sorted, sort_by_value_desc, sort_desc, sorted_desc,
};
use crate::tree::{lemma_nodes_view_index, lemma_nodes_view_len, lemma_nodes_view_push, nodes_view, NodeV, TreeNode};

verus! {

/// The decimal digit characters.
pub open spec fn dec_digit(d: int) -> char {
    if d == 0 {
        '0'
    } else if d == 1 {
        '1'
    } else if d == 2 {
        '2'
    } else if d == 3 {
        '3'
    } else if d == 4 {
        '4'
    } else if d == 5 {
        '5'
    } else if d == 6 {
        '6'
    } else if d == 7 {
        '7'
    } else if d == 8 {
        '8'
    } else {
        '9'
    }
}

/// The usual decimal rendering of a number, most significant digit first, no
/// leading zeros (a lone zero for 0).
pub open spec fn dec_chars(n: nat) -> Seq<char>
    decreases n,
{
    if n < 10 {
        seq![dec_digit(n as int)]
    } else {
        dec_chars(n / 10).push(dec_digit((n % 10) as int))
    }
}

fn digit_str(d: u64) -> (r: &'static str)
    requires
        d < 10,
    ensures
        r@ =~= seq![dec_digit(d as int)],
{
    proof {
        reveal_strlit("0");
        reveal_strlit("1");
        reveal_strlit("2");
        reveal_strlit("3");
        reveal_strlit("4");
        reveal_strlit("5");
        reveal_strlit("6");
        reveal_strlit("7");
        reveal_strlit("8");
        reveal_strlit("9");
    }
    if d == 0 {
        "0"
    } else if d == 1 {
        "1"
    } else if d == 2 {
        "2"
    } else if d == 3 {
        "3"
    } else if d == 4 {
        "4"
    } else if d == 5 {
        "5"
    } else if d == 6 {
        "6"
    } else if d == 7 {
        "7"
    } else if d == 8 {
        "8"
    } else {
        "9"
    }
}

/// Render a value in decimal.
pub fn u64_to_string(n: u64) -> (s: String)
    ensures
        s@ == dec_chars(n as nat),
    decreases n,
{
    if n < 10 {
        let s = String::from_str(digit_str(n));
        proof {
            assert(s@ =~= dec_chars(n as nat));
        }
        s
    } else {
        let mut s = u64_to_string(n / 10);
        s.append(digit_str(n % 10));
        proof {
            assert(s@ =~= dec_chars(n as nat));
        }
        s
    }
}

/// One flow edge: parent label, the node's value in brackets, its title.
pub open spec fn edge_line(parent: Seq<char>, value: u64, title: Seq<char>) -> Seq<char> {
    parent + " ["@ + dec_chars(value as nat) + "] "@ + title
}

/// The sentinel label that introduces the root's direct children.
pub open spec fn root_label(root_title: Seq<char>) -> Seq<char> {
    "' All "@ + root_title
}

/// The tree with every node's children put in emission order: descending by
/// value, ties keeping their original order.
pub open spec fn st(n: NodeV) -> NodeV
    decreases n,
{
    NodeV { children: sort_desc(st_seq(n.children)), ..n }
}

pub open spec fn st_seq(cs: Seq<NodeV>) -> Seq<NodeV>
    decreases cs,
{
    if cs.len() == 0 {
        Seq::empty()
    } else {
        seq![st(cs[0])] + st_seq(cs.drop_first())
    }
}

pub broadcast proof fn lemma_st_seq_len(cs: Seq<NodeV>)
    ensures
        (#[trigger] st_seq(cs)).len() == cs.len(),
    decreases cs,
{
    if cs.len() > 0 {
        lemma_st_seq_len(cs.drop_first());
    }
}

pub broadcast proof fn lemma_st_seq_index(cs: Seq<NodeV>, i: int)
    requires
        0 <= i < cs.len(),
    ensures
        #[trigger] st_seq(cs)[i] == st(cs[i]),
    decreases cs,
{
    lemma_st_seq_len(cs);
    if i > 0 {
        lemma_st_seq_index(cs.drop_first(), i - 1);
    }
}

/// Serialization ordering: in emission order, a node's children appear with
/// non-increasing values — so the emitted child edges of every node are in
/// non-increasing value order.
pub proof fn lemma_emission_order(n: NodeV)
    ensures
        sorted_desc(st(n).children),
{
    lemma_sort_desc_sorted(st_seq(n.children));
}

/// The edge lines of the subtree below `n` (whose children are already in
/// emission order): each child's edge under the label `lbl`, immediately
/// followed by that child's own subtree.
pub open spec fn flows(n: NodeV, lbl: Seq<char>) -> Seq<Seq<char>>
    decreases n,
{
    flows_seq(n.children, lbl)
}

pub open spec fn flows_seq(cs: Seq<NodeV>, lbl: Seq<char>) -> Seq<Seq<char>>
    decreases cs,
{
    if cs.len() == 0 {
        Seq::empty()
    } else {
        seq![edge_line(lbl, cs[0].value, cs[0].title)] + flows(cs[0], cs[0].title) + flows_seq(
            cs.drop_first(),
            lbl,
        )
    }
}

/// How one more child extends the flow list.
pub proof fn lemma_flows_seq_push(cs: Seq<NodeV>, x: NodeV, lbl: Seq<char>)
    ensures
        flows_seq(cs.push(x), lbl) =~= flows_seq(cs, lbl) + seq![edge_line(lbl, x.value, x.title)]
            + flows(x, x.title),
    decreases cs,
{
    if cs.len() == 0 {
        reveal_with_fuel(flows_seq, 2);
        assert(cs.push(x)[0] == x);
        assert(cs.push(x).drop_first() =~= Seq::<NodeV>::empty());
    } else {
        assert(cs.push(x)[0] == cs[0]);
        assert(cs.push(x).drop_first() =~= cs.drop_first().push(x));
        lemma_flows_seq_push(cs.drop_first(), x, lbl);
    }
}

fn edge_string(lbl: &String, value: u64, title: &String) -> (r: String)
    ensures
        r@ == edge_line(lbl@, value, title@),
{
    let mut s = lbl.clone();
    s.append(" [");
    let num = u64_to_string(value);
    s.append(num.as_str());
    s.append("] ");
    s.append(title.as_str());
    proof {
        assert(s@ =~= edge_line(lbl@, value, title@));
    }
    s
}

/// A copy of the tree with every node's children in emission order.
pub fn sorted_tree(t: &TreeNode) -> (r: TreeNode)
    ensures
        r@ == st(t@),
    decreases *t,
{
    let ghost cvs = nodes_view(t.children@);
    proof {
        lemma_nodes_view_len(t.children@);
        lemma_st_seq_len(cvs);
    }
    let mut kids: Vec<TreeNode> = Vec::new();
    let mut i: usize = 0;
    while i < t.children.len()
        invariant
            i <= t.children.len(),
            cvs == nodes_view(t.children@),
            cvs.len() == t.children@.len(),
            nodes_view(kids@) =~= st_seq(cvs).take(i as int),
            st_seq(cvs).len() == cvs.len(),
        decreases t.children.len() - i,
    {
        let c = sorted_tree(&t.children[i]);
        let ghost prev = kids@;
        kids.push(c);
        proof {
            lemma_nodes_view_index(t.children@, i as int);
            lemma_nodes_view_push(prev, c);
            lemma_st_seq_index(cvs, i as int);
            assert(st_seq(cvs).take(i + 1) =~= st_seq(cvs).take(i as int).push(
                st_seq(cvs)[i as int],
            ));
        }
        i = i + 1;
    }
    proof {
        assert(st_seq(cvs).take(cvs.len() as int) =~= st_seq(cvs));
    }
    let children = sort_by_value_desc(&kids);
    let r = TreeNode { title: t.title.clone(), value: t.value, kind: t.kind, children };
    proof {
        assert(nodes_view(r.children@) =~= sort_desc(st_seq(cvs)));
        assert(r@ =~= st(t@));
    }
    r
}

/// Append the flow lines below `t`, whose children are already in emission
/// order: each direct child's edge under the label `lbl`, then its subtree.
fn walk_emit(t: &TreeNode, lbl: &String, out: &mut Vec<String>)
    ensures
        final(out).deep_view() =~= old(out).deep_view() + flows(t@, lbl@),
    decreases *t,
{
    let ghost cvs = nodes_view(t.children@);
    let ghost base = out.deep_view();
    proof {
        lemma_nodes_view_len(t.children@);
        assert(base + flows_seq(cvs.take(0), lbl@) =~= base) by {
            assert(cvs.take(0) =~= Seq::<NodeV>::empty());
        }
    }
    let mut i: usize = 0;
    while i < t.children.len()
        invariant
            i <= t.children.len(),
            cvs == nodes_view(t.children@),
            cvs.len() == t.children@.len(),
            out.deep_view() =~= base + flows_seq(cvs.take(i as int), lbl@),
        decreases t.children.len() - i,
    {
        proof {
            lemma_nodes_view_index(t.children@, i as int);
        }
        let c = &t.children[i];
        let line = edge_string(lbl, c.value, &c.title);
        let ghost dv0 = out.deep_view();
        out.push(line);
        proof {
            assert(out.deep_view() =~= dv0.push(line@));
        }
        walk_emit(c, &c.title, out);
        proof {
            assert(cvs.take(i + 1) =~= cvs.take(i as int).push(cvs[i as int]));
            lemma_flows_seq_push(cvs.take(i as int), cvs[i as int], lbl@);
        }
        i = i + 1;
    }
    proof {
        assert(cvs.take(cvs.len() as int) =~= cvs);
    }
}

/// Produce the flow-edge list for the whole tree: one line per non-root node,
/// `"<parent-title> [<value>] <title>"`, with the root's direct children
/// written under the sentinel label `"' All <root-title>"`; every node's
/// children are emitted in descending value order (ties keep insertion
/// order), each child's subtree directly after its edge.
pub fn sankeymatic(top: &TreeNode) -> (r: Vec<String>)
    ensures
        r.deep_view() == flows(st(top@), root_label(top@.title)),
{
    let s = sorted_tree(top);
    let mut lbl = String::from_str("' All ");
    lbl.append(top.title.as_str());
    let mut out: Vec<String> = Vec::new();
    proof {
        assert(out.deep_view() =~= Seq::<Seq<char>>::empty());
        assert(lbl@ == root_label(top@.title));
    }
    walk_emit(&s, &lbl, &mut out);
    proof {
        assert(out.deep_view() =~= flows(st(top@), root_label(top@.title)));
    }
    out
}

} // verus!
