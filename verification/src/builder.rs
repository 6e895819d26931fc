//! Tree building: an ordered sequence of classified records becomes a
//! three-level tree — chapters under the root, sub-chapters under chapters,
//! one leaf per record under its sub-chapter.
//!
//! Grouping relies entirely on adjacency: a record is placed into the current
//! (most recently created) chapter and sub-chapter exactly when the labels
//! match; otherwise fresh aggregate nodes are created. Input that is not
//! pre-sorted by (chapter, sub-chapter) therefore yields duplicate sibling
//! aggregates rather than an error — a documented precondition on callers,
//! not a signalled failure.

use vstd::prelude::*;

use crate::tree::{
    lemma_nodes_view_index, lemma_nodes_view_len, lemma_nodes_view_push, leaf_sum, leaf_sum_seq,
    mass, no_precomputed, nodes_view, wf, ClassifiedRecord, NodeV, RecordV, TreeNode,
};

verus! {

/// The leaf node wrapping one record.
pub open spec fn leaf_of(r: RecordV) -> NodeV {
    NodeV {
        title: r.title,
        value: r.value,
        leaf: true,
        precomputed: false,
        children: Seq::empty(),
    }
}

/// A fresh sub-chapter aggregate holding just this record's leaf.
pub open spec fn sub_of(r: RecordV) -> NodeV {
    NodeV {
        title: r.subchapter,
        value: 0,
        leaf: false,
        precomputed: false,
        children: seq![leaf_of(r)],
    }
}

/// A fresh chapter aggregate holding just this record's sub-chapter.
pub open spec fn chapter_of(r: RecordV) -> NodeV {
    NodeV {
        title: r.chapter,
        value: 0,
        leaf: false,
        precomputed: false,
        children: seq![sub_of(r)],
    }
}

/// Attach one more leaf to a sub-chapter node.
pub open spec fn add_leaf(sub: NodeV, r: RecordV) -> NodeV {
    NodeV { children: sub.children.push(leaf_of(r)), ..sub }
}

/// Place a record inside a chapter node: into the current (last) sub-chapter
/// when the label matches, else into a fresh one.
pub open spec fn add_to_chapter(ch: NodeV, r: RecordV) -> NodeV {
    if ch.children.len() > 0 && ch.children.last().title == r.subchapter {
        NodeV { children: ch.children.drop_last().push(add_leaf(ch.children.last(), r)), ..ch }
    } else {
        NodeV { children: ch.children.push(sub_of(r)), ..ch }
    }
}

/// The root's children after consuming the records in order: each record goes
/// into the current (last) chapter when its label matches, else opens a fresh
/// chapter.
pub open spec fn build_chapters(rs: Seq<RecordV>) -> Seq<NodeV>
    decreases rs,
{
    if rs.len() == 0 {
        Seq::empty()
    } else {
        let prev = build_chapters(rs.drop_last());
        let r = rs.last();
        if prev.len() > 0 && prev.last().title == r.chapter {
            prev.drop_last().push(add_to_chapter(prev.last(), r))
        } else {
            prev.push(chapter_of(r))
        }
    }
}

/// The whole tree: a root aggregate above the chapters. Its value is left at
/// zero for rollup to fill in.
pub open spec fn build(rs: Seq<RecordV>, root_title: Seq<char>) -> NodeV {
    NodeV {
        title: root_title,
        value: 0,
        leaf: false,
        precomputed: false,
        children: build_chapters(rs),
    }
}

/// The sum of the records' values.
pub open spec fn records_sum(rs: Seq<RecordV>) -> int
    decreases rs,
{
    if rs.len() == 0 {
        0
    } else {
        records_sum(rs.drop_last()) + rs.last().value
    }
}

pub proof fn lemma_leaf_sum_seq_push(cs: Seq<NodeV>, n: NodeV)
    ensures
        leaf_sum_seq(cs.push(n)) == leaf_sum_seq(cs) + leaf_sum(n),
    decreases cs,
{
    if cs.len() == 0 {
        reveal_with_fuel(leaf_sum_seq, 2);
        assert(cs.push(n)[0] == n);
        assert(cs.push(n).drop_first() =~= Seq::<NodeV>::empty());
    } else {
        assert(cs.push(n)[0] == cs[0]);
        assert(cs.push(n).drop_first() =~= cs.drop_first().push(n));
        lemma_leaf_sum_seq_push(cs.drop_first(), n);
    }
}

pub proof fn lemma_leaf_sum_seq_drop_last(cs: Seq<NodeV>)
    requires
        cs.len() > 0,
    ensures
        leaf_sum_seq(cs) == leaf_sum_seq(cs.drop_last()) + leaf_sum(cs.last()),
{
    assert(cs.drop_last().push(cs.last()) =~= cs);
    lemma_leaf_sum_seq_push(cs.drop_last(), cs.last());
}

/// Every record's value reaches the tree as one leaf: building conserves the
/// total.
pub proof fn lemma_build_leaf_sum(rs: Seq<RecordV>, root_title: Seq<char>)
    ensures
        leaf_sum(build(rs, root_title)) == records_sum(rs),
    decreases rs,
{
    lemma_build_chapters_leaf_sum(rs);
}

pub proof fn lemma_build_chapters_leaf_sum(rs: Seq<RecordV>)
    ensures
        leaf_sum_seq(build_chapters(rs)) == records_sum(rs),
    decreases rs,
{
    if rs.len() > 0 {
        lemma_build_chapters_leaf_sum(rs.drop_last());
        lemma_build_chapters_wf(rs.drop_last());
        let prev = build_chapters(rs.drop_last());
        let r = rs.last();
        assert(leaf_sum(sub_of(r)) == r.value) by {
            reveal_with_fuel(leaf_sum, 2);
            reveal_with_fuel(leaf_sum_seq, 2);
            assert(sub_of(r).children[0] == leaf_of(r));
            assert(sub_of(r).children.drop_first() =~= Seq::<NodeV>::empty());
        }
        if prev.len() > 0 && prev.last().title == r.chapter {
            let ch = prev.last();
            let ch2 = add_to_chapter(ch, r);
            assert(chapter_shape(ch));
            assert(leaf_sum(ch2) == leaf_sum(ch) + r.value) by {
                if ch.children.len() > 0 && ch.children.last().title == r.subchapter {
                    let sub = ch.children.last();
                    let sub2 = add_leaf(sub, r);
                    assert(!sub.leaf);
                    assert(leaf_sum(sub2) == leaf_sum(sub) + r.value) by {
                        lemma_leaf_sum_seq_push(sub.children, leaf_of(r));
                    }
                    lemma_leaf_sum_seq_drop_last(ch.children);
                    lemma_leaf_sum_seq_push(ch.children.drop_last(), sub2);
                } else {
                    lemma_leaf_sum_seq_push(ch.children, sub_of(r));
                }
            }
            lemma_leaf_sum_seq_drop_last(prev);
            lemma_leaf_sum_seq_push(prev.drop_last(), ch2);
        } else {
            lemma_leaf_sum_seq_push(prev, chapter_of(r));
            assert(leaf_sum(chapter_of(r)) == r.value) by {
                reveal_with_fuel(leaf_sum, 2);
                reveal_with_fuel(leaf_sum_seq, 2);
                assert(chapter_of(r).children[0] == sub_of(r));
                assert(chapter_of(r).children.drop_first() =~= Seq::<NodeV>::empty());
            }
        }
    }
}

/// A freshly built tree is well-formed and carries no precomputed marks, so
/// its mass is exactly the records' sum.
pub proof fn lemma_build_wf(rs: Seq<RecordV>, root_title: Seq<char>)
    ensures
        wf(build(rs, root_title)),
        no_precomputed(build(rs, root_title)),
        mass(build(rs, root_title)) == records_sum(rs),
{
    lemma_build_chapters_wf(rs);
    let b = build(rs, root_title);
    assert(wf(b));
    assert(no_precomputed(b));
    crate::rollup::lemma_uncoalesced_mass(b);
    lemma_build_leaf_sum(rs, root_title);
}

/// The two-level shape of every root child the builder makes: an aggregate
/// (chapter) whose children are aggregates (sub-chapters).
pub open spec fn chapter_shape(c: NodeV) -> bool {
    &&& !c.leaf
    &&& forall|j: int| 0 <= j < c.children.len() ==> !(#[trigger] c.children[j]).leaf
}

pub proof fn lemma_build_chapters_wf(rs: Seq<RecordV>)
    ensures
        forall|i: int|
            0 <= i < build_chapters(rs).len() ==> wf(#[trigger] build_chapters(rs)[i])
                && no_precomputed(build_chapters(rs)[i]) && chapter_shape(build_chapters(rs)[i]),
    decreases rs,
{
    if rs.len() > 0 {
        lemma_build_chapters_wf(rs.drop_last());
        let prev = build_chapters(rs.drop_last());
        let r = rs.last();
        assert(wf(leaf_of(r)) && no_precomputed(leaf_of(r)));
        assert(wf(sub_of(r)) && no_precomputed(sub_of(r))) by {
            assert(forall|i: int|
                0 <= i < sub_of(r).children.len() ==> sub_of(r).children[i] == leaf_of(r));
        }
        assert(wf(chapter_of(r)) && no_precomputed(chapter_of(r)) && chapter_shape(chapter_of(r)))
            by {
            assert(forall|i: int|
                0 <= i < chapter_of(r).children.len() ==> chapter_of(r).children[i] == sub_of(r));
        }
        if prev.len() > 0 && prev.last().title == r.chapter {
            let ch = prev.last();
            let ch2 = add_to_chapter(ch, r);
            assert(wf(ch) && no_precomputed(ch) && chapter_shape(ch));
            assert(wf(ch2) && no_precomputed(ch2) && chapter_shape(ch2)) by {
                if ch.children.len() > 0 && ch.children.last().title == r.subchapter {
                    let sub = ch.children.last();
                    let sub2 = add_leaf(sub, r);
                    assert(wf(sub) && no_precomputed(sub) && !sub.leaf);
                    assert(wf(sub2) && no_precomputed(sub2) && !sub2.leaf) by {
                        assert(forall|i: int|
                            0 <= i < sub.children.len() ==> sub2.children[i] == sub.children[i]);
                        assert(sub2.children.last() == leaf_of(r));
                    }
                    assert(forall|i: int|
                        0 <= i < ch.children.len() - 1 ==> ch2.children[i] == ch.children[i]);
                    assert(ch2.children.last() == sub2);
                } else {
                    assert(forall|i: int|
                        0 <= i < ch.children.len() ==> ch2.children[i] == ch.children[i]);
                    assert(ch2.children.last() == sub_of(r));
                }
            }
            let cur = build_chapters(rs);
            assert forall|i: int| 0 <= i < cur.len() implies wf(#[trigger] cur[i])
                && no_precomputed(cur[i]) && chapter_shape(cur[i]) by {
                if i < cur.len() - 1 {
                    assert(cur[i] == prev[i]);
                } else {
                    assert(cur[i] == ch2);
                }
            }
        } else {
            let cur = build_chapters(rs);
            assert forall|i: int| 0 <= i < cur.len() implies wf(#[trigger] cur[i])
                && no_precomputed(cur[i]) && chapter_shape(cur[i]) by {
                if i < cur.len() - 1 {
                    assert(cur[i] == prev[i]);
                } else {
                    assert(cur[i] == chapter_of(r));
                }
            }
        }
    }
}

/// Build the aggregation tree from an ordered record sequence, grouping by
/// adjacent chapter and sub-chapter labels. The returned tree is exactly the
/// grouping model applied to the records; it is well-formed, carries no
/// precomputed marks, and its mass is the records' value sum, ready for
/// rollup.
pub proof fn lemma_nodes_view_drop_last(cs: Seq<TreeNode>)
    requires
        cs.len() > 0,
    ensures
        nodes_view(cs.drop_last()) =~= nodes_view(cs).drop_last(),
{
    lemma_nodes_view_len(cs);
    lemma_nodes_view_len(cs.drop_last());
    assert forall|i: int| 0 <= i < cs.len() - 1 implies nodes_view(cs.drop_last())[i] == nodes_view(
        cs,
    ).drop_last()[i] by {
        lemma_nodes_view_index(cs.drop_last(), i);
        lemma_nodes_view_index(cs, i);
        assert(cs.drop_last()[i] == cs[i]);
    }
}

pub fn build_tree(records: &Vec<ClassifiedRecord>, root_title: String) -> (r: TreeNode)
    ensures
        r@ == build(records.deep_view(), root_title@),
        wf(r@),
        no_precomputed(r@),
        mass(r@) == records_sum(records.deep_view()),
{
    let ghost rvs = records.deep_view();
    let mut chapters: Vec<TreeNode> = Vec::new();
    let mut i: usize = 0;
    while i < records.len()
        invariant
            i <= records.len(),
            rvs == records.deep_view(),
            rvs.len() == records@.len(),
            nodes_view(chapters@) =~= build_chapters(rvs.take(i as int)),
        decreases records.len() - i,
    {
        let rec = &records[i];
        let ghost r = rvs[i as int];
        let ghost prev = build_chapters(rvs.take(i as int));
        proof {
            lemma_nodes_view_len(chapters@);
            assert(r == records@[i as int].deep_view());
            assert(rvs.take(i + 1).drop_last() =~= rvs.take(i as int));
            assert(rvs.take(i + 1).last() == r);
        }
        let reuse_chapter = if chapters.len() > 0 {
            let last_idx = chapters.len() - 1;
            proof {
                lemma_nodes_view_index(chapters@, last_idx as int);
            }
            chapters[last_idx].title == rec.chapter
        } else {
            false
        };
        proof {
            assert(reuse_chapter == (prev.len() > 0 && prev.last().title == r.chapter));
        }
        if !reuse_chapter {
            let ghost cprev = chapters@;
            let fresh = TreeNode::aggregate(rec.chapter.clone());
            chapters.push(fresh);
            proof {
                lemma_nodes_view_push(cprev, fresh);
            }
        }
        // the current chapter is the last one; take it out, extend it, put it
        // back
        let ghost before = chapters@;
        proof {
            lemma_nodes_view_len(before);
        }
        let mut ch = chapters.pop().unwrap();
        let ghost chv = ch@;
        let ghost restv = nodes_view(chapters@);
        proof {
            assert(chapters@ == before.drop_last());
            assert(ch == before.last());
            lemma_nodes_view_drop_last(before);
            lemma_nodes_view_index(before, before.len() - 1);
            if reuse_chapter {
                assert(nodes_view(before) == prev);
                assert(restv =~= prev.drop_last());
                assert(chv == prev.last());
            } else {
                assert(nodes_view(before.drop_last()) =~= prev);
                assert(restv =~= prev);
                assert(chv.children =~= Seq::<NodeV>::empty());
                assert(chv.title == r.chapter);
            }
        }
        let reuse_sub = if ch.children.len() > 0 {
            let last_idx = ch.children.len() - 1;
            proof {
                lemma_nodes_view_index(ch.children@, last_idx as int);
                lemma_nodes_view_len(ch.children@);
            }
            ch.children[last_idx].title == rec.subchapter
        } else {
            proof {
                lemma_nodes_view_len(ch.children@);
            }
            false
        };
        proof {
            assert(reuse_sub == (chv.children.len() > 0 && chv.children.last().title
                == r.subchapter));
        }
        if !reuse_sub {
            let ghost sprev = ch.children@;
            let fresh_sub = TreeNode::aggregate(rec.subchapter.clone());
            ch.children.push(fresh_sub);
            proof {
                lemma_nodes_view_push(sprev, fresh_sub);
            }
        }
        let ghost sbefore = ch.children@;
        proof {
            lemma_nodes_view_len(sbefore);
        }
        let mut sub = ch.children.pop().unwrap();
        let ghost subv = sub@;
        let ghost subrestv = nodes_view(ch.children@);
        proof {
            assert(ch.children@ == sbefore.drop_last());
            assert(sub == sbefore.last());
            lemma_nodes_view_drop_last(sbefore);
            lemma_nodes_view_index(sbefore, sbefore.len() - 1);
            if reuse_sub {
                assert(nodes_view(sbefore) == chv.children);
                assert(subrestv =~= chv.children.drop_last());
                assert(subv == chv.children.last());
            } else {
                assert(nodes_view(sbefore.drop_last()) =~= chv.children);
                assert(subrestv =~= chv.children);
                assert(subv.children =~= Seq::<NodeV>::empty());
                assert(subv.title == r.subchapter);
            }
        }
        let ghost lprev = sub.children@;
        let lf = TreeNode::leaf(rec.title.clone(), rec.value);
        sub.children.push(lf);
        proof {
            lemma_nodes_view_push(lprev, lf);
            assert(sub@ =~= add_leaf(subv, r));
            if !reuse_sub {
                assert(sub@ =~= sub_of(r));
            }
        }
        let ghost chrest = ch.children@;
        let ghost sub2v = sub@;
        ch.children.push(sub);
        proof {
            lemma_nodes_view_push(chrest, sub);
        }
        let ghost ch2v = ch@;
        proof {
            assert(nodes_view(ch.children@) =~= subrestv.push(sub2v));
            assert(ch2v =~= add_to_chapter(chv, r));
            if !reuse_chapter {
                assert(ch2v =~= chapter_of(r));
            }
        }
        let ghost chaps = chapters@;
        chapters.push(ch);
        proof {
            lemma_nodes_view_push(chaps, ch);
            assert(nodes_view(chapters@) =~= restv.push(ch2v));
            if reuse_chapter {
                assert(build_chapters(rvs.take(i + 1)) == prev.drop_last().push(
                    add_to_chapter(prev.last(), r),
                ));
            } else {
                assert(build_chapters(rvs.take(i + 1)) == prev.push(chapter_of(r)));
            }
            assert(nodes_view(chapters@) =~= build_chapters(rvs.take(i + 1)));
        }
        i = i + 1;
    }
    proof {
        assert(rvs.take(rvs.len() as int) =~= rvs);
    }
    let r = TreeNode {
        title: root_title,
        value: 0,
        kind: crate::tree::NodeKind::Aggregate { precomputed: false },
        children: chapters,
    };
    proof {
        assert(r@ =~= build(rvs, r.title@));
        lemma_build_wf(rvs, r.title@);
    }
    r
}

} // verus!
