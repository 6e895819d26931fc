//! Coalescing transforms: collapse low-magnitude sibling branches into one
//! synthetic "Other" node, either by capping the number of children per node
//! or by pruning children below a percentage-of-total threshold.

use vstd::prelude::*;

use crate::sort::{
    lemma_sort_desc_len, lemma_sort_desc_membership, lemma_sort_desc_sums,
    lemma_sum_values_take_skip, sort_by_value_desc, sort_desc,
};
use crate::tree::{
    lemma_mass_nonneg, lemma_mass_seq_index, lemma_mass_seq_nonneg, lemma_nodes_view_index,
    lemma_nodes_view_len, lemma_nodes_view_push, lemma_sum_values_nonneg, lemma_values_mass_seq,
    is_rolled, mass, mass_seq, nodes_view, sum_values, wf, NodeKind, NodeV, TreeNode,
};

verus! {

/// The display title of a synthetic node that absorbs the low-magnitude
/// children of a node titled `t`.
pub open spec fn other_title(t: Seq<char>) -> Seq<char> {
    "Other "@ + t
}

/// The synthetic node itself: a childless precomputed aggregate carrying the
/// pre-summed value of everything that was detached.
pub open spec fn other_node(title: Seq<char>, value: u64) -> NodeV {
    NodeV { title: title, value: value, leaf: false, precomputed: true, children: Seq::empty() }
}

/// Count-capped coalescing with cap `k`: wherever an aggregate has more than
/// `k` children, the children are sorted descending by value, the top `k - 1`
/// are retained, and the rest are replaced by one "Other" node holding their
/// summed values. The same cap is applied recursively below every retained
/// child.
pub open spec fn cc(n: NodeV, k: u64) -> NodeV
    decreases n,
{
    if n.leaf {
        n
    } else {
        let kids = cc_seq(n.children, k);
        if 1 <= k && k < kids.len() {
            let sorted = sort_desc(kids);
            let keep = sorted.take(k as int - 1);
            let excess = sorted.skip(k as int - 1);
            NodeV {
                children: keep.push(
                    other_node(other_title(n.title), sum_values(excess) as u64),
                ),
                ..n
            }
        } else {
            NodeV { children: kids, ..n }
        }
    }
}

pub open spec fn cc_seq(cs: Seq<NodeV>, k: u64) -> Seq<NodeV>
    decreases cs,
{
    if cs.len() == 0 {
        Seq::empty()
    } else {
        seq![cc(cs[0], k)] + cc_seq(cs.drop_first(), k)
    }
}

pub broadcast proof fn lemma_cc_seq_len(cs: Seq<NodeV>, k: u64)
    ensures
        (#[trigger] cc_seq(cs, k)).len() == cs.len(),
    decreases cs,
{
    if cs.len() > 0 {
        lemma_cc_seq_len(cs.drop_first(), k);
    }
}

pub broadcast proof fn lemma_cc_seq_index(cs: Seq<NodeV>, k: u64, i: int)
    requires
        0 <= i < cs.len(),
    ensures
        #[trigger] cc_seq(cs, k)[i] == cc(cs[i], k),
    decreases cs,
{
    lemma_cc_seq_len(cs, k);
    if i > 0 {
        lemma_cc_seq_index(cs.drop_first(), k, i - 1);
    }
}

/// Coalescing never touches a node's own title, value or variant — only its
/// descendants.
pub proof fn lemma_cc_same_node(n: NodeV, k: u64)
    ensures
        cc(n, k).title == n.title,
        cc(n, k).value == n.value,
        cc(n, k).leaf == n.leaf,
        cc(n, k).precomputed == n.precomputed,
{
}

/// On a rolled-up tree, count-capped coalescing conserves the mass and leaves
/// the tree rolled-up: the detached children's values travel into the
/// synthetic node.
pub proof fn lemma_cc_preserves(n: NodeV, k: u64)
    requires
        is_rolled(n),
    ensures
        mass(cc(n, k)) == mass(n),
        is_rolled(cc(n, k)),
    decreases n,
{
    if n.leaf {
    } else {
        let kids = cc_seq(n.children, k);
        lemma_cc_seq_len(n.children, k);
        lemma_cc_seq_preserves(n.children, k);
        assert(mass_seq(kids) == mass_seq(n.children));
        if 1 <= k && k < kids.len() {
            let sorted = sort_desc(kids);
            let keep = sorted.take(k as int - 1);
            let excess = sorted.skip(k as int - 1);
            let r = cc(n, k);
            lemma_sort_desc_len(kids);
            lemma_sort_desc_sums(kids);
            assert forall|i: int| 0 <= i < sorted.len() implies is_rolled(#[trigger] sorted[i])
                && (sorted[i].value as int == mass(sorted[i])) by {
                lemma_sort_desc_membership(kids, i);
                let j = choose|j: int| 0 <= j < kids.len() && sorted[i] == kids[j];
            }
            assert(sum_values(sorted) == sum_values(kids));
            assert forall|i: int| 0 <= i < kids.len() implies (#[trigger] kids[i].value) as int
                == mass(kids[i]) by {}
            lemma_values_mass_seq(kids);
            assert(sum_values(kids) == mass_seq(kids));
            lemma_sum_values_take_skip(sorted, k as int - 1);
            lemma_sum_values_nonneg(keep);
            lemma_sum_values_nonneg(excess);
            lemma_mass_seq_nonneg(n.children);
            assert(mass(n) == mass_seq(n.children));
            assert(n.value as int == mass(n));
            assert(sum_values(excess) <= u64::MAX);
            let ov = other_node(other_title(n.title), sum_values(excess) as u64);
            assert(mass(ov) == sum_values(excess));
            assert forall|i: int| 0 <= i < keep.len() implies (#[trigger] keep[i].value) as int
                == mass(keep[i]) by {
                assert(keep[i] == sorted[i]);
            }
            lemma_values_mass_seq(keep);
            crate::rollup::lemma_mass_seq_push(keep, ov);
            assert(mass_seq(r.children) == sum_values(keep) + sum_values(excess));
            assert(mass_seq(r.children) == mass_seq(n.children));
            assert(mass(r) == mass(n));
            assert forall|i: int| 0 <= i < r.children.len() implies is_rolled(
                #[trigger] r.children[i],
            ) by {
                if i < keep.len() {
                    assert(r.children[i] == sorted[i]);
                } else {
                    assert(r.children[i] == ov);
                }
            }
            assert(is_rolled(r));
        } else {
            let r = cc(n, k);
            assert(r.children == kids);
            if n.precomputed && n.children.len() == 0 {
                assert(kids =~= Seq::empty());
                assert(mass(r) == r.value);
            } else {
                assert(mass(r) == mass_seq(kids));
            }
            assert forall|i: int| 0 <= i < r.children.len() implies is_rolled(
                #[trigger] r.children[i],
            ) by {
                lemma_cc_seq_index(n.children, k, i);
            }
        }
    }
}

pub proof fn lemma_cc_seq_preserves(cs: Seq<NodeV>, k: u64)
    requires
        forall|i: int| 0 <= i < cs.len() ==> is_rolled(#[trigger] cs[i]),
    ensures
        mass_seq(cc_seq(cs, k)) == mass_seq(cs),
        forall|i: int|
            0 <= i < cs.len() ==> is_rolled(#[trigger] cc_seq(cs, k)[i]) && cc_seq(cs, k)[i].value
                == cs[i].value && (cc_seq(cs, k)[i].value as int == mass(cc_seq(cs, k)[i])),
    decreases cs,
{
    lemma_cc_seq_len(cs, k);
    if cs.len() > 0 {
        lemma_cc_preserves(cs[0], k);
        lemma_cc_same_node(cs[0], k);
        assert(forall|i: int|
            0 <= i < cs.drop_first().len() ==> is_rolled(#[trigger] cs.drop_first()[i]));
        lemma_cc_seq_preserves(cs.drop_first(), k);
        assert(cc_seq(cs, k)[0] == cc(cs[0], k));
        assert(cc_seq(cs, k).drop_first() =~= cc_seq(cs.drop_first(), k));
        assert forall|i: int| 0 <= i < cs.len() implies is_rolled(#[trigger] cc_seq(cs, k)[i])
            && cc_seq(cs, k)[i].value == cs[i].value && (cc_seq(cs, k)[i].value as int == mass(
            cc_seq(cs, k)[i],
        )) by {
            if i > 0 {
                assert(cc_seq(cs, k)[i] == cc_seq(cs.drop_first(), k)[i - 1]);
                assert(cs.drop_first()[i - 1] == cs[i]);
            }
        }
    }
}

/// Every node of the coalesced tree has at most `k` direct children.
pub open spec fn bounded(n: NodeV, k: u64) -> bool
    decreases n,
{
    &&& n.children.len() <= k
    &&& forall|i: int| 0 <= i < n.children.len() ==> bounded(#[trigger] n.children[i], k)
}

/// The count-cap bound: after count-capped coalescing with cap `k >= 1`, no
/// node of a well-formed tree keeps more than `k` direct children.
pub proof fn lemma_cc_bound(n: NodeV, k: u64)
    requires
        k >= 1,
        wf(n),
    ensures
        bounded(cc(n, k), k),
    decreases n,
{
    if n.leaf {
        assert(bounded(cc(n, k), k));
    } else {
        let kids = cc_seq(n.children, k);
        lemma_cc_seq_len(n.children, k);
        assert forall|i: int| 0 <= i < kids.len() implies bounded(#[trigger] kids[i], k) by {
            lemma_cc_seq_index(n.children, k, i);
            lemma_cc_bound(n.children[i], k);
        }
        if 1 <= k && k < kids.len() {
            let sorted = sort_desc(kids);
            let r = cc(n, k);
            lemma_sort_desc_len(kids);
            assert(r.children.len() == k);
            assert forall|i: int| 0 <= i < r.children.len() implies bounded(
                #[trigger] r.children[i],
                k,
            ) by {
                if i < k - 1 {
                    assert(r.children[i] == sorted[i]);
                    lemma_sort_desc_membership(kids, i);
                } else {
                    assert(r.children[i] == other_node(
                        other_title(n.title),
                        sum_values(sorted.skip(k as int - 1)) as u64,
                    ));
                }
            }
        } else {
            assert(cc(n, k).children == kids);
        }
    }
}

/// Coalescing preserves structural well-formedness.
pub proof fn lemma_cc_wf(n: NodeV, k: u64)
    requires
        wf(n),
    ensures
        wf(cc(n, k)),
    decreases n,
{
    if n.leaf {
    } else {
        let kids = cc_seq(n.children, k);
        lemma_cc_seq_len(n.children, k);
        assert forall|i: int| 0 <= i < kids.len() implies wf(#[trigger] kids[i]) by {
            lemma_cc_seq_index(n.children, k, i);
            lemma_cc_wf(n.children[i], k);
        }
        if 1 <= k && k < kids.len() {
            let sorted = sort_desc(kids);
            let r = cc(n, k);
            lemma_sort_desc_len(kids);
            assert forall|i: int| 0 <= i < r.children.len() implies wf(
                #[trigger] r.children[i],
            ) by {
                if i < k - 1 {
                    assert(r.children[i] == sorted[i]);
                    lemma_sort_desc_membership(kids, i);
                } else {
                    assert(r.children[i] == other_node(
                        other_title(n.title),
                        sum_values(sorted.skip(k as int - 1)) as u64,
                    ));
                }
            }
        }
    }
}

/// `a * b`, clamped to the value range. Threshold fractions decay by
/// multiplication at each level; once a component would leave the range it
/// stays clamped, and the comparison below that depth uses the clamped value.
pub open spec fn sat_mul(a: u64, b: u64) -> u64 {
    if a * b > u64::MAX {
        u64::MAX
    } else {
        (a * b) as u64
    }
}

/// The pruning test: `c.value < total * (fnum / fden)`, compared exactly as
/// `c.value * fden < total * fnum`.
pub open spec fn below_threshold(c: NodeV, total: u64, fnum: u64, fden: u64) -> bool {
    (c.value as int) * (fden as int) < (total as int) * (fnum as int)
}

/// The children that survive percentage pruning, in their original order.
pub open spec fn cp_kept(cs: Seq<NodeV>, total: u64, fnum: u64, fden: u64) -> Seq<NodeV>
    decreases cs,
{
    if cs.len() == 0 {
        Seq::empty()
    } else if below_threshold(cs[0], total, fnum, fden) {
        cp_kept(cs.drop_first(), total, fnum, fden)
    } else {
        seq![cs[0]] + cp_kept(cs.drop_first(), total, fnum, fden)
    }
}

/// The summed value of the children that percentage pruning detaches.
pub open spec fn cp_dropped_sum(cs: Seq<NodeV>, total: u64, fnum: u64, fden: u64) -> int
    decreases cs,
{
    if cs.len() == 0 {
        0
    } else {
        (if below_threshold(cs[0], total, fnum, fden) {
            cs[0].value as int
        } else {
            0
        }) + cp_dropped_sum(cs.drop_first(), total, fnum, fden)
    }
}

/// Percentage-threshold coalescing. `total` is fixed once (the root's value
/// after the initial rollup) and is never recomputed per subtree. At each
/// node, direct children whose value falls strictly below
/// `total * fnum / fden` are detached; if their summed value is positive one
/// synthetic "Other" child carries it. The fraction decays by `dnum / dden`
/// for each level of recursion into the retained children.
pub open spec fn cp(n: NodeV, total: u64, fnum: u64, fden: u64, dnum: u64, dden: u64) -> NodeV
    decreases n,
{
    if n.leaf {
        n
    } else {
        let kids = cp_seq(n.children, total, sat_mul(fnum, dnum), sat_mul(fden, dden), dnum, dden);
        let kept = cp_kept(kids, total, fnum, fden);
        let ds = cp_dropped_sum(kids, total, fnum, fden);
        if ds > 0 {
            NodeV { children: kept.push(other_node(other_title(n.title), ds as u64)), ..n }
        } else {
            NodeV { children: kept, ..n }
        }
    }
}

pub open spec fn cp_seq(
    cs: Seq<NodeV>,
    total: u64,
    fnum: u64,
    fden: u64,
    dnum: u64,
    dden: u64,
) -> Seq<NodeV>
    decreases cs,
{
    if cs.len() == 0 {
        Seq::empty()
    } else {
        seq![cp(cs[0], total, fnum, fden, dnum, dden)] + cp_seq(
            cs.drop_first(),
            total,
            fnum,
            fden,
            dnum,
            dden,
        )
    }
}

pub broadcast proof fn lemma_cp_seq_len(
    cs: Seq<NodeV>,
    total: u64,
    fnum: u64,
    fden: u64,
    dnum: u64,
    dden: u64,
)
    ensures
        (#[trigger] cp_seq(cs, total, fnum, fden, dnum, dden)).len() == cs.len(),
    decreases cs,
{
    if cs.len() > 0 {
        lemma_cp_seq_len(cs.drop_first(), total, fnum, fden, dnum, dden);
    }
}

pub broadcast proof fn lemma_cp_seq_index(
    cs: Seq<NodeV>,
    total: u64,
    fnum: u64,
    fden: u64,
    dnum: u64,
    dden: u64,
    i: int,
)
    requires
        0 <= i < cs.len(),
    ensures
        #[trigger] cp_seq(cs, total, fnum, fden, dnum, dden)[i] == cp(
            cs[i],
            total,
            fnum,
            fden,
            dnum,
            dden,
        ),
    decreases cs,
{
    lemma_cp_seq_len(cs, total, fnum, fden, dnum, dden);
    if i > 0 {
        lemma_cp_seq_index(cs.drop_first(), total, fnum, fden, dnum, dden, i - 1);
    }
}

pub proof fn lemma_cp_same_node(n: NodeV, total: u64, fnum: u64, fden: u64, dnum: u64, dden: u64)
    ensures
        cp(n, total, fnum, fden, dnum, dden).title == n.title,
        cp(n, total, fnum, fden, dnum, dden).value == n.value,
        cp(n, total, fnum, fden, dnum, dden).leaf == n.leaf,
        cp(n, total, fnum, fden, dnum, dden).precomputed == n.precomputed,
{
}

/// The retained children all pass the threshold test and each one is an
/// element of the pruned sequence, in order.
pub proof fn lemma_cp_kept_props(cs: Seq<NodeV>, total: u64, fnum: u64, fden: u64, i: int)
    requires
        0 <= i < cp_kept(cs, total, fnum, fden).len(),
    ensures
        !below_threshold(cp_kept(cs, total, fnum, fden)[i], total, fnum, fden),
        exists|j: int| 0 <= j < cs.len() && cp_kept(cs, total, fnum, fden)[i] == cs[j],
    decreases cs,
{
    let kept = cp_kept(cs, total, fnum, fden);
    if cs.len() == 0 {
    } else if below_threshold(cs[0], total, fnum, fden) {
        lemma_cp_kept_props(cs.drop_first(), total, fnum, fden, i);
        let j = choose|j: int|
            0 <= j < cs.drop_first().len() && cp_kept(cs.drop_first(), total, fnum, fden)[i]
                == cs.drop_first()[j];
        assert(cs.drop_first()[j] == cs[j + 1]);
    } else {
        if i == 0 {
            assert(kept[0] == cs[0]);
        } else {
            lemma_cp_kept_props(cs.drop_first(), total, fnum, fden, i - 1);
            assert(kept[i] == cp_kept(cs.drop_first(), total, fnum, fden)[i - 1]);
            let j = choose|j: int|
                0 <= j < cs.drop_first().len() && cp_kept(cs.drop_first(), total, fnum, fden)[i - 1]
                    == cs.drop_first()[j];
            assert(cs.drop_first()[j] == cs[j + 1]);
        }
    }
}

/// Every child that passes the threshold test is retained.
pub proof fn lemma_cp_kept_complete(cs: Seq<NodeV>, total: u64, fnum: u64, fden: u64, j: int)
    requires
        0 <= j < cs.len(),
        !below_threshold(cs[j], total, fnum, fden),
    ensures
        exists|i: int|
            0 <= i < cp_kept(cs, total, fnum, fden).len() && cp_kept(cs, total, fnum, fden)[i]
                == cs[j],
    decreases cs,
{
    let kept = cp_kept(cs, total, fnum, fden);
    if j == 0 {
        assert(kept[0] == cs[0]);
    } else {
        lemma_cp_kept_complete(cs.drop_first(), total, fnum, fden, j - 1);
        let i = choose|i: int|
            0 <= i < cp_kept(cs.drop_first(), total, fnum, fden).len() && cp_kept(
                cs.drop_first(),
                total,
                fnum,
                fden,
            )[i] == cs.drop_first()[j - 1];
        if below_threshold(cs[0], total, fnum, fden) {
            assert(kept[i] == cs[j]);
        } else {
            assert(kept[i + 1] == cs[j]);
        }
    }
}

/// Pruning partitions the value sum: kept values plus the dropped sum give
/// the whole.
pub proof fn lemma_cp_partition_sum(cs: Seq<NodeV>, total: u64, fnum: u64, fden: u64)
    ensures
        sum_values(cp_kept(cs, total, fnum, fden)) + cp_dropped_sum(cs, total, fnum, fden)
            == sum_values(cs),
        cp_dropped_sum(cs, total, fnum, fden) >= 0,
    decreases cs,
{
    if cs.len() > 0 {
        lemma_cp_partition_sum(cs.drop_first(), total, fnum, fden);
        if !below_threshold(cs[0], total, fnum, fden) {
            let kept = cp_kept(cs, total, fnum, fden);
            assert(kept[0] == cs[0]);
            assert(kept.drop_first() =~= cp_kept(cs.drop_first(), total, fnum, fden));
        }
    }
}

/// On a rolled-up tree, percentage coalescing conserves the mass and leaves
/// the tree rolled-up.
pub proof fn lemma_cp_preserves(n: NodeV, total: u64, fnum: u64, fden: u64, dnum: u64, dden: u64)
    requires
        is_rolled(n),
    ensures
        mass(cp(n, total, fnum, fden, dnum, dden)) == mass(n),
        is_rolled(cp(n, total, fnum, fden, dnum, dden)),
    decreases n,
{
    if n.leaf {
    } else {
        let fnum2 = sat_mul(fnum, dnum);
        let fden2 = sat_mul(fden, dden);
        let kids = cp_seq(n.children, total, fnum2, fden2, dnum, dden);
        let kept = cp_kept(kids, total, fnum, fden);
        let ds = cp_dropped_sum(kids, total, fnum, fden);
        let r = cp(n, total, fnum, fden, dnum, dden);
        lemma_cp_seq_len(n.children, total, fnum2, fden2, dnum, dden);
        lemma_cp_seq_preserves(n.children, total, fnum2, fden2, dnum, dden);
        assert(mass_seq(kids) == mass_seq(n.children));
        assert forall|i: int| 0 <= i < kids.len() implies (#[trigger] kids[i].value) as int == mass(
            kids[i],
        ) && is_rolled(kids[i]) by {}
        lemma_values_mass_seq(kids);
        lemma_cp_partition_sum(kids, total, fnum, fden);
        assert forall|i: int| 0 <= i < kept.len() implies (#[trigger] kept[i].value) as int == mass(
            kept[i],
        ) && is_rolled(kept[i]) by {
            lemma_cp_kept_props(kids, total, fnum, fden, i);
            let j = choose|j: int| 0 <= j < kids.len() && kept[i] == kids[j];
        }
        lemma_values_mass_seq(kept);
        lemma_sum_values_nonneg(kept);
        lemma_mass_seq_nonneg(n.children);
        assert(n.value as int == mass(n));
        if n.precomputed && n.children.len() == 0 {
            assert(kids =~= Seq::<NodeV>::empty());
            assert(kept =~= Seq::<NodeV>::empty());
            assert(ds == 0);
            assert(r.children =~= Seq::<NodeV>::empty());
            assert(mass(r) == r.value);
        } else {
            assert(mass(n) == mass_seq(n.children));
            assert(ds <= sum_values(kids));
            if ds > 0 {
                let ov = other_node(other_title(n.title), ds as u64);
                assert(mass(ov) == ds);
                crate::rollup::lemma_mass_seq_push(kept, ov);
                assert(mass_seq(r.children) == sum_values(kept) + ds);
                assert(mass(r) == mass(n));
                assert forall|i: int| 0 <= i < r.children.len() implies is_rolled(
                    #[trigger] r.children[i],
                ) by {
                    if i < kept.len() {
                        assert(r.children[i] == kept[i]);
                    } else {
                        assert(r.children[i] == ov);
                    }
                }
            } else {
                assert(r.children == kept);
                assert(mass_seq(r.children) == sum_values(kept));
                assert(mass(r) == mass(n));
                assert forall|i: int| 0 <= i < r.children.len() implies is_rolled(
                    #[trigger] r.children[i],
                ) by {
                    assert(r.children[i] == kept[i]);
                }
            }
        }
    }
}

pub proof fn lemma_cp_seq_preserves(
    cs: Seq<NodeV>,
    total: u64,
    fnum: u64,
    fden: u64,
    dnum: u64,
    dden: u64,
)
    requires
        forall|i: int| 0 <= i < cs.len() ==> is_rolled(#[trigger] cs[i]),
    ensures
        mass_seq(cp_seq(cs, total, fnum, fden, dnum, dden)) == mass_seq(cs),
        forall|i: int|
            0 <= i < cs.len() ==> is_rolled(#[trigger] cp_seq(cs, total, fnum, fden, dnum, dden)[i])
                && cp_seq(cs, total, fnum, fden, dnum, dden)[i].value == cs[i].value && (cp_seq(
                cs,
                total,
                fnum,
                fden,
                dnum,
                dden,
            )[i].value as int == mass(cp_seq(cs, total, fnum, fden, dnum, dden)[i])) && cp_seq(
                cs,
                total,
                fnum,
                fden,
                dnum,
                dden,
            )[i].title == cs[i].title,
    decreases cs,
{
    let r = cp_seq(cs, total, fnum, fden, dnum, dden);
    lemma_cp_seq_len(cs, total, fnum, fden, dnum, dden);
    if cs.len() > 0 {
        lemma_cp_preserves(cs[0], total, fnum, fden, dnum, dden);
        lemma_cp_same_node(cs[0], total, fnum, fden, dnum, dden);
        assert(forall|i: int|
            0 <= i < cs.drop_first().len() ==> is_rolled(#[trigger] cs.drop_first()[i]));
        lemma_cp_seq_preserves(cs.drop_first(), total, fnum, fden, dnum, dden);
        assert(r[0] == cp(cs[0], total, fnum, fden, dnum, dden));
        assert(r.drop_first() =~= cp_seq(cs.drop_first(), total, fnum, fden, dnum, dden));
        assert forall|i: int| 0 <= i < cs.len() implies is_rolled(#[trigger] r[i]) && r[i].value
            == cs[i].value && (r[i].value as int == mass(r[i])) && r[i].title == cs[i].title by {
            if i > 0 {
                assert(r[i] == cp_seq(cs.drop_first(), total, fnum, fden, dnum, dden)[i - 1]);
                assert(cs.drop_first()[i - 1] == cs[i]);
            }
        }
    }
}

/// The dropped sum and the kept-value sequence depend only on the children's
/// values, which the recursive pass preserves.
pub proof fn lemma_cp_sums_congruent(
    cs: Seq<NodeV>,
    ds: Seq<NodeV>,
    total: u64,
    fnum: u64,
    fden: u64,
)
    requires
        cs.len() == ds.len(),
        forall|i: int| 0 <= i < cs.len() ==> (#[trigger] cs[i].value) == ds[i].value,
    ensures
        cp_dropped_sum(cs, total, fnum, fden) == cp_dropped_sum(ds, total, fnum, fden),
    decreases cs,
{
    if cs.len() > 0 {
        assert(cs[0].value == ds[0].value);
        assert(forall|i: int|
            0 <= i < cs.drop_first().len() ==> (#[trigger] cs.drop_first()[i].value)
                == ds.drop_first()[i].value);
        lemma_cp_sums_congruent(cs.drop_first(), ds.drop_first(), total, fnum, fden);
    }
}

/// Threshold-coalesce correctness: after percentage coalescing, every
/// retained direct child meets the threshold (`value * fden >= total * fnum`);
/// the children strictly below it, and only those, were merged — their summed
/// value is the trailing synthetic node's value, which appears exactly when
/// that sum is positive; and every child meeting the threshold is retained
/// with its value and title intact.
pub proof fn lemma_cp_threshold(n: NodeV, total: u64, fnum: u64, fden: u64, dnum: u64, dden: u64)
    requires
        !n.leaf,
    ensures
        ({
            let r = cp(n, total, fnum, fden, dnum, dden);
            let ds = cp_dropped_sum(n.children, total, fnum, fden);
            let nkept = if ds > 0 {
                r.children.len() - 1
            } else {
                r.children.len() as int
            };
            &&& forall|i: int|
                0 <= i < nkept ==> (#[trigger] r.children[i].value as int) * (fden as int) >= (
                total as int) * (fnum as int)
            &&& ds > 0 ==> r.children.len() >= 1 && r.children.last() == other_node(
                other_title(n.title),
                ds as u64,
            )
            &&& ds == 0 ==> r.children.len() == nkept
            &&& forall|j: int|
                0 <= j < n.children.len() && !below_threshold(#[trigger] n.children[j], total, fnum, fden)
                    ==> exists|i: int|
                    0 <= i < nkept && r.children[i].value == n.children[j].value
                        && r.children[i].title == n.children[j].title
        }),
{
    let fnum2 = sat_mul(fnum, dnum);
    let fden2 = sat_mul(fden, dden);
    let kids = cp_seq(n.children, total, fnum2, fden2, dnum, dden);
    let kept = cp_kept(kids, total, fnum, fden);
    let ds = cp_dropped_sum(kids, total, fnum, fden);
    let r = cp(n, total, fnum, fden, dnum, dden);
    lemma_cp_seq_len(n.children, total, fnum2, fden2, dnum, dden);
    assert forall|i: int| 0 <= i < kids.len() implies (#[trigger] kids[i].value)
        == n.children[i].value && kids[i].title == n.children[i].title by {
        lemma_cp_seq_index(n.children, total, fnum2, fden2, dnum, dden, i);
        lemma_cp_same_node(n.children[i], total, fnum2, fden2, dnum, dden);
    }
    lemma_cp_sums_congruent(kids, n.children, total, fnum, fden);
    assert(ds == cp_dropped_sum(n.children, total, fnum, fden));
    let nkept = if ds > 0 {
        r.children.len() - 1
    } else {
        r.children.len() as int
    };
    assert(nkept == kept.len());
    assert forall|i: int| 0 <= i < nkept implies (#[trigger] r.children[i].value as int) * (
    fden as int) >= (total as int) * (fnum as int) by {
        assert(r.children[i] == kept[i]);
        lemma_cp_kept_props(kids, total, fnum, fden, i);
    }
    assert forall|j: int|
        0 <= j < n.children.len() && !below_threshold(
            #[trigger] n.children[j],
            total,
            fnum,
            fden,
        ) implies exists|i: int|
        0 <= i < nkept && r.children[i].value == n.children[j].value && r.children[i].title
            == n.children[j].title by {
        assert(!below_threshold(kids[j], total, fnum, fden));
        lemma_cp_kept_complete(kids, total, fnum, fden, j);
        let i = choose|i: int| 0 <= i < kept.len() && kept[i] == kids[j];
        assert(r.children[i] == kept[i]);
        assert(r.children[i].value == n.children[j].value && r.children[i].title
            == n.children[j].title);
    }
}

/// Percentage coalescing preserves structural well-formedness.
pub proof fn lemma_cp_wf(n: NodeV, total: u64, fnum: u64, fden: u64, dnum: u64, dden: u64)
    requires
        wf(n),
    ensures
        wf(cp(n, total, fnum, fden, dnum, dden)),
    decreases n,
{
    if !n.leaf {
        let fnum2 = sat_mul(fnum, dnum);
        let fden2 = sat_mul(fden, dden);
        let kids = cp_seq(n.children, total, fnum2, fden2, dnum, dden);
        lemma_cp_seq_len(n.children, total, fnum2, fden2, dnum, dden);
        assert forall|i: int| 0 <= i < kids.len() implies wf(#[trigger] kids[i]) by {
            lemma_cp_seq_index(n.children, total, fnum2, fden2, dnum, dden, i);
            lemma_cp_wf(n.children[i], total, fnum2, fden2, dnum, dden);
        }
        let kept = cp_kept(kids, total, fnum, fden);
        let r = cp(n, total, fnum, fden, dnum, dden);
        assert forall|i: int| 0 <= i < r.children.len() implies wf(#[trigger] r.children[i]) by {
            if i < kept.len() {
                assert(r.children[i] == kept[i]);
                lemma_cp_kept_props(kids, total, fnum, fden, i);
                let j = choose|j: int| 0 <= j < kids.len() && kept[i] == kids[j];
            } else {
                assert(r.children[i] == other_node(
                    other_title(n.title),
                    cp_dropped_sum(kids, total, fnum, fden) as u64,
                ));
            }
        }
    }
}

pub proof fn lemma_mul_le(a: int, b: int, ca: int, cb: int)
    requires
        0 <= a <= ca,
        0 <= b <= cb,
    ensures
        a * b <= ca * cb,
{
    assert(a * b <= ca * cb) by (nonlinear_arith)
        requires
            0 <= a <= ca,
            0 <= b <= cb,
    ;
}

pub proof fn lemma_sum_values_push(cs: Seq<NodeV>, n: NodeV)
    ensures
        sum_values(cs.push(n)) == sum_values(cs) + n.value,
    decreases cs,
{
    if cs.len() == 0 {
        reveal_with_fuel(sum_values, 2);
        assert(cs.push(n)[0] == n);
        assert(cs.push(n).drop_first() =~= Seq::<NodeV>::empty());
    } else {
        assert(cs.push(n)[0] == cs[0]);
        assert(cs.push(n).drop_first() =~= cs.drop_first().push(n));
        lemma_sum_values_push(cs.drop_first(), n);
    }
}

fn sat_mul_exec(a: u64, b: u64) -> (r: u64)
    ensures
        r == sat_mul(a, b),
{
    proof {
        lemma_mul_le(a as int, b as int, u64::MAX as int, u64::MAX as int);
    }
    let p = (a as u128) * (b as u128);
    if p > u64::MAX as u128 {
        u64::MAX
    } else {
        p as u64
    }
}

fn below_exec(value: u64, total: u64, fnum: u64, fden: u64) -> (r: bool)
    ensures
        r == ((value as int) * (fden as int) < (total as int) * (fnum as int)),
{
    proof {
        lemma_mul_le(value as int, fden as int, u64::MAX as int, u64::MAX as int);
        lemma_mul_le(total as int, fnum as int, u64::MAX as int, u64::MAX as int);
    }
    (value as u128) * (fden as u128) < (total as u128) * (fnum as u128)
}

/// The title of the synthetic node absorbing a node's pruned children.
pub fn make_other_title(t: &String) -> (r: String)
    ensures
        r@ == other_title(t@),
{
    let mut s = String::from_str("Other ");
    s.append(t.as_str());
    s
}

/// Count-capped coalesce: returns the tree with at most `k` children per
/// node, the smallest excess children of each node merged into a synthetic
/// "Other" child. The tree must be rolled up so that the values compared and
/// summed are valid.
pub fn coalesce_count(t: &TreeNode, k: u64) -> (r: TreeNode)
    requires
        k >= 1,
        is_rolled(t@),
    ensures
        r@ == cc(t@, k),
    decreases *t,
{
    let is_leaf = match t.kind {
        NodeKind::Leaf => true,
        NodeKind::Aggregate { .. } => false,
    };
    if is_leaf {
        return t.clone();
    }
    let ghost cvs = nodes_view(t.children@);
    let ghost kvs = cc_seq(cvs, k);
    proof {
        lemma_nodes_view_len(t.children@);
        lemma_cc_seq_len(cvs, k);
        assert(t@.children == cvs);
    }
    let mut kids: Vec<TreeNode> = Vec::new();
    let mut i: usize = 0;
    while i < t.children.len()
        invariant
            i <= t.children.len(),
            cvs == nodes_view(t.children@),
            kvs == cc_seq(cvs, k),
            cvs.len() == t.children@.len(),
            kvs.len() == cvs.len(),
            is_rolled(t@),
            !t@.leaf,
            k >= 1,
            nodes_view(kids@) =~= kvs.take(i as int),
        decreases t.children.len() - i,
    {
        proof {
            lemma_nodes_view_index(t.children@, i as int);
            assert(is_rolled(t@.children[i as int]));
        }
        let c = coalesce_count(&t.children[i], k);
        let ghost prev = kids@;
        kids.push(c);
        proof {
            lemma_nodes_view_push(prev, c);
            lemma_cc_seq_index(cvs, k, i as int);
            assert(kvs.take(i + 1) =~= kvs.take(i as int).push(kvs[i as int]));
        }
        i = i + 1;
    }
    proof {
        assert(kvs.take(kvs.len() as int) =~= kvs);
    }
    if (kids.len() as u64) > k {
        let ghost svs = sort_desc(kvs);
        let mut sorted = sort_by_value_desc(&kids);
        proof {
            lemma_sort_desc_len(kvs);
            lemma_nodes_view_len(sorted@);
            lemma_nodes_view_len(kids@);
            assert(nodes_view(sorted@) =~= svs);
            assert(kids@.len() == kvs.len());
            assert(sorted@.len() == kvs.len());
            assert(k < kids@.len());
        }
        let keep_n: usize = (k - 1) as usize;
        // sum the excess children's values; the bound comes from the tree
        // being rolled up, so the whole sibling sum is the node's own value
        proof {
            assert(forall|i: int| 0 <= i < cvs.len() ==> is_rolled(#[trigger] cvs[i]));
            lemma_cc_seq_preserves(cvs, k);
            assert forall|i: int| 0 <= i < svs.len() implies (#[trigger] svs[i].value) as int
                >= 0 by {}
            lemma_values_mass_seq(kvs);
            lemma_sort_desc_sums(kvs);
            assert(sum_values(svs) == mass_seq(cvs));
            assert(mass(t@) == mass_seq(t@.children));
            assert(sum_values(svs) <= u64::MAX);
        }
        let mut esum: u64 = 0;
        let mut j: usize = keep_n;
        while j < sorted.len()
            invariant
                keep_n <= j <= sorted.len(),
                nodes_view(sorted@) =~= svs,
                svs.len() == sorted@.len(),
                keep_n < svs.len(),
                sum_values(svs) <= u64::MAX,
                esum as int == sum_values(svs.skip(keep_n as int).take(j - keep_n)),
            decreases sorted.len() - j,
        {
            proof {
                lemma_nodes_view_index(sorted@, j as int);
                let ex = svs.skip(keep_n as int);
                assert(ex.take(j - keep_n + 1) =~= ex.take(j - keep_n).push(svs[j as int]));
                lemma_sum_values_push(ex.take(j - keep_n), svs[j as int]);
                lemma_sum_values_take_skip(ex, j - keep_n + 1);
                lemma_sum_values_nonneg(ex.skip(j - keep_n + 1));
                lemma_sum_values_take_skip(svs, keep_n as int);
                lemma_sum_values_nonneg(svs.take(keep_n as int));
                assert(sum_values(ex.take(j - keep_n + 1)) <= u64::MAX);
            }
            esum = esum + sorted[j].value;
            j = j + 1;
        }
        proof {
            let ex = svs.skip(keep_n as int);
            assert(ex.take(sorted@.len() - keep_n) =~= ex);
        }
        let ghost full = sorted@;
        sorted.truncate(keep_n);
        let ov = TreeNode::other(make_other_title(&t.title), esum);
        let ghost prev = sorted@;
        sorted.push(ov);
        let r = TreeNode { title: t.title.clone(), value: t.value, kind: t.kind, children: sorted };
        proof {
            lemma_nodes_view_len(prev);
            assert forall|x: int| 0 <= x < prev.len() implies nodes_view(prev)[x] == svs.take(
                keep_n as int,
            )[x] by {
                lemma_nodes_view_index(prev, x);
                lemma_nodes_view_index(full, x);
                assert(prev[x] == full[x]);
            }
            assert(nodes_view(prev) =~= svs.take(keep_n as int));
            lemma_nodes_view_push(prev, ov);
            assert(ov@ == other_node(
                other_title(t@.title),
                sum_values(svs.skip(k as int - 1)) as u64,
            ));
            assert(r@.children =~= svs.take(k as int - 1).push(
                other_node(other_title(t@.title), sum_values(svs.skip(k as int - 1)) as u64),
            ));
            assert(1 <= k && k < cc_seq(t@.children, k).len());
            assert(r@.children == cc(t@, k).children);
            assert(r@ =~= cc(t@, k));
        }
        r
    } else {
        let r = TreeNode { title: t.title.clone(), value: t.value, kind: t.kind, children: kids };
        proof {
            lemma_nodes_view_len(kids@);
            assert(r@.children =~= kvs);
            assert(r@ =~= cc(t@, k));
        }
        r
    }
}

/// One level of the percentage-threshold walk, with the current (already
/// decayed) fraction `fnum / fden`.
fn coalesce_pct_at(
    t: &TreeNode,
    total: u64,
    fnum: u64,
    fden: u64,
    dnum: u64,
    dden: u64,
) -> (r: TreeNode)
    requires
        is_rolled(t@),
    ensures
        r@ == cp(t@, total, fnum, fden, dnum, dden),
    decreases *t,
{
    let is_leaf = match t.kind {
        NodeKind::Leaf => true,
        NodeKind::Aggregate { .. } => false,
    };
    if is_leaf {
        return t.clone();
    }
    let fnum2 = sat_mul_exec(fnum, dnum);
    let fden2 = sat_mul_exec(fden, dden);
    let ghost cvs = nodes_view(t.children@);
    let ghost kvs = cp_seq(cvs, total, fnum2, fden2, dnum, dden);
    proof {
        lemma_nodes_view_len(t.children@);
        lemma_cp_seq_len(cvs, total, fnum2, fden2, dnum, dden);
        assert(t@.children == cvs);
        assert(forall|i: int| 0 <= i < cvs.len() ==> is_rolled(#[trigger] cvs[i]));
        lemma_cp_seq_preserves(cvs, total, fnum2, fden2, dnum, dden);
        lemma_values_mass_seq(kvs);
        assert(mass(t@) == t@.value || (t@.precomputed && t@.children.len() == 0));
        if !(t@.precomputed && t@.children.len() == 0) {
            assert(mass(t@) == mass_seq(t@.children));
            assert(sum_values(kvs) <= u64::MAX);
        } else {
            assert(cvs =~= Seq::<NodeV>::empty());
            assert(kvs =~= Seq::<NodeV>::empty());
        }
        lemma_sum_values_nonneg(kvs);
    }
    let mut kept: Vec<TreeNode> = Vec::new();
    let mut dsum: u64 = 0;
    let mut i: usize = 0;
    while i < t.children.len()
        invariant
            i <= t.children.len(),
            cvs == nodes_view(t.children@),
            kvs == cp_seq(cvs, total, fnum2, fden2, dnum, dden),
            cvs.len() == t.children@.len(),
            kvs.len() == cvs.len(),
            is_rolled(t@),
            !t@.leaf,
            fnum2 == sat_mul(fnum, dnum),
            fden2 == sat_mul(fden, dden),
            sum_values(kvs) <= u64::MAX,
            nodes_view(kept@) =~= cp_kept(kvs.take(i as int), total, fnum, fden),
            dsum as int == cp_dropped_sum(kvs.take(i as int), total, fnum, fden),
        decreases t.children.len() - i,
    {
        proof {
            lemma_nodes_view_index(t.children@, i as int);
            assert(is_rolled(t@.children[i as int]));
        }
        let c = coalesce_pct_at(&t.children[i], total, fnum2, fden2, dnum, dden);
        proof {
            lemma_cp_seq_index(cvs, total, fnum2, fden2, dnum, dden, i as int);
            assert(c@ == kvs[i as int]);
            assert(kvs.take(i + 1) =~= kvs.take(i as int).push(kvs[i as int]));
            lemma_cp_take_push(kvs.take(i as int), kvs[i as int], total, fnum, fden);
            lemma_cp_partition_sum(kvs.take(i + 1), total, fnum, fden);
            lemma_sum_values_nonneg(cp_kept(kvs.take(i + 1), total, fnum, fden));
            lemma_sum_values_take_skip(kvs, i + 1);
            lemma_sum_values_nonneg(kvs.skip(i + 1));
        }
        if below_exec(c.value, total, fnum, fden) {
            dsum = dsum + c.value;
        } else {
            let ghost prev = kept@;
            kept.push(c);
            proof {
                lemma_nodes_view_push(prev, c);
            }
        }
        i = i + 1;
    }
    proof {
        assert(kvs.take(kvs.len() as int) =~= kvs);
    }
    let mut children = kept;
    if dsum > 0 {
        let ov = TreeNode::other(make_other_title(&t.title), dsum);
        let ghost prev = children@;
        children.push(ov);
        proof {
            lemma_nodes_view_push(prev, ov);
        }
    }
    let r = TreeNode { title: t.title.clone(), value: t.value, kind: t.kind, children };
    proof {
        assert(r@ =~= cp(t@, total, fnum, fden, dnum, dden));
    }
    r
}

/// How extending the pruned sibling list by one child extends the kept list
/// and the dropped sum.
pub proof fn lemma_cp_take_push(cs: Seq<NodeV>, x: NodeV, total: u64, fnum: u64, fden: u64)
    ensures
        cp_kept(cs.push(x), total, fnum, fden) =~= if below_threshold(x, total, fnum, fden) {
            cp_kept(cs, total, fnum, fden)
        } else {
            cp_kept(cs, total, fnum, fden).push(x)
        },
        cp_dropped_sum(cs.push(x), total, fnum, fden) == cp_dropped_sum(cs, total, fnum, fden) + (
        if below_threshold(x, total, fnum, fden) {
            x.value as int
        } else {
            0
        }),
    decreases cs,
{
    if cs.len() == 0 {
        reveal_with_fuel(cp_kept, 2);
        reveal_with_fuel(cp_dropped_sum, 2);
        assert(cs.push(x)[0] == x);
        assert(cs.push(x).drop_first() =~= Seq::<NodeV>::empty());
    } else {
        assert(cs.push(x)[0] == cs[0]);
        assert(cs.push(x).drop_first() =~= cs.drop_first().push(x));
        lemma_cp_take_push(cs.drop_first(), x, total, fnum, fden);
    }
}

/// Percentage-threshold coalesce at the root, with `total` fixed to the
/// root's rolled-up value. Children of the root whose value is strictly below
/// `total * fnum / fden` are merged into a synthetic "Other" child; the
/// fraction decays by `dnum / dden` per level below. A zero total prunes
/// nothing, since no value can be strictly below zero.
pub fn coalesce_pct(t: &TreeNode, fnum: u64, fden: u64, dnum: u64, dden: u64) -> (r: TreeNode)
    requires
        fden >= 1,
        dden >= 1,
        is_rolled(t@),
    ensures
        r@ == cp(t@, t@.value, fnum, fden, dnum, dden),
{
    let total = t.value;
    coalesce_pct_at(t, total, fnum, fden, dnum, dden)
}

} // verus!
