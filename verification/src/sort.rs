//! Stable descending sort of sibling nodes by value. Both coalescing and
//! serialization order children this way; ties keep their original relative
//! order (the documented tie-break rule).

use vstd::prelude::*;

use crate::tree::{lemma_nodes_view_index, lemma_nodes_view_len, mass, mass_seq, nodes_view, sum_values, NodeV, TreeNode};

verus! {

/// Insert `x` into the descending-sorted `s`, after every element whose value
/// is greater than or equal to `x`'s (stability for equal values).
pub open spec fn insert_desc(s: Seq<NodeV>, x: NodeV) -> Seq<NodeV>
    decreases s,
{
    if s.len() == 0 {
        seq![x]
    } else if s[0].value >= x.value {
        seq![s[0]] + insert_desc(s.drop_first(), x)
    } else {
        seq![x] + s
    }
}

/// Stable insertion sort, descending by value.
pub open spec fn sort_desc(s: Seq<NodeV>) -> Seq<NodeV>
    decreases s,
{
    if s.len() == 0 {
        Seq::empty()
    } else {
        insert_desc(sort_desc(s.drop_last()), s.last())
    }
}

/// Non-increasing by value.
pub open spec fn sorted_desc(s: Seq<NodeV>) -> bool {
    forall|i: int, j: int| 0 <= i < j < s.len() ==> s[i].value >= s[j].value
}

pub broadcast proof fn lemma_insert_desc_len(s: Seq<NodeV>, x: NodeV)
    ensures
        (#[trigger] insert_desc(s, x)).len() == s.len() + 1,
    decreases s,
{
    if s.len() > 0 && s[0].value >= x.value {
        lemma_insert_desc_len(s.drop_first(), x);
    }
}

pub broadcast proof fn lemma_sort_desc_len(s: Seq<NodeV>)
    ensures
        (#[trigger] sort_desc(s)).len() == s.len(),
    decreases s,
{
    if s.len() > 0 {
        lemma_sort_desc_len(s.drop_last());
        lemma_insert_desc_len(sort_desc(s.drop_last()), s.last());
    }
}

/// Every element of the insertion result is `x` or an element of `s`.
pub proof fn lemma_insert_desc_membership(s: Seq<NodeV>, x: NodeV, i: int)
    requires
        0 <= i < s.len() + 1,
    ensures
        insert_desc(s, x)[i] == x || exists|j: int| 0 <= j < s.len() && insert_desc(s, x)[i] == s[j],
    decreases s,
{
    lemma_insert_desc_len(s, x);
    if s.len() == 0 {
    } else if s[0].value >= x.value {
        if i == 0 {
            assert(insert_desc(s, x)[0] == s[0]);
        } else {
            lemma_insert_desc_membership(s.drop_first(), x, i - 1);
            assert(insert_desc(s, x)[i] == insert_desc(s.drop_first(), x)[i - 1]);
            if insert_desc(s.drop_first(), x)[i - 1] != x {
                let j = choose|j: int|
                    0 <= j < s.drop_first().len() && insert_desc(s.drop_first(), x)[i - 1]
                        == s.drop_first()[j];
                assert(s.drop_first()[j] == s[j + 1]);
            }
        }
    } else {
        if i > 0 {
            assert(insert_desc(s, x)[i] == s[i - 1]);
        }
    }
}

/// Every element of the sorted sequence is an element of the original.
pub proof fn lemma_sort_desc_membership(s: Seq<NodeV>, i: int)
    requires
        0 <= i < s.len(),
    ensures
        exists|j: int| 0 <= j < s.len() && sort_desc(s)[i] == s[j],
    decreases s,
{
    lemma_sort_desc_len(s);
    lemma_sort_desc_len(s.drop_last());
    let rest = sort_desc(s.drop_last());
    lemma_insert_desc_membership(rest, s.last(), i);
    if sort_desc(s)[i] == s.last() {
        assert(sort_desc(s)[i] == s[s.len() - 1]);
    } else {
        let j = choose|j: int| 0 <= j < rest.len() && sort_desc(s)[i] == rest[j];
        lemma_sort_desc_membership(s.drop_last(), j);
        let k = choose|k: int| 0 <= k < s.drop_last().len() && rest[j] == s.drop_last()[k];
        assert(s.drop_last()[k] == s[k]);
    }
}

pub proof fn lemma_insert_desc_sorted(s: Seq<NodeV>, x: NodeV)
    requires
        sorted_desc(s),
    ensures
        sorted_desc(insert_desc(s, x)),
    decreases s,
{
    lemma_insert_desc_len(s, x);
    if s.len() == 0 {
    } else if s[0].value >= x.value {
        assert(sorted_desc(s.drop_first())) by {
            assert forall|i: int, j: int|
                0 <= i < j < s.drop_first().len() implies s.drop_first()[i].value
                >= s.drop_first()[j].value by {
                assert(s.drop_first()[i] == s[i + 1]);
                assert(s.drop_first()[j] == s[j + 1]);
            }
        }
        lemma_insert_desc_sorted(s.drop_first(), x);
        let r = insert_desc(s, x);
        let r1 = insert_desc(s.drop_first(), x);
        assert forall|i: int, j: int| 0 <= i < j < r.len() implies r[i].value >= r[j].value by {
            if i == 0 {
                assert(r[0] == s[0]);
                assert(r[j] == r1[j - 1]);
                lemma_insert_desc_membership(s.drop_first(), x, j - 1);
                if r1[j - 1] != x {
                    let k = choose|k: int|
                        0 <= k < s.drop_first().len() && r1[j - 1] == s.drop_first()[k];
                    assert(s.drop_first()[k] == s[k + 1]);
                    assert(s[0].value >= s[k + 1].value);
                }
            } else {
                assert(r[i] == r1[i - 1]);
                assert(r[j] == r1[j - 1]);
            }
        }
    } else {
        let r = insert_desc(s, x);
        assert forall|i: int, j: int| 0 <= i < j < r.len() implies r[i].value >= r[j].value by {
            if i == 0 {
                assert(r[0] == x);
                assert(r[j] == s[j - 1]);
                if j - 1 > 0 {
                    assert(s[0].value >= s[j - 1].value);
                }
            } else {
                assert(r[i] == s[i - 1]);
                assert(r[j] == s[j - 1]);
            }
        }
    }
}

/// The emitted order is non-increasing by value.
pub proof fn lemma_sort_desc_sorted(s: Seq<NodeV>)
    ensures
        sorted_desc(sort_desc(s)),
    decreases s,
{
    if s.len() > 0 {
        lemma_sort_desc_sorted(s.drop_last());
        lemma_insert_desc_sorted(sort_desc(s.drop_last()), s.last());
    }
}

pub proof fn lemma_insert_desc_sum_values(s: Seq<NodeV>, x: NodeV)
    ensures
        sum_values(insert_desc(s, x)) == sum_values(s) + x.value,
    decreases s,
{
    if s.len() == 0 {
        assert(insert_desc(s, x).drop_first() =~= Seq::<NodeV>::empty());
        reveal_with_fuel(sum_values, 2);
    } else if s[0].value >= x.value {
        lemma_insert_desc_sum_values(s.drop_first(), x);
        assert(insert_desc(s, x)[0] == s[0]);
        assert(insert_desc(s, x).drop_first() =~= insert_desc(s.drop_first(), x));
    } else {
        assert(insert_desc(s, x)[0] == x);
        assert(insert_desc(s, x).drop_first() =~= s);
    }
}

pub proof fn lemma_insert_desc_mass_seq(s: Seq<NodeV>, x: NodeV)
    ensures
        mass_seq(insert_desc(s, x)) == mass_seq(s) + mass(x),
    decreases s,
{
    if s.len() == 0 {
        assert(insert_desc(s, x).drop_first() =~= Seq::<NodeV>::empty());
        reveal_with_fuel(mass_seq, 2);
    } else if s[0].value >= x.value {
        lemma_insert_desc_mass_seq(s.drop_first(), x);
        assert(insert_desc(s, x)[0] == s[0]);
        assert(insert_desc(s, x).drop_first() =~= insert_desc(s.drop_first(), x));
    } else {
        assert(insert_desc(s, x)[0] == x);
        assert(insert_desc(s, x).drop_first() =~= s);
    }
}

pub proof fn lemma_sum_values_drop_last(s: Seq<NodeV>)
    requires
        s.len() > 0,
    ensures
        sum_values(s) == sum_values(s.drop_last()) + s.last().value,
    decreases s,
{
    if s.len() == 1 {
        reveal_with_fuel(sum_values, 2);
        assert(s.drop_last() =~= Seq::<NodeV>::empty());
        assert(s.drop_first() =~= Seq::<NodeV>::empty());
        assert(s.last() == s[0]);
    } else {
        lemma_sum_values_drop_last(s.drop_first());
        assert(s.drop_last()[0] == s[0]);
        assert(s.drop_last().drop_first() =~= s.drop_first().drop_last());
        assert(s.drop_first().last() == s.last());
    }
}

pub proof fn lemma_mass_seq_drop_last(s: Seq<NodeV>)
    requires
        s.len() > 0,
    ensures
        mass_seq(s) == mass_seq(s.drop_last()) + mass(s.last()),
    decreases s,
{
    if s.len() == 1 {
        reveal_with_fuel(mass_seq, 2);
        assert(s.drop_last() =~= Seq::<NodeV>::empty());
        assert(s.drop_first() =~= Seq::<NodeV>::empty());
        assert(s.last() == s[0]);
    } else {
        lemma_mass_seq_drop_last(s.drop_first());
        assert(s.drop_last()[0] == s[0]);
        assert(s.drop_last().drop_first() =~= s.drop_first().drop_last());
        assert(s.drop_first().last() == s.last());
    }
}

/// Sorting rearranges the children only: both the stored-value sum and the
/// mass are unchanged.
pub proof fn lemma_sort_desc_sums(s: Seq<NodeV>)
    ensures
        sum_values(sort_desc(s)) == sum_values(s),
        mass_seq(sort_desc(s)) == mass_seq(s),
    decreases s,
{
    if s.len() > 0 {
        lemma_sort_desc_sums(s.drop_last());
        lemma_insert_desc_sum_values(sort_desc(s.drop_last()), s.last());
        lemma_insert_desc_mass_seq(sort_desc(s.drop_last()), s.last());
        lemma_sum_values_drop_last(s);
        lemma_mass_seq_drop_last(s);
    }
}

/// The sum of stored values splits at any index.
pub proof fn lemma_sum_values_take_skip(s: Seq<NodeV>, i: int)
    requires
        0 <= i <= s.len(),
    ensures
        sum_values(s) == sum_values(s.take(i)) + sum_values(s.skip(i)),
    decreases i,
{
    if i == 0 {
        assert(s.take(0) =~= Seq::<NodeV>::empty());
        assert(s.skip(0) =~= s);
    } else {
        lemma_sum_values_take_skip(s.drop_first(), i - 1);
        assert(s.take(i)[0] == s[0]);
        assert(s.take(i).drop_first() =~= s.drop_first().take(i - 1));
        assert(s.skip(i) =~= s.drop_first().skip(i - 1));
    }
}

/// Characterizes where `insert_desc` places its element: at the first index
/// whose value is strictly below the inserted one.
pub proof fn lemma_insert_desc_at(s: Seq<NodeV>, x: NodeV, p: int)
    requires
        0 <= p <= s.len(),
        forall|k: int| 0 <= k < p ==> s[k].value >= x.value,
        p < s.len() ==> s[p].value < x.value,
    ensures
        insert_desc(s, x) =~= s.take(p) + seq![x] + s.skip(p),
    decreases s,
{
    if s.len() == 0 {
        assert(s.take(0) =~= Seq::<NodeV>::empty());
        assert(s.skip(0) =~= Seq::<NodeV>::empty());
    } else if s[0].value >= x.value {
        assert(p > 0);
        lemma_insert_desc_at(s.drop_first(), x, p - 1);
        assert(s.drop_first().take(p - 1) =~= s.take(p).drop_first());
        assert(s.drop_first().skip(p - 1) =~= s.skip(p));
        lemma_insert_desc_len(s.drop_first(), x);
    } else {
        assert(p == 0);
        assert(s.take(0) =~= Seq::<NodeV>::empty());
        assert(s.skip(0) =~= s);
    }
}

/// Insert a cloned node into a vector kept sorted descending by value,
/// after all nodes of greater or equal value.
fn insert_by_value_desc(r: &mut Vec<TreeNode>, x: TreeNode)
    ensures
        nodes_view(final(r)@) =~= insert_desc(nodes_view(old(r)@), x@),
{
    let ghost s = nodes_view(old(r)@);
    proof {
        lemma_nodes_view_len(old(r)@);
    }
    let mut p: usize = 0;
    while p < r.len() && r[p].value >= x.value
        invariant
            p <= r.len(),
            r == old(r),
            s == nodes_view(r@),
            s.len() == r@.len(),
            forall|k: int| 0 <= k < p ==> s[k].value >= x@.value,
        decreases r.len() - p,
    {
        proof {
            lemma_nodes_view_index(r@, p as int);
        }
        p = p + 1;
    }
    proof {
        if p < r@.len() {
            lemma_nodes_view_index(r@, p as int);
        }
    }
    r.insert(p, x);
    proof {
        lemma_insert_desc_at(s, x@, p as int);
        lemma_nodes_view_len(r@);
        lemma_insert_desc_len(s, x@);
        assert forall|i: int| 0 <= i < r@.len() implies nodes_view(r@)[i] == (s.take(p as int)
            + seq![x@] + s.skip(p as int))[i] by {
            lemma_nodes_view_index(r@, i);
            if i < p {
                lemma_nodes_view_index(old(r)@, i);
            } else if i > p {
                lemma_nodes_view_index(old(r)@, i - 1);
            }
        }
    }
}

/// A copy of the given nodes, sorted descending by value; ties keep their
/// original relative order.
pub fn sort_by_value_desc(v: &Vec<TreeNode>) -> (r: Vec<TreeNode>)
    ensures
        nodes_view(r@) =~= sort_desc(nodes_view(v@)),
{
    proof {
        lemma_nodes_view_len(v@);
    }
    let mut r: Vec<TreeNode> = Vec::new();
    let mut i: usize = 0;
    while i < v.len()
        invariant
            i <= v.len(),
            nodes_view(v@).len() == v@.len(),
            nodes_view(r@) =~= sort_desc(nodes_view(v@).take(i as int)),
        decreases v.len() - i,
    {
        let x = v[i].clone();
        insert_by_value_desc(&mut r, x);
        proof {
            lemma_nodes_view_index(v@, i as int);
            let t = nodes_view(v@).take(i + 1);
            assert(t.drop_last() =~= nodes_view(v@).take(i as int));
            assert(t.last() == nodes_view(v@)[i as int]);
            assert(sort_desc(t) == insert_desc(sort_desc(t.drop_last()), t.last()));
        }
        i = i + 1;
    }
    proof {
        assert(nodes_view(v@).take(v@.len() as int) =~= nodes_view(v@));
    }
    r
}

} // verus!
