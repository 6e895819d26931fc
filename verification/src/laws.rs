//! The conservation law across the whole pipeline: the sum of all leaf values
//! of the freshly built, never-coalesced tree is the root's value after
//! rollup, and stays the root's value across coalescing (of either kind)
//! followed by the rollup re-check.
//!
//! Arbitrary interleavings follow from the step lemmas these proofs compose:
//! rollup conserves the mass and yields a rolled-up tree
//! (`rollup::lemma_ru_mass`, `rollup::lemma_ru_rolled`), both coalescing
//! transforms conserve the mass of a rolled-up tree and keep it rolled up
//! (`coalesce::lemma_cc_preserves`, `coalesce::lemma_cp_preserves`), and
//! rollup leaves a rolled-up tree unchanged (`rollup::lemma_rolled_fixed`).

use vstd::prelude::*;

use crate::coalesce::{cc, cp, lemma_cc_preserves, lemma_cc_same_node, lemma_cp_preserves, lemma_cp_same_node};
use crate::builder::{build, lemma_build_leaf_sum, lemma_build_wf, records_sum};
use crate::rollup::{lemma_rolled_fixed, lemma_ru_rolled, lemma_uncoalesced_mass, ru};
use crate::tree::{is_rolled, leaf_sum, mass, no_precomputed, NodeV, RecordV};

verus! {

/// Conservation under count-capped coalescing: for a tree with no precomputed
/// nodes whose leaf total fits the value type, the root's value after rollup
/// is the sum of all leaf values, and coalescing with any cap followed by the
/// second rollup pass leaves that value — and the conserved mass — unchanged.
pub proof fn lemma_conservation_count(n: NodeV, k: u64)
    requires
        no_precomputed(n),
        mass(n) <= u64::MAX,
    ensures
        ru(n).value as int == leaf_sum(n),
        cc(ru(n), k).value as int == leaf_sum(n),
        mass(cc(ru(n), k)) == leaf_sum(n),
        ru(cc(ru(n), k)) == cc(ru(n), k),
        ru(cc(ru(n), k)).value as int == leaf_sum(n),
{
    lemma_uncoalesced_mass(n);
    lemma_ru_rolled(n);
    lemma_cc_preserves(ru(n), k);
    lemma_cc_same_node(ru(n), k);
    lemma_rolled_fixed(cc(ru(n), k));
}

/// Conservation under percentage coalescing, with the total fixed at the
/// rolled-up root's value, for any fraction and decay.
pub proof fn lemma_conservation_pct(n: NodeV, fnum: u64, fden: u64, dnum: u64, dden: u64)
    requires
        no_precomputed(n),
        mass(n) <= u64::MAX,
    ensures
        ru(n).value as int == leaf_sum(n),
        cp(ru(n), ru(n).value, fnum, fden, dnum, dden).value as int == leaf_sum(n),
        mass(cp(ru(n), ru(n).value, fnum, fden, dnum, dden)) == leaf_sum(n),
        ru(cp(ru(n), ru(n).value, fnum, fden, dnum, dden)) == cp(
            ru(n),
            ru(n).value,
            fnum,
            fden,
            dnum,
            dden,
        ),
{
    lemma_uncoalesced_mass(n);
    lemma_ru_rolled(n);
    lemma_cp_preserves(ru(n), ru(n).value, fnum, fden, dnum, dden);
    lemma_cp_same_node(ru(n), ru(n).value, fnum, fden, dnum, dden);
    lemma_rolled_fixed(cp(ru(n), ru(n).value, fnum, fden, dnum, dden));
}

/// The conservation law from the input records: building, rolling up, then
/// count-capped coalescing and the rollup re-check all leave the records'
/// value sum at the root.
pub proof fn lemma_pipeline_conservation(rs: Seq<RecordV>, title: Seq<char>, k: u64)
    requires
        records_sum(rs) <= u64::MAX,
    ensures
        ru(build(rs, title)).value as int == records_sum(rs),
        ru(cc(ru(build(rs, title)), k)).value as int == records_sum(rs),
{
    lemma_build_wf(rs, title);
    lemma_build_leaf_sum(rs, title);
    lemma_conservation_count(build(rs, title), k);
}

} // verus!
