use sankeygen::builder::build_tree;
use sankeygen::coalesce::{coalesce_count, coalesce_pct, make_other_title};
use sankeygen::rollup::rollup;
use sankeygen::serialize::{sankeymatic, sorted_tree, u64_to_string};
use sankeygen::tree::{ClassifiedRecord, NodeKind, TreeNode};
use sankeygen::unique::validate_unique;

fn rec(chapter: &str, subchapter: &str, title: &str, value: u64) -> ClassifiedRecord {
    ClassifiedRecord {
        chapter: chapter.to_string(),
        subchapter: subchapter.to_string(),
        title: title.to_string(),
        value,
    }
}

fn is_precomputed(n: &TreeNode) -> bool {
    match n.kind {
        NodeKind::Leaf => false,
        NodeKind::Aggregate { precomputed } => precomputed,
    }
}

fn is_leaf(n: &TreeNode) -> bool {
    matches!(n.kind, NodeKind::Leaf)
}

/// The tree of the worked scenario: chapter "A" with sub-chapters "A1" (10)
/// and "A2" (5), chapter "B" with sub-chapter "B1" (3); root titled "All".
fn scenario_records() -> Vec<ClassifiedRecord> {
    vec![
        rec("A", "A1", "a1 cause", 10),
        rec("A", "A2", "a2 cause", 5),
        rec("B", "B1", "b1 cause", 3),
    ]
}

fn scenario_tree() -> TreeNode {
    let records = scenario_records();
    let t = build_tree(&records, "All".to_string());
    rollup(&t)
}

#[test]
fn build_groups_by_adjacent_labels() {
    let records = scenario_records();
    let t = build_tree(&records, "All".to_string());
    assert_eq!(t.title, "All");
    assert_eq!(t.children.len(), 2);
    assert_eq!(t.children[0].title, "A");
    assert_eq!(t.children[1].title, "B");
    assert_eq!(t.children[0].children.len(), 2);
    assert_eq!(t.children[0].children[0].title, "A1");
    assert_eq!(t.children[0].children[1].title, "A2");
    assert_eq!(t.children[1].children.len(), 1);
    assert_eq!(t.children[1].children[0].title, "B1");
    let leaf = &t.children[0].children[0].children[0];
    assert!(is_leaf(leaf));
    assert_eq!(leaf.title, "a1 cause");
    assert_eq!(leaf.value, 10);
}

#[test]
fn build_does_not_merge_non_adjacent_groups() {
    // unsorted input: the second "A" run does not reuse the first chapter
    let records = vec![
        rec("A", "A1", "one", 1),
        rec("B", "B1", "two", 2),
        rec("A", "A1", "three", 3),
    ];
    let t = build_tree(&records, "All".to_string());
    assert_eq!(t.children.len(), 3);
    assert_eq!(t.children[0].title, "A");
    assert_eq!(t.children[1].title, "B");
    assert_eq!(t.children[2].title, "A");
}

#[test]
fn rollup_sums_bottom_up() {
    let t = scenario_tree();
    assert_eq!(t.value, 18);
    assert_eq!(t.children[0].value, 15);
    assert_eq!(t.children[1].value, 3);
    assert_eq!(t.children[0].children[0].value, 10);
    assert_eq!(t.children[0].children[1].value, 5);
}

#[test]
fn rollup_twice_changes_nothing() {
    let t = scenario_tree();
    let t2 = rollup(&t);
    assert_eq!(sankeymatic(&t), sankeymatic(&t2));
    assert_eq!(t.value, t2.value);
}

#[test]
fn rollup_empty_tree() {
    let records: Vec<ClassifiedRecord> = vec![];
    let t = rollup(&build_tree(&records, "All".to_string()));
    assert_eq!(t.value, 0);
    assert_eq!(t.children.len(), 0);
}

#[test]
fn rollup_keeps_precomputed_value() {
    let t = scenario_tree();
    let c = coalesce_count(&t, 1);
    // the synthetic node is precomputed; a rollup pass must not overwrite it
    let again = rollup(&c);
    assert_eq!(again.children.len(), 1);
    assert_eq!(again.children[0].value, 18);
    assert!(is_precomputed(&again.children[0]));
}

#[test]
fn coalesce_count_cap_one_merges_everything() {
    // with a cap of one, zero children are retained and one synthetic child
    // carries the whole total
    let t = scenario_tree();
    let c = coalesce_count(&t, 1);
    assert_eq!(c.value, 18);
    assert_eq!(c.children.len(), 1);
    let other = &c.children[0];
    assert_eq!(other.title, "Other All");
    assert_eq!(other.value, 18);
    assert!(is_precomputed(other));
    assert_eq!(other.children.len(), 0);
    let again = rollup(&c);
    assert_eq!(again.value, 18);
}

#[test]
fn coalesce_count_cap_at_child_count_is_a_no_op() {
    // two children do not exceed a cap of two: nothing is merged
    let t = scenario_tree();
    let c = coalesce_count(&t, 2);
    assert_eq!(c.children.len(), 2);
    assert_eq!(c.children[0].title, "A");
    assert_eq!(c.children[1].title, "B");
    assert_eq!(rollup(&c).value, 18);
}

#[test]
fn coalesce_count_cap_two_keeps_largest() {
    // three children exceed a cap of two: "A" (15) is retained, "B" (3) and
    // "C" (2) collapse into "Other All"
    let mut records = scenario_records();
    records.push(rec("C", "C1", "c1 cause", 2));
    let t = rollup(&build_tree(&records, "All".to_string()));
    let c = coalesce_count(&t, 2);
    assert_eq!(c.children.len(), 2);
    assert_eq!(c.children[0].title, "A");
    assert_eq!(c.children[0].value, 15);
    assert_eq!(c.children[1].title, "Other All");
    assert_eq!(c.children[1].value, 5);
    assert!(is_precomputed(&c.children[1]));
    assert_eq!(rollup(&c).value, 20);
}

#[test]
fn coalesce_count_bounds_every_level() {
    let records = vec![
        rec("A", "A1", "c1", 9),
        rec("A", "A2", "c2", 8),
        rec("A", "A3", "c3", 7),
        rec("A", "A4", "c4", 6),
        rec("A", "A5", "c5", 5),
        rec("B", "B1", "c6", 4),
        rec("C", "C1", "c7", 3),
        rec("D", "D1", "c8", 2),
        rec("E", "E1", "c9", 1),
    ];
    let t = rollup(&build_tree(&records, "All".to_string()));
    let c = coalesce_count(&t, 3);
    fn check(n: &TreeNode, k: usize) {
        assert!(n.children.len() <= k);
        for ch in &n.children {
            check(ch, k);
        }
    }
    check(&c, 3);
    assert_eq!(rollup(&c).value, 45);
}

#[test]
fn coalesce_count_ties_keep_first() {
    // equal values: the earliest sibling is the one retained
    let records = vec![
        rec("A", "A1", "c1", 5),
        rec("B", "B1", "c2", 5),
        rec("C", "C1", "c3", 5),
    ];
    let t = rollup(&build_tree(&records, "All".to_string()));
    let c = coalesce_count(&t, 2);
    assert_eq!(c.children.len(), 2);
    assert_eq!(c.children[0].title, "A");
    assert_eq!(c.children[1].title, "Other All");
    assert_eq!(c.children[1].value, 10);
}

#[test]
fn coalesce_pct_half_prunes_small_children() {
    // threshold 18 * 1/2 = 9: "B" (3) falls below and is merged; "A" (15) is
    // retained as-is, since the decayed threshold 4.5 spares "A1" and "A2"
    let t = scenario_tree();
    let c = coalesce_pct(&t, 1, 2, 1, 2);
    assert_eq!(c.children.len(), 2);
    assert_eq!(c.children[0].title, "A");
    assert_eq!(c.children[0].value, 15);
    assert_eq!(c.children[1].title, "Other All");
    assert_eq!(c.children[1].value, 3);
    assert!(is_precomputed(&c.children[1]));
    let a = &c.children[0];
    assert_eq!(a.children.len(), 2);
    assert_eq!(a.children[0].title, "A1");
    assert_eq!(a.children[1].title, "A2");
    assert_eq!(rollup(&c).value, 18);
}

#[test]
fn coalesce_pct_without_decay_prunes_deeper() {
    // decay 1: the threshold 9 applies inside "A" too, so "A2" (5) merges
    // into "Other A" while "A1" (10) stays
    let t = scenario_tree();
    let c = coalesce_pct(&t, 1, 2, 1, 1);
    let a = &c.children[0];
    assert_eq!(a.title, "A");
    assert_eq!(a.children.len(), 2);
    assert_eq!(a.children[0].title, "A1");
    assert_eq!(a.children[1].title, "Other A");
    assert_eq!(a.children[1].value, 5);
    assert_eq!(rollup(&c).value, 18);
}

#[test]
fn coalesce_pct_zero_total_prunes_nothing() {
    let records = vec![rec("A", "A1", "zero", 0), rec("B", "B1", "none", 0)];
    let t = rollup(&build_tree(&records, "All".to_string()));
    assert_eq!(t.value, 0);
    let c = coalesce_pct(&t, 1, 2, 1, 1);
    assert_eq!(c.children.len(), 2);
    assert_eq!(c.children[0].title, "A");
    assert_eq!(c.children[1].title, "B");
}

#[test]
fn coalesce_pct_zero_valued_drops_leave_no_other() {
    // a zero-valued child below the threshold is detached, but a zero sum
    // appends no synthetic node
    let records = vec![rec("A", "A1", "ten", 10), rec("B", "B1", "zero", 0)];
    let t = rollup(&build_tree(&records, "All".to_string()));
    let c = coalesce_pct(&t, 1, 2, 1, 2);
    assert_eq!(c.children.len(), 1);
    assert_eq!(c.children[0].title, "A");
}

#[test]
fn other_title_prefixes() {
    assert_eq!(make_other_title(&"All".to_string()), "Other All");
    assert_eq!(make_other_title(&"".to_string()), "Other ");
}

#[test]
fn serializer_emits_children_in_descending_order() {
    // children of values [5, 3, 3, 1]: edges appear in non-increasing value
    // order, and the two equal values keep their insertion order
    let records = vec![
        rec("A", "A1", "one", 1),
        rec("A", "A2", "first three", 3),
        rec("A", "A3", "five", 5),
        rec("A", "A4", "second three", 3),
    ];
    let t = rollup(&build_tree(&records, "All".to_string()));
    let a = sorted_tree(&t.children[0]);
    assert_eq!(a.children.len(), 4);
    assert_eq!(a.children[0].value, 5);
    assert_eq!(a.children[1].value, 3);
    assert_eq!(a.children[1].title, "A2");
    assert_eq!(a.children[2].value, 3);
    assert_eq!(a.children[2].title, "A4");
    assert_eq!(a.children[3].value, 1);
}

#[test]
fn serializer_output_lines() {
    let t = scenario_tree();
    let lines = sankeymatic(&t);
    let expected = vec![
        "' All All [15] A".to_string(),
        "A [10] A1".to_string(),
        "A1 [10] a1 cause".to_string(),
        "A [5] A2".to_string(),
        "A2 [5] a2 cause".to_string(),
        "' All All [3] B".to_string(),
        "B [3] B1".to_string(),
        "B1 [3] b1 cause".to_string(),
    ];
    assert_eq!(lines, expected);
}

#[test]
fn serializer_after_coalesce() {
    let mut records = scenario_records();
    records.push(rec("C", "C1", "c1 cause", 2));
    let t = rollup(&build_tree(&records, "All".to_string()));
    let c = coalesce_count(&t, 2);
    let lines = sankeymatic(&c);
    assert_eq!(lines[0], "' All All [15] A");
    assert_eq!(*lines.last().unwrap(), "' All All [5] Other All".to_string());
}

#[test]
fn serializer_empty_tree() {
    let records: Vec<ClassifiedRecord> = vec![];
    let t = rollup(&build_tree(&records, "Deaths".to_string()));
    let lines = sankeymatic(&t);
    assert!(lines.is_empty());
}

#[test]
fn decimal_rendering() {
    assert_eq!(u64_to_string(0), "0");
    assert_eq!(u64_to_string(7), "7");
    assert_eq!(u64_to_string(18), "18");
    assert_eq!(u64_to_string(1000), "1000");
    assert_eq!(u64_to_string(1234567890), "1234567890");
    assert_eq!(u64_to_string(u64::MAX), "18446744073709551615");
}

#[test]
fn unique_titles_pass() {
    let t = scenario_tree();
    assert!(validate_unique(&t));
}

#[test]
fn duplicate_titles_fail() {
    // a leaf title repeating a chapter title is a duplicate across levels
    let records = vec![rec("A", "A1", "A", 4)];
    let t = rollup(&build_tree(&records, "All".to_string()));
    assert!(!validate_unique(&t));
}

#[test]
fn duplicate_titles_after_unsorted_build() {
    let records = vec![
        rec("A", "A1", "one", 1),
        rec("B", "B1", "two", 2),
        rec("A", "A2", "three", 3),
    ];
    let t = rollup(&build_tree(&records, "All".to_string()));
    // two sibling chapters both titled "A"
    assert!(!validate_unique(&t));
}

#[test]
fn coalesce_pct_reaches_leaf_level() {
    // total 100, fraction 1/10, decay 1: threshold 10 at every depth; the
    // leaves of 4 and 6 under "A1" merge into "Other A1" (value 10)
    let records = vec![
        rec("A", "A1", "big", 70),
        rec("A", "A1", "small one", 4),
        rec("A", "A1", "small two", 6),
        rec("B", "B1", "other chapter", 20),
    ];
    let t = rollup(&build_tree(&records, "All".to_string()));
    assert_eq!(t.value, 100);
    let c = coalesce_pct(&t, 1, 10, 1, 1);
    let a1 = &c.children[0].children[0];
    assert_eq!(a1.title, "A1");
    assert_eq!(a1.children.len(), 2);
    assert_eq!(a1.children[0].title, "big");
    assert_eq!(a1.children[1].title, "Other A1");
    assert_eq!(a1.children[1].value, 10);
    assert!(is_precomputed(&a1.children[1]));
    assert_eq!(rollup(&c).value, 100);
}

#[test]
fn conservation_across_both_transforms() {
    let records = vec![
        rec("A", "A1", "c1", 40),
        rec("A", "A2", "c2", 25),
        rec("B", "B1", "c3", 20),
        rec("C", "C1", "c4", 10),
        rec("D", "D1", "c5", 5),
    ];
    let t = rollup(&build_tree(&records, "All".to_string()));
    assert_eq!(t.value, 100);
    let t = rollup(&coalesce_count(&t, 3));
    assert_eq!(t.value, 100);
    let t = rollup(&coalesce_pct(&t, 1, 4, 1, 2));
    assert_eq!(t.value, 100);
}
