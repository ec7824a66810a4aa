use schematodes::candidates::{differing_indices, nontrivial_columns, swap_candidates};
use schematodes::closure::{apply_action, merged_swaps_to_bubbles, trivial_columns};
use schematodes::schema::{compute_max_symbol, schema_signature, TwoSymbolSchema};
use schematodes::search::{insert_record, record_eq, tss_for_one_symbol_schemata_with_signature};
use schematodes::sorting::{group_le, sort_groups, sort_indices};
use schematodes::swaps::swap_schema;

#[test]
fn signature_counts_each_symbol() {
    let sig = schema_signature(&vec![1, 0, 2, 1], 3);
    assert_eq!(sig, vec![1, 2, 1, 0]);
}

#[test]
fn signature_of_empty_row_is_all_zero() {
    let sig = schema_signature(&vec![], 2);
    assert_eq!(sig, vec![0, 0, 0]);
}

#[test]
fn max_symbol_scans_every_row() {
    assert_eq!(compute_max_symbol(&vec![vec![0, 5], vec![3]]), 5);
    assert_eq!(compute_max_symbol(&vec![]), 0);
}

#[test]
fn differing_indices_lists_mismatches_in_order() {
    let x = vec![0, 1, 2, 3];
    let y = vec![1, 1, 0, 0];
    assert_eq!(differing_indices(&x, &y, None), vec![0, 2, 3]);
    assert_eq!(differing_indices(&x, &y, Some(2)), vec![0, 2, 3]);
    assert_eq!(differing_indices(&x, &y, Some(1)), vec![0, 2]);
    assert_eq!(differing_indices(&x, &x, Some(2)), Vec::<usize>::new());
}

#[test]
fn nontrivial_columns_skip_constant_ones() {
    let rows = vec![vec![0, 1, 7], vec![0, 2, 7], vec![0, 1, 7]];
    assert_eq!(nontrivial_columns(&rows), vec![1]);
}

#[test]
fn swap_candidates_take_both_rules() {
    let rows = vec![vec![0, 0, 1], vec![0, 1, 0], vec![1, 0, 0]];
    let cols = nontrivial_columns(&rows);
    assert_eq!(cols, vec![0, 1, 2]);
    let mut cands = swap_candidates(&rows[0], &rows, &cols);
    cands.sort();
    // (1, 2) and (0, 2) from rows differing exactly twice, (0, 1) from the
    // equal-symbol rule
    assert_eq!(cands, vec![(0, 1), (0, 2), (1, 2)]);
}

#[test]
fn apply_action_reaches_the_composed_swap() {
    let rows = vec![
        vec![0, 0, 1],
        vec![0, 1, 0],
        vec![1, 0, 0],
    ];
    let (closed, orbit, merged) = apply_action(&rows[0], &vec![(0, 1), (1, 2)], &rows);
    assert!(closed);
    // the composition of the two swaps reaches the third row
    assert_eq!(orbit.len(), 3);
    assert!(orbit.contains(&vec![1, 0, 0]));
    // the merged sets are the chain-connected classes
    assert_eq!(merged[0], vec![0, 1, 2]);
    assert_eq!(merged[1], vec![1, 0, 2]);
    assert_eq!(merged[2], vec![2, 1, 0]);
}

#[test]
fn apply_action_reports_escape_from_the_collection() {
    let rows = vec![vec![0, 0, 1], vec![0, 1, 0]];
    let (closed, _, _) = apply_action(&rows[0], &vec![(0, 2)], &rows);
    assert!(!closed);
}

#[test]
fn trivial_columns_are_those_fixed_across_the_orbit() {
    let root = vec![0, 1, 2];
    let orbit = vec![vec![0, 1, 2], vec![0, 2, 1]];
    assert_eq!(trivial_columns(&root, &orbit), vec![0]);
}

#[test]
fn bubbles_merge_sort_and_drop_trivial_groups() {
    let merged = vec![vec![0, 2], vec![1], vec![2, 0]];
    let bubbles = merged_swaps_to_bubbles(&merged, &vec![1]);
    assert_eq!(bubbles, vec![vec![0, 2]]);
}

#[test]
fn bubble_of_only_trivial_columns_is_dropped() {
    let merged = vec![vec![0, 1], vec![1, 0], vec![2]];
    let bubbles = merged_swaps_to_bubbles(&merged, &vec![0, 1]);
    assert_eq!(bubbles, Vec::<Vec<usize>>::new());
}

#[test]
fn swap_schema_exchanges_two_columns() {
    assert_eq!(swap_schema(&vec![5, 6, 7], 0, 2), vec![7, 6, 5]);
}

#[test]
fn index_sort_is_ascending() {
    assert_eq!(sort_indices(vec![3, 1, 2, 0]), vec![0, 1, 2, 3]);
}

#[test]
fn group_sort_is_lexicographic() {
    let sorted = sort_groups(vec![vec![2, 3], vec![0, 1], vec![0]]);
    assert_eq!(sorted, vec![vec![0], vec![0, 1], vec![2, 3]]);
}

#[test]
fn group_le_follows_prefix_order() {
    assert!(group_le(&vec![0, 1], &vec![0, 2]));
    assert!(group_le(&vec![0], &vec![0, 2]));
    assert!(!group_le(&vec![1], &vec![0, 2]));
    assert!(group_le(&vec![], &vec![]));
}

#[test]
fn insert_record_collapses_equal_schemata() {
    let a = TwoSymbolSchema::new(vec![vec![0, 1]], vec![], vec![1, 1]);
    let b = TwoSymbolSchema::new(vec![vec![0, 1]], vec![], vec![1, 1]);
    let c = TwoSymbolSchema::new(vec![vec![1, 0]], vec![], vec![1, 1]);
    assert!(record_eq(&a, &b));
    assert!(!record_eq(&a, &c));
    let records = insert_record(Vec::new(), a);
    let records = insert_record(records, b);
    assert_eq!(records.len(), 1);
    let records = insert_record(records, c);
    assert_eq!(records.len(), 2);
}

#[test]
fn bucket_search_returns_the_single_symmetric_record() {
    let bucket = vec![vec![0, 1], vec![1, 0]];
    let out = tss_for_one_symbol_schemata_with_signature(&bucket, vec![1, 1]);
    assert_eq!(out.len(), 1);
    assert_eq!(out[0].redescribed_schemata, vec![vec![0, 1], vec![1, 0]]);
    assert_eq!(out[0].bubble_indices, vec![vec![0, 1]]);
}

#[test]
fn trivial_schema_computes_its_signature_when_asked() {
    let rec = TwoSymbolSchema::trivial(vec![vec![0, 1, 1]], None, Some(2));
    assert_eq!(rec.signature, vec![1, 2, 0]);
    assert!(rec.bubble_indices.is_empty());
    let given = TwoSymbolSchema::trivial(vec![vec![0, 1]], Some(vec![9, 9]), None);
    assert_eq!(given.signature, vec![9, 9]);
    let bare = TwoSymbolSchema::trivial(vec![vec![0, 1]], None, None);
    assert_eq!(bare.signature, Vec::<usize>::new());
}

#[test]
fn getters_hand_out_copies() {
    let rec = TwoSymbolSchema::new(vec![vec![0, 1]], vec![vec![0, 1]], vec![1, 1]);
    assert_eq!(rec.get_redescribed_schemata(), vec![vec![0, 1]]);
    assert_eq!(rec.get_bubble_indices(), vec![vec![0, 1]]);
}
