use schematodes::schemer;
use schematodes::SchemaError;
use schematodes::TwoSymbolSchema;

fn sort_records(mut records: Vec<TwoSymbolSchema>) -> Vec<TwoSymbolSchema> {
    records.sort_by(|a, b| {
        (&a.redescribed_schemata, &a.bubble_indices, &a.signature).cmp(&(
            &b.redescribed_schemata,
            &b.bubble_indices,
            &b.signature,
        ))
    });
    records
}

#[test]
fn two_rows_one_bubble() {
    let out = schemer(vec![vec![0, 1], vec![1, 0]], None).unwrap();
    assert_eq!(out.len(), 1);
    let rec = &out[0];
    assert_eq!(rec.redescribed_schemata, vec![vec![0, 1], vec![1, 0]]);
    assert_eq!(rec.bubble_indices, vec![vec![0, 1]]);
    assert_eq!(rec.signature, vec![1, 1]);
}

#[test]
fn duplicate_rows_collapse() {
    let out = schemer(vec![vec![0, 0], vec![0, 0]], Some(1)).unwrap();
    assert_eq!(out.len(), 1);
    let rec = &out[0];
    assert_eq!(rec.redescribed_schemata, vec![vec![0, 0]]);
    assert_eq!(rec.bubble_indices, Vec::<Vec<usize>>::new());
    assert_eq!(rec.signature, vec![2, 0]);
}

#[test]
fn singleton_is_trivial() {
    let out = schemer(vec![vec![0, 1, 2]], None).unwrap();
    assert_eq!(out.len(), 1);
    let rec = &out[0];
    assert_eq!(rec.redescribed_schemata, vec![vec![0, 1, 2]]);
    assert_eq!(rec.bubble_indices, Vec::<Vec<usize>>::new());
    assert_eq!(rec.signature, vec![1, 1, 1]);
}

#[test]
fn independent_pairs_stay_separate() {
    let input = vec![
        vec![0, 1, 0, 1],
        vec![1, 0, 0, 1],
        vec![0, 1, 1, 0],
        vec![1, 0, 1, 0],
    ];
    let out = schemer(input, None).unwrap();
    assert_eq!(out.len(), 1);
    let rec = &out[0];
    assert_eq!(rec.bubble_indices, vec![vec![0, 1], vec![2, 3]]);
    assert_eq!(
        rec.redescribed_schemata,
        vec![
            vec![0, 1, 0, 1],
            vec![0, 1, 1, 0],
            vec![1, 0, 0, 1],
            vec![1, 0, 1, 0],
        ]
    );
}

#[test]
fn three_column_rotation_merges_into_one_bubble() {
    let input = vec![vec![0, 0, 1], vec![0, 1, 0], vec![1, 0, 0]];
    let out = schemer(input, None).unwrap();
    assert_eq!(out.len(), 1);
    let rec = &out[0];
    assert_eq!(rec.bubble_indices, vec![vec![0, 1, 2]]);
    assert_eq!(
        rec.redescribed_schemata,
        vec![vec![0, 0, 1], vec![0, 1, 0], vec![1, 0, 0]]
    );
    assert_eq!(rec.signature, vec![2, 1]);
}

#[test]
fn empty_input_gives_empty_output() {
    let out = schemer(vec![], None).unwrap();
    assert!(out.is_empty());
}

#[test]
fn unequal_lengths_are_refused() {
    let r = schemer(vec![vec![0, 1], vec![0]], None);
    assert_eq!(r, Err(SchemaError::UnequalLengths));
}

#[test]
fn symbol_above_max_is_refused() {
    let r = schemer(vec![vec![0, 3]], Some(2));
    assert_eq!(r, Err(SchemaError::SymbolOutOfRange));
}

#[test]
fn unequal_lengths_reported_before_symbols() {
    let r = schemer(vec![vec![0, 9], vec![0]], Some(2));
    assert_eq!(r, Err(SchemaError::UnequalLengths));
}

#[test]
fn rerun_gives_identical_normalized_output() {
    let input = vec![
        vec![0, 1, 0, 1],
        vec![1, 0, 0, 1],
        vec![0, 1, 1, 0],
        vec![1, 0, 1, 0],
        vec![2, 2, 0, 1],
        vec![0, 0, 1, 1],
        vec![1, 1, 0, 0],
    ];
    let first = sort_records(schemer(input.clone(), None).unwrap());
    let second = sort_records(schemer(input, None).unwrap());
    assert_eq!(first, second);
}

#[test]
fn omitted_maximum_equals_computed_maximum() {
    let input = vec![
        vec![0, 1, 0, 1],
        vec![1, 0, 0, 1],
        vec![2, 2, 0, 1],
        vec![0, 0, 1, 1],
    ];
    let implicit = sort_records(schemer(input.clone(), None).unwrap());
    let m = schematodes::schema::compute_max_symbol(&input);
    let explicit = sort_records(schemer(input, Some(m)).unwrap());
    assert_eq!(implicit, explicit);
}

#[test]
fn records_come_out_deduplicated_and_disjoint() {
    let input = vec![
        vec![0, 1, 0, 1],
        vec![1, 0, 0, 1],
        vec![0, 1, 1, 0],
        vec![1, 0, 1, 0],
        vec![0, 0, 1, 1],
    ];
    let out = schemer(input, None).unwrap();
    for (i, a) in out.iter().enumerate() {
        for b in out.iter().skip(i + 1) {
            assert!(a != b);
        }
        for (bi, g1) in a.bubble_indices.iter().enumerate() {
            for g2 in a.bubble_indices.iter().skip(bi + 1) {
                assert!(g1.iter().all(|c| !g2.contains(c)));
            }
        }
    }
}

#[test]
fn coverage_and_signatures_on_a_mixed_input() {
    let input = vec![
        vec![0, 1, 1],
        vec![1, 0, 1],
        vec![1, 1, 0],
        vec![2, 2, 2],
        vec![0, 0, 0],
    ];
    let out = schemer(input.clone(), None).unwrap();
    // every input row is a member of some record
    for row in &input {
        assert!(out
            .iter()
            .any(|rec| rec.redescribed_schemata.iter().any(|m| m == row)));
    }
    // every member carries the recorded signature
    for rec in &out {
        for member in &rec.redescribed_schemata {
            let mut counts = vec![0usize; rec.signature.len()];
            for &x in member {
                counts[x as usize] += 1;
            }
            assert_eq!(counts, rec.signature);
        }
    }
}

#[test]
fn bubbles_are_closed_and_not_constant() {
    let input = vec![
        vec![0, 1, 0, 1],
        vec![1, 0, 0, 1],
        vec![0, 1, 1, 0],
        vec![1, 0, 1, 0],
        vec![0, 0, 1, 1],
    ];
    let out = schemer(input, None).unwrap();
    for rec in &out {
        for bubble in &rec.bubble_indices {
            // closure: every transposition of a bubble maps members to members
            for &i in bubble {
                for &j in bubble {
                    for member in &rec.redescribed_schemata {
                        let mut swapped = member.clone();
                        swapped.swap(i, j);
                        assert!(rec.redescribed_schemata.contains(&swapped));
                    }
                }
            }
            // faithfulness: some bubble column varies across the members
            assert!(bubble.iter().any(|&c| {
                rec.redescribed_schemata
                    .iter()
                    .any(|m| m[c] != rec.redescribed_schemata[0][c])
            }));
        }
    }
}

#[test]
fn members_come_out_sorted() {
    let out = schemer(vec![vec![1, 0], vec![0, 1]], None).unwrap();
    assert_eq!(out.len(), 1);
    assert_eq!(
        out[0].redescribed_schemata,
        vec![vec![0, 1], vec![1, 0]]
    );
}

#[test]
fn zero_length_rows_are_accepted() {
    let out = schemer(vec![vec![], vec![]], None).unwrap();
    assert_eq!(out.len(), 1);
    assert_eq!(out[0].redescribed_schemata, vec![Vec::<u8>::new()]);
    assert_eq!(out[0].bubble_indices, Vec::<Vec<usize>>::new());
}
