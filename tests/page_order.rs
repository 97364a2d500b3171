use aoc24::page_order::{compute, RuleIndex, SortError};

fn spec_rules() -> Vec<(i32, i32)> {
    vec![
        (47, 53),
        (97, 13),
        (97, 61),
        (97, 47),
        (75, 29),
        (61, 13),
        (75, 53),
        (29, 13),
        (97, 9),
        (75, 47),
        (61, 53),
    ]
}

fn example_rules() -> Vec<(i32, i32)> {
    vec![
        (47, 53),
        (97, 13),
        (97, 61),
        (97, 47),
        (75, 29),
        (61, 13),
        (75, 53),
        (29, 13),
        (97, 29),
        (53, 29),
        (61, 53),
        (97, 53),
        (61, 29),
        (47, 13),
        (75, 47),
        (97, 75),
        (47, 61),
        (75, 61),
        (47, 29),
        (75, 13),
        (53, 13),
    ]
}

fn example_updates() -> Vec<Vec<i32>> {
    vec![
        vec![75, 47, 61, 53, 29],
        vec![97, 61, 53, 29, 13],
        vec![75, 29, 13],
        vec![75, 97, 47, 61, 53],
        vec![61, 13, 29],
        vec![97, 13, 75, 29, 47],
    ]
}

#[test]
fn ordered_update_is_valid_with_middle_61() {
    let index = RuleIndex::new(&spec_rules());
    let update = vec![75, 47, 61, 53, 29];
    assert!(index.is_ordered(&update));
    let sorted = match index.topological_sort(&update) {
        Ok(s) => s,
        Err(_) => panic!("no cycle expected"),
    };
    assert_eq!(sorted, update);
    assert_eq!(sorted[sorted.len() / 2], 61);
}

#[test]
fn misordered_update_is_resorted_with_middle_47() {
    let index = RuleIndex::new(&example_rules());
    let update = vec![75, 97, 47, 61, 53];
    assert!(!index.is_ordered(&update));
    let sorted = match index.topological_sort(&update) {
        Ok(s) => s,
        Err(_) => panic!("no cycle expected"),
    };
    assert_eq!(sorted, vec![97, 75, 47, 61, 53]);
    assert_eq!(sorted[sorted.len() / 2], 47);
}

#[test]
fn unconstrained_pages_are_valid() {
    let index = RuleIndex::new(&spec_rules());
    assert!(index.is_ordered(&vec![1, 2]));
    assert!(index.is_ordered(&vec![2, 1]));
}

#[test]
fn empty_rules_keep_every_sequence() {
    let index = RuleIndex::new(&vec![]);
    for update in [vec![], vec![5], vec![3, 1, 2], vec![9, 9, 4], vec![4, 8, 15, 16, 23, 42]] {
        assert!(index.is_ordered(&update));
        match index.topological_sort(&update) {
            Ok(s) => assert_eq!(s, update),
            Err(_) => panic!("no cycle expected"),
        }
    }
}

#[test]
fn resorted_output_is_a_permutation_in_rule_order() {
    let rules = example_rules();
    let index = RuleIndex::new(&rules);
    for update in example_updates() {
        let sorted = match index.topological_sort(&update) {
            Ok(s) => s,
            Err(_) => panic!("no cycle expected"),
        };
        let mut a = sorted.clone();
        let mut b = update.clone();
        a.sort();
        b.sort();
        assert_eq!(a, b);
        for i in 0..sorted.len() {
            for j in i + 1..sorted.len() {
                assert!(!rules.contains(&(sorted[j], sorted[i])));
            }
        }
        assert!(index.is_ordered(&sorted));
    }
}

#[test]
fn valid_update_is_returned_unchanged() {
    let index = RuleIndex::new(&example_rules());
    for update in example_updates() {
        if index.is_ordered(&update) {
            match index.topological_sort(&update) {
                Ok(s) => assert_eq!(s, update),
                Err(_) => panic!("no cycle expected"),
            }
        }
    }
}

#[test]
fn cycle_is_detected() {
    let index = RuleIndex::new(&vec![(1, 2), (2, 3), (3, 1)]);
    assert!(!index.is_ordered(&vec![1, 2, 3]));
    assert!(matches!(index.topological_sort(&vec![1, 2, 3]), Err(SortError::CycleDetected)));
    assert!(matches!(index.topological_sort(&vec![3, 1]), Ok(_)));
}

#[test]
fn duplicate_rules_are_kept_once() {
    let index = RuleIndex::new(&vec![(1, 2), (1, 2), (1, 2)]);
    assert!(index.must_precede(1, 2));
    assert!(!index.must_precede(2, 1));
    assert!(!index.is_ordered(&vec![2, 1]));
    match index.topological_sort(&vec![2, 1]) {
        Ok(s) => assert_eq!(s, vec![1, 2]),
        Err(_) => panic!("no cycle expected"),
    }
}

#[test]
fn example_scores() {
    let index = RuleIndex::new(&example_rules());
    match compute(&index, &example_updates()) {
        Ok((p1, p2)) => {
            assert_eq!(p1, 143);
            assert_eq!(p2, 123);
        }
        Err(_) => panic!("no cycle expected"),
    }
}

#[test]
fn scoring_fails_on_a_cycle() {
    let index = RuleIndex::new(&vec![(1, 2), (2, 1)]);
    assert!(matches!(compute(&index, &vec![vec![1, 2]]), Err(SortError::CycleDetected)));
}

#[test]
fn unrelated_pages_keep_their_order() {
    let index = RuleIndex::new(&vec![(3, 1)]);
    for _ in 0..3 {
        match index.topological_sort(&vec![5, 1, 4, 3, 2]) {
            Ok(s) => assert_eq!(s, vec![5, 4, 3, 1, 2]),
            Err(_) => panic!("no cycle expected"),
        }
    }
}

#[test]
fn scores_add_up_over_split_runs() {
    let index = RuleIndex::new(&example_rules());
    let all = example_updates();
    let (a, b) = all.split_at(3);
    let whole = compute(&index, &all).ok().unwrap();
    let first = compute(&index, &a.to_vec()).ok().unwrap();
    let second = compute(&index, &b.to_vec()).ok().unwrap();
    assert_eq!(whole, (first.0 + second.0, first.1 + second.1));
}

#[test]
fn scores_without_rules() {
    let index = RuleIndex::new(&vec![]);
    assert_eq!(compute(&index, &vec![vec![1, 2, 3], vec![9, 8]]).ok(), Some((10, 0)));
}
