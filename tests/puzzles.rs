use aoc24::equations::{concat_digits, Equation};
use aoc24::location_lists;
use aoc24::reports::{report_is_tolerable, report_is_valid};
use aoc24::word_search::{bound_check, find_pattern, find_pattern2};
use aoc24::{equations, reports, word_search};

#[test]
fn location_lists_example() {
    let a = vec![3, 4, 2, 1, 3, 3];
    let b = vec![4, 3, 5, 3, 9, 3];
    assert_eq!(location_lists::part1(&a, &b), 11);
    assert_eq!(location_lists::part2(&a, &b), 31);
}

#[test]
fn location_lists_large_values() {
    assert_eq!(location_lists::part1(&vec![0], &vec![u32::MAX]), u32::MAX as u64);
    assert_eq!(location_lists::part2(&vec![u32::MAX], &vec![u32::MAX, u32::MAX]), 2 * u32::MAX as u128);
}

fn example_reports() -> Vec<Vec<u32>> {
    vec![
        vec![7, 6, 4, 2, 1],
        vec![1, 2, 7, 8, 9],
        vec![9, 7, 6, 2, 1],
        vec![1, 3, 2, 4, 5],
        vec![8, 6, 4, 4, 1],
        vec![1, 3, 6, 7, 9],
    ]
}

#[test]
fn reports_example() {
    let rs = example_reports();
    let valid: Vec<bool> = rs.iter().map(report_is_valid).collect();
    assert_eq!(valid, vec![true, false, false, false, false, true]);
    let tolerable: Vec<bool> = rs.iter().map(report_is_tolerable).collect();
    assert_eq!(tolerable, vec![true, false, false, true, true, true]);
    assert_eq!(reports::part1(&rs), 2);
    assert_eq!(reports::part2(&rs), 4);
}

#[test]
fn reports_edge_cases() {
    assert!(report_is_valid(&vec![]));
    assert!(report_is_valid(&vec![5]));
    assert!(!report_is_valid(&vec![5, 5]));
    assert!(report_is_valid(&vec![5, 8]));
    assert!(!report_is_valid(&vec![5, 9]));
    assert!(report_is_tolerable(&vec![5, 9]));
}

fn example_map() -> Vec<Vec<char>> {
    [
        "MMMSXXMASM",
        "MSAMXMSMSA",
        "AMXSXMAAMM",
        "MSAMASMSMX",
        "XMASAMXAMM",
        "XXAMMXXAMA",
        "SMSMSASXSS",
        "SAXAMASAAA",
        "MAMMMXMMMM",
        "MXMXAXMASX",
    ]
    .iter()
    .map(|l| l.chars().collect())
    .collect()
}

#[test]
fn word_search_example() {
    let map = example_map();
    assert_eq!(word_search::part1(&map), 18);
    assert_eq!(word_search::part2(&map), 9);
}

#[test]
fn word_search_single_cells() {
    let map: Vec<Vec<char>> = ["XMAS", "MMAA", "ASAS", "SMMS"].iter().map(|l| l.chars().collect()).collect();
    assert_eq!(find_pattern(&(0, 0), &map, &['M', 'A', 'S']), 3);
    let cross: Vec<Vec<char>> = ["M.S", ".A.", "M.S"].iter().map(|l| l.chars().collect()).collect();
    assert_eq!(find_pattern2(&(1, 1), &cross), 1);
    let half: Vec<Vec<char>> = ["M.M", ".A.", "M.S"].iter().map(|l| l.chars().collect()).collect();
    assert_eq!(find_pattern2(&(1, 1), &half), 0);
    assert!(bound_check(0, 0, 1, 1));
    assert!(!bound_check(-1, 0, 1, 1));
    assert!(!bound_check(0, 3, 3, 5));
}

fn example_equations() -> Vec<Equation> {
    let rows: Vec<(i64, Vec<i64>)> = vec![
        (190, vec![10, 19]),
        (3267, vec![81, 40, 27]),
        (83, vec![17, 5]),
        (156, vec![15, 6]),
        (7290, vec![6, 8, 6, 15]),
        (161011, vec![16, 10, 13]),
        (192, vec![17, 8, 14]),
        (21037, vec![9, 7, 18, 13]),
        (292, vec![11, 6, 16, 20]),
    ];
    rows.into_iter().map(|(value, numbers)| Equation { value, numbers }).collect()
}

#[test]
fn equations_example() {
    let eqs = example_equations();
    assert_eq!(equations::part1(&eqs), 3749);
    let with_concat: i64 = eqs
        .iter()
        .filter(|e| e.is_valid2(e.numbers[0], &e.numbers[1..]))
        .map(|e| e.value)
        .sum();
    assert_eq!(with_concat, 11387);
    assert_eq!(equations::part2(&eqs), 11387);
}

#[test]
fn reverse_search_matches_forward_search() {
    for e in example_equations() {
        let mut rev = e.numbers.clone();
        rev.reverse();
        assert_eq!(e.is_valid2_revert(e.value, &rev), e.is_valid2(e.numbers[0], &e.numbers[1..]));
    }
    let e = Equation { value: 0, numbers: vec![] };
    assert!(e.is_valid2_revert(12345, &[45, 123]));
    assert!(e.is_valid2_revert(7, &[7]));
    assert!(!e.is_valid2_revert(-7, &[7]));
    assert!(e.is_valid2_revert(1000000000000000001, &[1000000000000000000, 1]));
}

#[test]
fn concat_digits_values() {
    assert_eq!(concat_digits(15, 6), Some(156));
    assert_eq!(concat_digits(0, 5), Some(5));
    assert_eq!(concat_digits(12, 0), Some(120));
    assert_eq!(concat_digits(-3, 5), Some(-35));
    assert_eq!(concat_digits(i64::MAX / 10, 7), Some(i64::MAX / 10 * 10 + 7));
    assert_eq!(concat_digits(i64::MAX, 1), None);
}

#[test]
fn overflowing_choice_does_not_count() {
    let e = Equation { value: 0, numbers: vec![i64::MAX, 2, 0] };
    assert!(!e.is_valid(e.numbers[0], &e.numbers[1..]));
    let f = Equation { value: 0, numbers: vec![i64::MAX, 1, 0] };
    assert!(f.is_valid(f.numbers[0], &f.numbers[1..]));
}

#[test]
fn word_search_starts_off_the_map() {
    let map: Vec<Vec<char>> = ["XMAS", "MMAA", "ASAS", "SMMS"].iter().map(|l| l.chars().collect()).collect();
    assert_eq!(find_pattern(&(10, 10), &map, &['M', 'A', 'S']), 0);
    assert_eq!(find_pattern(&(0, 4), &map, &['A']), 1);
    assert_eq!(find_pattern2(&(7, 7), &map), 0);
    let cross: Vec<Vec<char>> = ["M.S", ".A.", "M.S"].iter().map(|l| l.chars().collect()).collect();
    assert_eq!(find_pattern2(&(1, 3), &cross), 0);
}
