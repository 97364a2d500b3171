use aoc24::antennas;
use aoc24::mul_scan;

#[test]
fn mul_scan_example() {
    let text = "xmul(2,4)%&mul[3,7]!@^do_not_mul(5,5)+mul(32,64]then(mul(11,8)mul(8,5))";
    assert_eq!(mul_scan::part1(text.as_bytes()), Some(161));
}

#[test]
fn mul_scan_switched_example() {
    let text = "xmul(2,4)&mul[3,7]!^don't()_mul(5,5)+mul(32,64](mul(11,8)undo()?mul(8,5))";
    assert_eq!(mul_scan::part2(text.as_bytes()), Some(48));
}

#[test]
fn mul_scan_edge_cases() {
    assert_eq!(mul_scan::part1(b""), Some(0));
    assert_eq!(mul_scan::part1(b"mul(,3)mul(4,)mul (1,2)"), Some(0));
    assert_eq!(mul_scan::part1(b"mulmul(3,4)"), Some(12));
    assert_eq!(mul_scan::part1(b"mul(4294967295,2)"), Some(8589934590));
    assert_eq!(mul_scan::part1(b"mul(4294967296,2)"), None);
    assert_eq!(mul_scan::part2(b"don't()mul(4294967296,2)do()mul(2,3)"), Some(6));
    assert_eq!(mul_scan::part2(b"mul(2147483648,1)"), None);
}

fn example_cells() -> (Vec<char>, usize) {
    let rows = [
        "............",
        "........0...",
        ".....0......",
        ".......0....",
        "....0.......",
        "......A.....",
        "............",
        "............",
        "........A...",
        ".........A..",
        "............",
        "............",
    ];
    let width = rows[0].len();
    (rows.iter().flat_map(|r| r.chars()).collect(), width)
}

#[test]
fn antinodes_example() {
    let (cells, width) = example_cells();
    assert_eq!(antennas::part1(&cells, width), 14);
    assert_eq!(antennas::part2(&cells, width), 34);
}

#[test]
fn resonant_antinodes_small_maps() {
    let t: Vec<char> = ["T....#....", "...T......", ".T....#...", ".........#", "..#.......", "..........", "...#......", "..........", "....#.....", ".........."]
        .iter()
        .flat_map(|r| r.chars())
        .map(|c| if c == '#' { '.' } else { c })
        .collect();
    assert_eq!(antennas::part2(&t, 10), 9);
    let lone: Vec<char> = "..a..".chars().collect();
    assert_eq!(antennas::part2(&lone, 5), 0);
    let line: Vec<char> = ".aa..".chars().collect();
    assert_eq!(antennas::part2(&line, 5), 5);
}

#[test]
fn antinodes_small_maps() {
    let cells: Vec<char> = "..........a.........a.....".chars().take(25).collect();
    assert_eq!(antennas::part1(&cells, 5), 1);
    let line: Vec<char> = "..aa..".chars().collect();
    assert_eq!(antennas::part1(&line, 6), 2);
    let mixed: Vec<char> = "..ab..".chars().collect();
    assert_eq!(antennas::part1(&mixed, 6), 0);
    assert!(antennas::bound_check(0, 0, 1, 1));
    assert!(!antennas::bound_check(1, 0, 1, 1));
}

#[test]
fn antinodes_empty_map() {
    assert_eq!(antennas::part1(&vec![], 0), 0);
    assert_eq!(antennas::part2(&vec![], 0), 0);
    assert_eq!(antennas::part1(&vec![], 4), 0);
}
