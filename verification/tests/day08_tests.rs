use advent::day08::{day08a, day08b, is_visible, scenic};

fn sample() -> Vec<Vec<u32>> {
    ["30373", "25512", "65332", "33549", "35390"]
        .iter()
        .map(|line| line.chars().map(|c| c.to_digit(10).unwrap()).collect())
        .collect()
}

#[test]
fn find_visible_trees() {
    let result = day08a(&sample(), 5);
    assert_eq!(result, 21);
}

#[test]
fn find_scenic_score() {
    let result = day08b(&sample(), 5);
    assert_eq!(result, 8);
}

#[test]
fn edge_trees_are_visible() {
    let forest = sample();
    assert!(is_visible(&forest, 0, 0, 5));
    assert!(is_visible(&forest, 4, 2, 5));
    assert!(!is_visible(&forest, 3, 1, 5));
}

#[test]
fn scenic_counts_the_four_runs() {
    let forest = sample();
    assert_eq!(scenic(&forest, 2, 1, 5), 4);
    assert_eq!(scenic(&forest, 2, 3, 5), 8);
    assert_eq!(scenic(&forest, 0, 0, 5), 0);
}
