use advent::day04::{contain_other, overlap_other};

fn pair(a: (usize, usize), b: (usize, usize)) -> Vec<Vec<usize>> {
    vec![vec![a.0, a.1], vec![b.0, b.1]]
}

#[test]
fn fully_contained_ranges_are_detected() {
    assert!(contain_other(&pair((2, 8), (3, 7))));
    assert!(contain_other(&pair((6, 6), (4, 6))));
    assert!(!contain_other(&pair((2, 4), (6, 8))));
    assert!(!contain_other(&pair((5, 7), (7, 9))));
}

#[test]
fn overlapping_ranges_are_detected() {
    assert!(overlap_other(&pair((5, 7), (7, 9))));
    assert!(overlap_other(&pair((2, 8), (3, 7))));
    assert!(overlap_other(&pair((6, 6), (4, 6))));
    assert!(overlap_other(&pair((2, 6), (4, 8))));
    assert!(!overlap_other(&pair((2, 4), (6, 8))));
    assert!(!overlap_other(&pair((2, 3), (4, 5))));
}
