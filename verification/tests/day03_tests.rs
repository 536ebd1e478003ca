use advent::day03::{day03a, day03b};

fn sample() -> Vec<String> {
    vec![
        String::from("vJrwpWtwJgWrhcsFMMfFFhFp"),
        String::from("jqHRNqRjqzjGDLGLrsFMfFZSrLrFZsSL"),
        String::from("PmmdzqPrVvPwwTWBwg"),
        String::from("wMqvLMZHhHMvwLHjbvcjnnSBnvTQFn"),
        String::from("ttgJtRGJQctTZtZT"),
        String::from("CrZsJsPPZsGzwwsLwLmpwMDw"),
    ]
}

#[test]
fn mod_find_total_score_a() {
    let result = day03a(&sample());
    assert_eq!(result, 157);
}

#[test]
fn mod_find_total_score_b() {
    let result = day03b(&sample());
    assert_eq!(result, 70);
}

#[test]
fn a_repeated_shared_item_scores_once() {
    let lines = vec![String::from("abab")];
    assert_eq!(day03a(&lines), 1 + 2);
    let lines2 = vec![String::from("aaaa")];
    assert_eq!(day03a(&lines2), 1);
}
