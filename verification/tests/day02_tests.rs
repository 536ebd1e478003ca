use advent::day02::{day02a, day02b, parse, Choice, Round};

fn sample() -> Vec<String> {
    vec![
        String::from("A Y"),
        String::from("B X"),
        String::from("C Z"),
    ]
}

#[test]
fn find_total_score_a() {
    let result = day02a(&sample());
    assert_eq!(result, 15);
}

#[test]
fn find_total_score_b() {
    let result = day02b(&sample());
    assert_eq!(result, 12);
}

#[test]
fn parse_reads_both_columns() {
    let rounds = parse(&sample());
    assert_eq!(rounds.len(), 3);
    assert_eq!(rounds[0].player1, Choice::Rock);
    assert_eq!(rounds[0].player2, Choice::Paper);
    assert_eq!(rounds[2].player1, Choice::Scissor);
    assert_eq!(rounds[2].player2, Choice::Scissor);
}

#[test]
fn round_scores_follow_the_table() {
    let draw = Round {
        player1: Choice::Rock,
        player2: Choice::Rock,
    };
    assert_eq!(draw.score(), 4);
    assert_eq!(draw.calculate(), 3);
    let win = Round {
        player1: Choice::Rock,
        player2: Choice::Paper,
    };
    assert_eq!(win.score(), 8);
    assert_eq!(win.calculate(), 4);
}
