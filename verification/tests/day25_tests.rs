use advent::day25::{number_to_snafu, snafu_to_number};

fn digits_of(text: &str) -> Vec<i64> {
    text.chars()
        .map(|c| match c {
            '2' => 2,
            '1' => 1,
            '0' => 0,
            '-' => -1,
            '=' => -2,
            _ => panic!("unknown glyph"),
        })
        .collect()
}

#[test]
fn sample_numerals_sum_to_the_sample_answer() {
    let numerals = [
        "1=-0-2", "12111", "2=0=", "21", "2=01", "111", "20012", "112", "1=-1=", "1-12", "12",
        "1=", "122",
    ];
    let mut total = 0;
    for n in numerals {
        total += snafu_to_number(&digits_of(n));
    }
    assert_eq!(total, 4890);
    assert_eq!(number_to_snafu(total), "2=-1=0");
}

#[test]
fn single_digits_read_back() {
    assert_eq!(snafu_to_number(&digits_of("2=-01")), 976);
    assert_eq!(snafu_to_number(&digits_of("1=")), 3);
    assert_eq!(snafu_to_number(&digits_of("1-")), 4);
}

#[test]
fn encoding_then_decoding_is_the_identity() {
    for v in [1i64, 2, 3, 4, 5, 9, 2022, 12345, 314159265, 4890] {
        let text = number_to_snafu(v);
        assert_eq!(snafu_to_number(&digits_of(&text)), v);
    }
}

#[test]
fn zero_and_negatives_give_the_empty_numeral() {
    assert_eq!(number_to_snafu(0), "");
    assert_eq!(number_to_snafu(-7), "");
}

#[test]
fn the_largest_twenty_seven_digit_numeral_round_trips() {
    // twenty-seven 2-digits spell the largest value the decoder accepts
    let all_twos = "2".repeat(27);
    let largest: i64 = 3725290298461914062;
    assert_eq!(snafu_to_number(&digits_of(&all_twos)), largest);
    let encoded = number_to_snafu(largest);
    assert_eq!(encoded.len(), 27);
    assert_eq!(encoded, all_twos);
    assert_eq!(snafu_to_number(&digits_of(&encoded)), largest);
}
