use advent::day16::ElephantState;

#[test]
fn fresh_valves_are_closed() {
    let st = ElephantState::starting_at(&String::from("AA"));
    assert!(st.closed(&String::from("AA")));
    assert!(st.closed(&String::from("BB")));
}

#[test]
fn score_opens_the_arrived_valves() {
    let mut st = ElephantState::starting_at(&String::from("AA"));
    st.elephant = String::from("BB");
    let scores = vec![
        (String::from("AA"), 3u32),
        (String::from("BB"), 5u32),
    ];
    st.score(10, 0, &scores);
    // both walkers arrived at minute 0: each valve earns its rate for the
    // remaining 10 minutes
    assert_eq!(st.score, 10 * 3 + 10 * 5);
    assert!(!st.closed(&String::from("AA")));
    assert!(!st.closed(&String::from("BB")));
    assert_eq!(st.minute, 1);
    assert_eq!(st.elephant_minute, 1);
}

#[test]
fn score_ignores_walkers_still_travelling() {
    let mut st = ElephantState::starting_at(&String::from("AA"));
    st.minute = 4;
    st.elephant_minute = 6;
    let scores = vec![(String::from("AA"), 3u32)];
    st.score(10, 2, &scores);
    assert_eq!(st.score, 0);
    assert!(st.closed(&String::from("AA")));
}
