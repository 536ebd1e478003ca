//! Scoring rounds of rock-paper-scissors: each input line names the
//! opponent's choice and a second letter, read either as the player's own
//! choice or as the round's demanded outcome.

use vstd::prelude::*;

verus! {

/// One of the three shapes.
#[derive(Clone, Copy, PartialEq, Eq, Structural, Debug)]
pub enum Choice {
    Rock,
    Paper,
    Scissor,
}

/// One round: the opponent's choice and the second column's choice.
#[derive(Clone, Copy, PartialEq, Eq, Structural, Debug)]
pub struct Round {
    pub player1: Choice,
    pub player2: Choice,
}

/// The shape the first column letter names.
pub open spec fn choice_of_abc(c: char) -> Choice {
    if c == 'A' {
        Choice::Rock
    } else if c == 'B' {
        Choice::Paper
    } else {
        Choice::Scissor
    }
}

/// The shape the second column letter names.
pub open spec fn choice_of_xyz(c: char) -> Choice {
    if c == 'X' {
        Choice::Rock
    } else if c == 'Y' {
        Choice::Paper
    } else {
        Choice::Scissor
    }
}

/// Whether a line spells a round: a first-column letter, a space, a
/// second-column letter.
pub open spec fn valid_round_line(l: Seq<char>) -> bool {
    &&& l.len() == 3
    &&& (l[0] == 'A' || l[0] == 'B' || l[0] == 'C')
    &&& l[1] == ' '
    &&& (l[2] == 'X' || l[2] == 'Y' || l[2] == 'Z')
}

/// The round a line spells.
pub open spec fn round_of_line(l: Seq<char>) -> Round {
    Round { player1: choice_of_abc(l[0]), player2: choice_of_xyz(l[2]) }
}

/// The score of a round read as two shapes: the played shape's worth plus
/// the outcome's worth.
pub open spec fn score_of(r: Round) -> int {
    match (r.player1, r.player2) {
        (Choice::Rock, Choice::Rock) => 1int + 3,
        (Choice::Rock, Choice::Paper) => 2int + 6,
        (Choice::Rock, Choice::Scissor) => 3int + 0,
        (Choice::Paper, Choice::Rock) => 1int + 0,
        (Choice::Paper, Choice::Paper) => 2int + 3,
        (Choice::Paper, Choice::Scissor) => 3int + 6,
        (Choice::Scissor, Choice::Rock) => 1int + 6,
        (Choice::Scissor, Choice::Paper) => 2int + 0,
        (Choice::Scissor, Choice::Scissor) => 3int + 3,
    }
}

/// The score of a round whose second column demands an outcome: the shape
/// that must be played plus the demanded outcome's worth.
pub open spec fn calculate_of(r: Round) -> int {
    match (r.player1, r.player2) {
        (Choice::Rock, Choice::Rock) => 3int + 0,
        (Choice::Rock, Choice::Paper) => 1int + 3,
        (Choice::Rock, Choice::Scissor) => 2int + 6,
        (Choice::Paper, Choice::Rock) => 1int + 0,
        (Choice::Paper, Choice::Paper) => 2int + 3,
        (Choice::Paper, Choice::Scissor) => 3int + 6,
        (Choice::Scissor, Choice::Rock) => 2int + 0,
        (Choice::Scissor, Choice::Paper) => 3int + 3,
        (Choice::Scissor, Choice::Scissor) => 1int + 6,
    }
}

/// The summed scores of the rounds from index `i` on.
pub open spec fn total_score_from(rounds: Seq<Round>, i: int) -> int
    decreases rounds.len() - i,
{
    if i < 0 || i >= rounds.len() {
        0
    } else {
        score_of(rounds[i]) + total_score_from(rounds, i + 1)
    }
}

/// The summed outcome-reading scores of the rounds from index `i` on.
pub open spec fn total_calculate_from(rounds: Seq<Round>, i: int) -> int
    decreases rounds.len() - i,
{
    if i < 0 || i >= rounds.len() {
        0
    } else {
        calculate_of(rounds[i]) + total_calculate_from(rounds, i + 1)
    }
}

impl Round {
    /// The score of the round read as two shapes.
    pub fn score(&self) -> (r: usize)
        ensures
            r == score_of(*self),
    {
        match (&self.player1, &self.player2) {
            (Choice::Rock, Choice::Rock) => 1 + 3,
            (Choice::Rock, Choice::Paper) => 2 + 6,
            (Choice::Rock, Choice::Scissor) => 3 + 0,
            (Choice::Paper, Choice::Rock) => 1 + 0,
            (Choice::Paper, Choice::Paper) => 2 + 3,
            (Choice::Paper, Choice::Scissor) => 3 + 6,
            (Choice::Scissor, Choice::Rock) => 1 + 6,
            (Choice::Scissor, Choice::Paper) => 2 + 0,
            (Choice::Scissor, Choice::Scissor) => 3 + 3,
        }
    }

    /// The score of the round read as a demanded outcome.
    pub fn calculate(&self) -> (r: usize)
        ensures
            r == calculate_of(*self),
    {
        match (&self.player1, &self.player2) {
            (Choice::Rock, Choice::Rock) => 3 + 0,
            (Choice::Rock, Choice::Paper) => 1 + 3,
            (Choice::Rock, Choice::Scissor) => 2 + 6,
            (Choice::Paper, Choice::Rock) => 1 + 0,
            (Choice::Paper, Choice::Paper) => 2 + 3,
            (Choice::Paper, Choice::Scissor) => 3 + 6,
            (Choice::Scissor, Choice::Rock) => 2 + 0,
            (Choice::Scissor, Choice::Paper) => 3 + 3,
            (Choice::Scissor, Choice::Scissor) => 1 + 6,
        }
    }
}

/// The rounds the lines spell, one per line.
#[verifier::loop_isolation(false)]
pub fn parse(lines: &Vec<String>) -> (r: Vec<Round>)
    requires
        forall|i: int| 0 <= i < lines@.len() ==> valid_round_line((#[trigger] lines@[i])@),
    ensures
        r@.len() == lines@.len(),
        forall|i: int| 0 <= i < lines@.len() ==> #[trigger] r@[i] == round_of_line(lines@[i]@),
{
    let mut result: Vec<Round> = Vec::new();
    let mut i: usize = 0;
    while i < lines.len()
        invariant
            i <= lines@.len(),
            result@.len() == i,
            forall|k: int|
                0 <= k < i ==> #[trigger] result@[k] == round_of_line(lines@[k]@),
        decreases lines@.len() - i,
    {
        let line = lines[i].as_str();
        let a = line.get_char(0);
        let x = line.get_char(2);
        let player1 = if a == 'A' {
            Choice::Rock
        } else if a == 'B' {
            Choice::Paper
        } else {
            Choice::Scissor
        };
        let player2 = if x == 'X' {
            Choice::Rock
        } else if x == 'Y' {
            Choice::Paper
        } else {
            Choice::Scissor
        };
        result.push(Round { player1, player2 });
        i = i + 1;
    }
    result
}

/// The summed shape-reading scores of all lines.
#[verifier::loop_isolation(false)]
pub fn day02a(lines: &Vec<String>) -> (r: usize)
    requires
        forall|i: int| 0 <= i < lines@.len() ==> valid_round_line((#[trigger] lines@[i])@),
        lines@.len() * 9 <= usize::MAX,
    ensures
        r == total_score_from(lines@.map_values(|l: String| round_of_line(l@)), 0),
{
    let rounds = parse(lines);
    let ghost rs = lines@.map_values(|l: String| round_of_line(l@));
    proof {
        assert(rounds@ =~= rs);
        lemma_score_bound(rs, 0);
    }
    let mut sum: usize = 0;
    let mut i: usize = 0;
    while i < rounds.len()
        invariant
            i <= rounds@.len(),
            rounds@ == rs,
            sum + total_score_from(rs, i as int) == total_score_from(rs, 0),
            sum <= 9 * i,
        decreases rounds@.len() - i,
    {
        proof {
            lemma_score_bound(rs, i + 1);
        }
        sum = sum + rounds[i].score();
        i = i + 1;
    }
    sum
}

/// The summed outcome-reading scores of all lines.
#[verifier::loop_isolation(false)]
pub fn day02b(lines: &Vec<String>) -> (r: usize)
    requires
        forall|i: int| 0 <= i < lines@.len() ==> valid_round_line((#[trigger] lines@[i])@),
        lines@.len() * 9 <= usize::MAX,
    ensures
        r == total_calculate_from(lines@.map_values(|l: String| round_of_line(l@)), 0),
{
    let rounds = parse(lines);
    let ghost rs = lines@.map_values(|l: String| round_of_line(l@));
    proof {
        assert(rounds@ =~= rs);
        lemma_calculate_bound(rs, 0);
    }
    let mut sum: usize = 0;
    let mut i: usize = 0;
    while i < rounds.len()
        invariant
            i <= rounds@.len(),
            rounds@ == rs,
            sum + total_calculate_from(rs, i as int) == total_calculate_from(rs, 0),
            sum <= 9 * i,
        decreases rounds@.len() - i,
    {
        proof {
            lemma_calculate_bound(rs, i + 1);
        }
        sum = sum + rounds[i].calculate();
        i = i + 1;
    }
    sum
}

/// Each round scores at most nine points, so a suffix sum is bounded by
/// nine per round.
proof fn lemma_score_bound(rounds: Seq<Round>, i: int)
    ensures
        0 <= total_score_from(rounds, i) <= 9 * (if i < 0 {
            rounds.len() as int
        } else if i <= rounds.len() {
            rounds.len() - i
        } else {
            0int
        }),
    decreases rounds.len() - i,
{
    if 0 <= i < rounds.len() {
        lemma_score_bound(rounds, i + 1);
    } else if i < 0 {
        lemma_score_bound(rounds, 0);
    }
}

/// The outcome-reading twin of the score bound.
proof fn lemma_calculate_bound(rounds: Seq<Round>, i: int)
    ensures
        0 <= total_calculate_from(rounds, i) <= 9 * (if i < 0 {
            rounds.len() as int
        } else if i <= rounds.len() {
            rounds.len() - i
        } else {
            0int
        }),
    decreases rounds.len() - i,
{
    if 0 <= i < rounds.len() {
        lemma_calculate_bound(rounds, i + 1);
    } else if i < 0 {
        lemma_calculate_bound(rounds, 0);
    }
}

} // verus!
