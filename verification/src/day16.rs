//! Scoring for the two-walker valve search: a state tracks where each
//! walker is headed, when it arrives, which valves are already open, and
//! the pressure released so far.

use vstd::prelude::*;

verus! {

/// Whether some entry of `v` spells the name `name`.
pub open spec fn visited_has(v: Seq<String>, name: Seq<char>) -> bool {
    exists|i: int| 0 <= i < v.len() && (#[trigger] v[i])@ == name
}

/// The score attached to `key`, or zero when no entry carries it.
pub open spec fn score_of(scores: Seq<(String, u32)>, key: Seq<char>) -> u32
    decreases scores.len(),
{
    if scores.len() == 0 {
        0
    } else if scores[0].0@ == key {
        scores[0].1
    } else {
        score_of(scores.subrange(1, scores.len() as int), key)
    }
}

/// The state of the two walkers: each one's current target valve and the
/// minute it arrives there, the set of valves already opened, and the
/// pressure banked so far.
#[derive(Debug, Clone, PartialEq)]
pub struct ElephantState {
    pub name: String,
    pub minute: u32,
    pub elephant: String,
    pub elephant_minute: u32,
    pub score: u32,
    pub visited: Vec<String>,
}

impl ElephantState {
    /// A fresh state: both walkers at `start`, arriving at minute zero,
    /// nothing opened and nothing banked.
    pub fn starting_at(start: &String) -> (st: ElephantState)
        ensures
            st.name@ == start@,
            st.elephant@ == start@,
            st.minute == 0,
            st.elephant_minute == 0,
            st.score == 0,
            st.visited@.len() == 0,
    {
        ElephantState {
            name: start.clone(),
            minute: 0,
            elephant: start.clone(),
            elephant_minute: 0,
            score: 0,
            visited: Vec::new(),
        }
    }

    /// Whether the valve has not been opened yet.
    pub fn closed(&self, valve: &String) -> (b: bool)
        ensures
            b == !visited_has(self.visited@, valve@),
    {
        let mut i: usize = 0;
        while i < self.visited.len()
            invariant
                i <= self.visited@.len(),
                forall|k: int| 0 <= k < i ==> (#[trigger] self.visited@[k])@ != valve@,
            decreases self.visited@.len() - i,
        {
            if self.visited[i].eq(valve) {
                return false;
            }
            i = i + 1;
        }
        true
    }

    /// Banks the pressure of a walker's valve at its arrival minute: a
    /// walker whose arrival is now and whose valve is still closed opens
    /// it, earning its score for every remaining minute, and moves on one
    /// minute.  The first walker settles before the elephant is looked
    /// at.
    #[verifier::loop_isolation(false)]
    pub fn score(&mut self, until: u32, minute: u32, scores: &Vec<(String, u32)>)
        requires
            minute <= until,
            until <= 0xffff,
            old(self).score + 2 * (until - minute) * 0xffff <= u32::MAX,
            score_of(scores@, old(self).name@) <= 0xffff,
            score_of(scores@, old(self).elephant@) <= 0xffff,
        ensures
            final(self).name == old(self).name,
            final(self).elephant == old(self).elephant,
            ({
                let fires = old(self).minute == minute && !visited_has(
                    old(self).visited@,
                    old(self).name@,
                );
                &&& final(self).minute == (if fires {
                    old(self).minute + 1
                } else {
                    old(self).minute as int
                })
                &&& ({
                    let mid_visited = if fires {
                        old(self).visited@.push(old(self).name)
                    } else {
                        old(self).visited@
                    };
                    let mid_score = if fires {
                        old(self).score + (until - minute) * score_of(scores@, old(self).name@)
                    } else {
                        old(self).score as int
                    };
                    let efires = old(self).elephant_minute == minute && !visited_has(
                        mid_visited,
                        old(self).elephant@,
                    );
                    &&& final(self).elephant_minute == (if efires {
                        old(self).elephant_minute + 1
                    } else {
                        old(self).elephant_minute as int
                    })
                    &&& final(self).visited@ == (if efires {
                        mid_visited.push(old(self).elephant)
                    } else {
                        mid_visited
                    })
                    &&& final(self).score == mid_score + (if efires {
                        (until - minute) * score_of(scores@, old(self).elephant@)
                    } else {
                        0int
                    })
                })
            }),
    {
        // score self
        let name = self.name.clone();
        if minute == self.minute && self.closed(&name) {
            let v = lookup_score(scores, &name);
            proof {
                assert((until - minute) * v <= (until - minute) * 0xffff) by (nonlinear_arith)
                    requires
                        v <= 0xffff,
                        until >= minute,
                {}
            }
            self.score = self.score + (until - minute) * v;
            self.visited.push(name);
            self.minute = self.minute + 1;
        }

        // score elephant
        let elephant = self.elephant.clone();
        if minute == self.elephant_minute && self.closed(&elephant) {
            let v = lookup_score(scores, &elephant);
            proof {
                assert((until - minute) * v <= (until - minute) * 0xffff) by (nonlinear_arith)
                    requires
                        v <= 0xffff,
                        until >= minute,
                {}
            }
            self.score = self.score + (until - minute) * v;
            self.visited.push(elephant);
            self.elephant_minute = self.elephant_minute + 1;
        }
    }
}

/// The score stored beside the first entry named `key`, or zero.
fn lookup_score(scores: &Vec<(String, u32)>, key: &String) -> (r: u32)
    ensures
        r == score_of(scores@, key@),
{
    let mut i: usize = 0;
    proof {
        assert(scores@.subrange(0, scores@.len() as int) =~= scores@);
    }
    while i < scores.len()
        invariant
            i <= scores@.len(),
            score_of(scores@, key@) == score_of(scores@.subrange(i as int, scores@.len() as int), key@),
        decreases scores@.len() - i,
    {
        let hit = scores[i].0.eq(key);
        proof {
            let tail = scores@.subrange(i as int, scores@.len() as int);
            assert(tail[0] == scores@[i as int]);
            assert(tail.subrange(1, tail.len() as int) =~= scores@.subrange(
                i + 1,
                scores@.len() as int,
            ));
        }
        if hit {
            return scores[i].1;
        }
        i = i + 1;
    }
    proof {
        assert(scores@.subrange(scores@.len() as int, scores@.len() as int).len() == 0);
    }
    0
}

} // verus!
