//! Balanced base-five numerals: digits worth -2 to 2, written with the
//! glyphs `=`, `-`, `0`, `1`, `2`, most significant first.

use vstd::prelude::*;

verus! {

use vstd::arithmetic::div_mod::{
    lemma_fundamental_div_mod, lemma_fundamental_div_mod_converse_div,
};

/// Powers of five.
pub open spec fn pow5(k: nat) -> int
    decreases k,
{
    if k == 0 {
        1
    } else {
        5 * pow5((k - 1) as nat)
    }
}

/// The value of a digit string, most significant first.
pub open spec fn snafu_val(s: Seq<i64>) -> int
    decreases s.len(),
{
    if s.len() == 0 {
        0
    } else {
        snafu_val(s.drop_last()) * 5 + s.last()
    }
}

/// The value of a digit string, least significant first.
pub open spec fn snafu_val_lsb(s: Seq<i64>) -> int
    decreases s.len(),
{
    if s.len() == 0 {
        0
    } else {
        s[0] + 5 * snafu_val_lsb(s.drop_first())
    }
}

/// The value a glyph stands for.
pub open spec fn char_val(c: char) -> int {
    if c == '=' {
        -2
    } else if c == '-' {
        -1
    } else if c == '0' {
        0
    } else if c == '1' {
        1
    } else {
        2
    }
}

/// The glyph of a digit value.
pub open spec fn glyph_of(d: int) -> char {
    if d == -2 {
        '='
    } else if d == -1 {
        '-'
    } else if d == 0 {
        '0'
    } else if d == 1 {
        '1'
    } else {
        '2'
    }
}

/// The value of a glyph string, most significant first.
pub open spec fn snafu_chars_val(s: Seq<char>) -> int
    decreases s.len(),
{
    if s.len() == 0 {
        0
    } else {
        snafu_chars_val(s.drop_last()) * 5 + char_val(s.last())
    }
}

/// Whether every digit is balanced: worth -2 to 2.
pub open spec fn balanced(s: Seq<i64>) -> bool {
    forall|i: int| 0 <= i < s.len() ==> -2 <= #[trigger] s[i] <= 2
}

proof fn lemma_pow5_pos(k: nat)
    ensures
        pow5(k) >= 1,
    decreases k,
{
    if k > 0 {
        lemma_pow5_pos((k - 1) as nat);
    }
}

proof fn lemma_pow5_le(j: nat, k: nat)
    requires
        j <= k,
    ensures
        pow5(j) <= pow5(k),
    decreases k,
{
    lemma_pow5_pos(j);
    if j < k {
        lemma_pow5_le(j, (k - 1) as nat);
        lemma_pow5_pos((k - 1) as nat);
    }
}

/// A balanced digit string of length `n` is worth less than half of
/// `pow5(n)` in absolute value.
proof fn lemma_snafu_val_bound(s: Seq<i64>)
    requires
        balanced(s),
    ensures
        -(pow5(s.len()) - 1) <= 2 * snafu_val(s) <= pow5(s.len()) - 1,
    decreases s.len(),
{
    if s.len() > 0 {
        assert(balanced(s.drop_last()));
        lemma_snafu_val_bound(s.drop_last());
    }
}

/// A balanced digit string of length `n` read least significant first is
/// also worth less than half of `pow5(n)` in absolute value.
proof fn lemma_lsb_val_bound(s: Seq<i64>)
    requires
        balanced(s),
    ensures
        -(pow5(s.len()) - 1) <= 2 * snafu_val_lsb(s) <= pow5(s.len()) - 1,
    decreases s.len(),
{
    if s.len() > 0 {
        assert(balanced(s.drop_first()));
        lemma_lsb_val_bound(s.drop_first());
        assert(pow5(s.len()) == 5 * pow5((s.len() - 1) as nat));
    }
}

/// The digit-by-digit value of a glyph string that spells a digit string
/// backwards.
proof fn lemma_glyphs_value(s: Seq<char>, digs: Seq<i64>)
    requires
        s.len() == digs.len(),
        balanced(digs),
        forall|j: int| 0 <= j < s.len() ==> #[trigger] s[j] == glyph_of(digs[s.len() - 1 - j] as int),
    ensures
        snafu_chars_val(s) == snafu_val_lsb(digs),
    decreases s.len(),
{
    if s.len() > 0 {
        let st = s.drop_last();
        let dt = digs.drop_first();
        assert(balanced(dt));
        assert forall|j: int| 0 <= j < st.len() implies #[trigger] st[j] == glyph_of(
            dt[st.len() - 1 - j] as int,
        ) by {
            assert(st[j] == s[j]);
            assert(dt[st.len() - 1 - j] == digs[s.len() - 1 - j]);
        }
        lemma_glyphs_value(st, dt);
        assert(s.last() == glyph_of(digs[0] as int));
    }
}

/// The numeric value of a balanced digit string, most significant digit
/// first.
#[verifier::loop_isolation(false)]
pub fn snafu_to_number(nums: &Vec<i64>) -> (r: i64)
    requires
        balanced(nums@),
        nums@.len() <= 27,
    ensures
        r == snafu_val(nums@),
{
    proof {
        assert(pow5(27) == 7450580596923828125) by {
            reveal_with_fuel(pow5, 28);
        }
        assert(nums@.subrange(0, 0) =~= Seq::<i64>::empty());
    }
    let mut sum: i64 = 0;
    let mut i: usize = 0;
    while i < nums.len()
        invariant
            i <= nums@.len(),
            sum == snafu_val(nums@.subrange(0, i as int)),
            -(pow5(i as nat) - 1) <= 2 * sum <= pow5(i as nat) - 1,
        decreases nums@.len() - i,
    {
        proof {
            let pre = nums@.subrange(0, i as int);
            let cur = nums@.subrange(0, i + 1);
            assert(cur.drop_last() =~= pre);
            assert(balanced(cur));
            lemma_snafu_val_bound(cur);
            lemma_pow5_le((i + 1) as nat, 27);
        }
        sum = sum * 5 + nums[i];
        i = i + 1;
    }
    proof {
        assert(nums@.subrange(0, nums@.len() as int) =~= nums@);
    }
    sum
}

/// The balanced numeral of a positive number, as a glyph string; zero and
/// negative numbers give the empty string.
#[verifier::loop_isolation(false)]
pub fn number_to_snafu(num: i64) -> (out: String)
    requires
        num <= i64::MAX - 2,
    ensures
        num <= 0 ==> out@.len() == 0,
        num > 0 ==> snafu_chars_val(out@) == num && out@.len() >= 1 && char_val(out@[0]) != 0,
        num <= 3725290298461914062 ==> out@.len() <= 27,
        forall|j: int|
            0 <= j < out@.len() ==> {
                let c = #[trigger] out@[j];
                c == '=' || c == '-' || c == '0' || c == '1' || c == '2'
            },
{
    if num <= 0 {
        return String::new();
    }
    let mut remainder: i64 = num;
    let mut digs: Vec<i64> = Vec::new();
    while remainder > 0
        invariant
            0 <= remainder <= i64::MAX - 2,
            balanced(digs@),
            num == snafu_val_lsb(digs@) + remainder * pow5(digs@.len() as nat),
            digs@.len() > 0 && remainder == 0 ==> digs@.last() != 0,
            num > 0 && remainder == 0 ==> digs@.len() > 0,
            num <= 3725290298461914062 ==> digs@.len() <= 27,
        decreases remainder,
    {
        let x = remainder;
        let m: i64 = x % 5;
        let d: i64 = if m <= 2 {
            m
        } else {
            m - 5
        };
        let next: i64 = (x + 2) / 5;
        proof {
            lemma_fundamental_div_mod(x as int, 5);
            let q = x as int / 5;
            if m <= 2 {
                lemma_fundamental_div_mod_converse_div(x + 2, 5, q, m + 2);
            } else {
                lemma_fundamental_div_mod_converse_div(x + 2, 5, q + 1, m - 3);
            }
            assert(x == d + 5 * next);
            // the digit extends the numeral at the next power of five
            let olddigs = digs@;
            let newdigs = digs@.push(d);
            lemma_lsb_push(olddigs, d);
            assert(pow5((olddigs.len() + 1) as nat) == 5 * pow5(olddigs.len() as nat));
            assert(x * pow5(olddigs.len() as nat) == d * pow5(olddigs.len() as nat) + next * (5
                * pow5(olddigs.len() as nat))) by (nonlinear_arith)
                requires
                    x == d + 5 * next,
            {}
            // when the quotient ends the loop, the digit cannot be zero
            if next == 0 {
                assert(x <= 2);
            }
            // a number no larger than the worth of 27 digits never needs a
            // 28th: with a digit still to come the value already exceeds it
            if num <= 3725290298461914062 && olddigs.len() >= 27 {
                lemma_lsb_val_bound(olddigs);
                lemma_pow5_pos(olddigs.len());
                lemma_pow5_le(27, olddigs.len());
                assert(pow5(27) == 7450580596923828125) by {
                    reveal_with_fuel(pow5, 28);
                }
                let p = pow5(olddigs.len());
                assert((x as int) * p >= p) by (nonlinear_arith)
                    requires
                        x >= 1,
                        p >= 1,
                {}
                assert(false);
            }
        }
        digs.push(d);
        remainder = next;
    }

    let mut out = String::new();
    let mut k: usize = digs.len();
    while k > 0
        invariant
            k <= digs@.len(),
            balanced(digs@),
            out@.len() == digs@.len() - k,
            forall|j: int|
                0 <= j < out@.len() ==> #[trigger] out@[j] == glyph_of(
                    digs@[digs@.len() - 1 - j] as int,
                ),
        decreases k,
    {
        k = k - 1;
        let d = digs[k];
        if d == -2 {
            proof {
                reveal_strlit("=");
            }
            out.append("=");
        } else if d == -1 {
            proof {
                reveal_strlit("-");
            }
            out.append("-");
        } else if d == 0 {
            proof {
                reveal_strlit("0");
            }
            out.append("0");
        } else if d == 1 {
            proof {
                reveal_strlit("1");
            }
            out.append("1");
        } else {
            proof {
                reveal_strlit("2");
            }
            out.append("2");
        }
    }
    proof {
        lemma_glyphs_value(out@, digs@);
        if num > 0 {
            assert(out@[0] == glyph_of(digs@[digs@.len() - 1] as int));
        }
    }
    out
}

/// Appending a digit adds its worth at the next power of five.
proof fn lemma_lsb_push(s: Seq<i64>, d: i64)
    ensures
        snafu_val_lsb(s.push(d)) == snafu_val_lsb(s) + d * pow5(s.len()),
    decreases s.len(),
{
    let sp = s.push(d);
    if s.len() == 0 {
        assert(sp.len() == 1);
        assert(sp[0] == d);
        assert(sp.drop_first() =~= Seq::<i64>::empty());
        assert(snafu_val_lsb(sp) == d + 5 * snafu_val_lsb(sp.drop_first()));
        assert(pow5(0) == 1);
        assert(d * pow5(s.len()) == d) by (nonlinear_arith)
            requires
                pow5(s.len()) == 1,
        {}
    } else {
        assert(sp.drop_first() =~= s.drop_first().push(d));
        lemma_lsb_push(s.drop_first(), d);
        assert(sp[0] == s[0]);
        assert(snafu_val_lsb(sp) == sp[0] + 5 * snafu_val_lsb(sp.drop_first()));
        assert(snafu_val_lsb(s) == s[0] + 5 * snafu_val_lsb(s.drop_first()));
        assert(pow5(s.len() as nat) == 5 * pow5((s.len() - 1) as nat));
        assert(d * pow5(s.len() as nat) == 5 * (d * pow5((s.len() - 1) as nat)))
            by (nonlinear_arith)
            requires
                pow5(s.len() as nat) == 5 * pow5((s.len() - 1) as nat),
        {}
    }
}

} // verus!
