//! Mixing a circular list of numbers: each number moves by its own value,
//! with index arithmetic that wraps around the list.

use vstd::prelude::*;

verus! {

use vstd::arithmetic::div_mod::{
    lemma_fundamental_div_mod, lemma_fundamental_div_mod_converse_mod,
    lemma_mod_add_multiples_vanish, lemma_mod_multiples_basic, lemma_mod_self_0, lemma_small_mod,
};

/// The index a moved number lands on: the raw target `idx + offset`,
/// wrapped into the list when it falls off either end.
pub open spec fn new_index_spec(len: int, idx: int, offset: int) -> int {
    let ni = idx + offset;
    if ni <= 0 {
        (ni - 1) % len
    } else if ni >= len {
        (ni + 1) % len
    } else {
        ni
    }
}

/// Euclidean remainder: the representative of `a` modulo `n` in
/// `[0, n)`, whatever the sign of `a`.
pub fn mod_floor(a: i32, n: i32) -> (r: i32)
    requires
        1 <= n <= 0x3fff_ffff,
    ensures
        r as int == (a as int) % (n as int),
{
    let rem: i32 = a % n;
    proof {
        let ai = a as int;
        let ni = n as int;
        let e = ai % ni;
        if a >= 0 {
            lemma_small_mod(e as nat, ni as nat);
            lemma_mod_add_multiples_vanish(e, ni);
        } else {
            let u = (-ai) % ni;
            lemma_fundamental_div_mod(-ai, ni);
            let q = (-ai) / ni;
            if u == 0 {
                assert(ai == (-q) * ni) by (nonlinear_arith)
                    requires
                        -ai == ni * q + u,
                        u == 0,
                {}
                lemma_mod_multiples_basic(-q, ni);
                lemma_mod_self_0(ni);
            } else {
                assert(ai == ni * (-q - 1) + (ni - u)) by (nonlinear_arith)
                    requires
                        -ai == ni * q + u,
                {}
                lemma_fundamental_div_mod_converse_mod(ai, ni, -q - 1, ni - u);
                lemma_small_mod((ni - u) as nat, ni as nat);
            }
        }
    }
    (rem + n) % n
}

/// Where the number at `idx` lands when moved by `offset` in a list of
/// length `len`.
pub fn new_index(len: i32, idx: i32, offset: i32) -> (r: i32)
    requires
        1 <= len <= 0x2000_0000,
        -0x2000_0000 <= idx <= 0x2000_0000,
        -0x2000_0000 <= offset <= 0x2000_0000,
    ensures
        r as int == new_index_spec(len as int, idx as int, offset as int),
{
    let new_idx = idx + offset;
    if new_idx <= 0 {
        return mod_floor(new_idx - 1, len);
    }
    if new_idx >= len {
        return (new_idx + 1) % len;
    }
    new_idx
}

/// Moves the element at `from` so that it ends up at index `to`, shifting
/// the elements in between by one place.
pub fn update(acc: &mut Vec<i32>, from: usize, to: usize)
    requires
        from < old(acc)@.len(),
        to < old(acc)@.len(),
    ensures
        final(acc)@ == (if from == to {
            old(acc)@
        } else {
            old(acc)@.remove(from as int).insert(to as int, old(acc)@[from as int])
        }),
{
    if from == to {
        return ;
    }
    let num = acc.remove(from);
    acc.insert(to, num);
}

/// The first index of `v` in `s` at or after `i`, or the length when it
/// never occurs.
pub open spec fn first_index_from(s: Seq<i32>, v: i32, i: int) -> int
    decreases s.len() - i,
{
    if i < 0 || i >= s.len() {
        s.len() as int
    } else if s[i] == v {
        i
    } else {
        first_index_from(s, v, i + 1)
    }
}

/// One number's move: it leaves its current position and re-enters at
/// the wrapped target index.
pub open spec fn mix_step(acc: Seq<i32>, num: i32) -> Seq<i32> {
    let idx = first_index_from(acc, num, 0);
    if idx >= acc.len() {
        acc
    } else {
        let ni = new_index_spec(acc.len() as int, idx, num as int);
        if ni == idx {
            acc
        } else {
            acc.remove(idx).insert(ni, num)
        }
    }
}

/// The list after the first `i` numbers have moved, in input order.
pub open spec fn mix_upto(numbers: Seq<i32>, i: int) -> Seq<i32>
    decreases i,
{
    if i <= 0 {
        numbers
    } else {
        mix_step(mix_upto(numbers, i - 1), numbers[i - 1])
    }
}

/// The groove coordinates: after the full mix, the numbers 1000, 2000
/// and 3000 places after the zero, summed.
pub open spec fn groove_spec(numbers: Seq<i32>) -> int {
    let res = mix_upto(numbers, numbers.len() as int);
    let z = first_index_from(res, 0, 0);
    let n = res.len() as int;
    res[(z + 1000) % n] + res[(z + 2000) % n] + res[(z + 3000) % n]
}

/// Inserting an element adds one occurrence to the contents.
proof fn lemma_insert_to_multiset(s: Seq<i32>, j: int, v: i32)
    requires
        0 <= j <= s.len(),
    ensures
        s.insert(j, v).to_multiset() =~= s.to_multiset().insert(v),
{
    let si = s.insert(j, v);
    let a = s.subrange(0, j);
    let b = s.subrange(j, s.len() as int);
    assert(si =~= a.push(v) + b);
    assert(s =~= a + b);
    vstd::seq_lib::lemma_multiset_commutative(a.push(v), b);
    vstd::seq_lib::lemma_multiset_commutative(a, b);
    a.to_multiset_ensures();
}

/// The first index a search loop stops at is the spec's first index.
proof fn lemma_first_index(s: Seq<i32>, v: i32, idx: int, i: int)
    requires
        0 <= i <= idx <= s.len(),
        forall|k: int| i <= k < idx ==> s[k] != v,
        idx < s.len() ==> s[idx] == v,
        idx == s.len() ==> forall|k: int| i <= k < s.len() ==> s[k] != v,
    ensures
        first_index_from(s, v, i) == idx,
    decreases idx - i,
{
    if i < idx {
        lemma_first_index(s, v, idx, i + 1);
    }
}

/// The first index of `num` in `acc`, which must occur.
#[verifier::loop_isolation(false)]
fn position_of(acc: &Vec<i32>, num: i32) -> (idx: usize)
    requires
        acc@.contains(num),
    ensures
        idx < acc@.len(),
        acc@[idx as int] == num,
        first_index_from(acc@, num, 0) == idx,
{
    let mut k: usize = 0;
    while k < acc.len()
        invariant
            k <= acc@.len(),
            forall|k2: int| 0 <= k2 < k ==> acc@[k2] != num,
        decreases acc@.len() - k,
    {
        if acc[k] == num {
            proof {
                lemma_first_index(acc@, num, k as int, 0);
            }
            return k;
        }
        k = k + 1;
    }
    proof {
        let w = choose|w: int| 0 <= w < acc@.len() && acc@[w] == num;
        assert(false);
    }
    0
}

/// Mixes the whole list once and sums the three groove coordinates.
#[verifier::loop_isolation(false)]
#[verifier::rlimit(30)]
pub fn day20a(numbers: &Vec<i32>) -> (r: i32)
    requires
        1 <= numbers@.len() <= 0x2000_0000,
        numbers@.contains(0),
        forall|k: int| 0 <= k < numbers@.len() ==> -0x2000_0000 <= #[trigger] numbers@[k]
            <= 0x2000_0000,
    ensures
        r == groove_spec(numbers@),
{
    broadcast use vstd::seq_lib::group_to_multiset_ensures;

    let mut acc: Vec<i32> = Vec::new();
    let mut i: usize = 0;
    while i < numbers.len()
        invariant
            i <= numbers@.len(),
            acc@ =~= numbers@.subrange(0, i as int),
        decreases numbers@.len() - i,
    {
        acc.push(numbers[i]);
        i = i + 1;
    }
    proof {
        assert(acc@ =~= numbers@);
        assert(acc@ == mix_upto(numbers@, 0));
    }

    let mut j: usize = 0;
    while j < numbers.len()
        invariant
            j <= numbers@.len(),
            acc@ == mix_upto(numbers@, j as int),
            acc@.to_multiset() == numbers@.to_multiset(),
            acc@.len() == numbers@.len(),
        decreases numbers@.len() - j,
    {
        let num = numbers[j];
        proof {
            assert(numbers@.contains(num));
            assert(numbers@.to_multiset().count(num) > 0);
            assert(acc@.contains(num));
        }
        let idx = position_of(&acc, num);
        let ghost old_acc = acc@;
        let new_idx = new_index(acc.len() as i32, idx as i32, num);
        proof {
            assert(0 <= new_index_spec(acc@.len() as int, idx as int, num as int)
                < acc@.len());
        }
        update(&mut acc, idx, new_idx as usize);
        proof {
            if idx != new_idx as usize {
                assert(acc@ == old_acc.remove(idx as int).insert(
                    new_idx as int,
                    old_acc[idx as int],
                ));
                assert(old_acc.remove(idx as int).to_multiset() =~= old_acc.to_multiset().remove(
                    num,
                ));
                lemma_insert_to_multiset(old_acc.remove(idx as int), new_idx as int, num);
                assert(acc@.to_multiset() =~= old_acc.to_multiset());
            }
            assert(acc@ == mix_step(old_acc, num));
        }
        j = j + 1;
    }

    proof {
        assert(acc@.to_multiset().count(0i32) > 0);
        assert(acc@.contains(0));
    }
    let zero_idx = position_of(&acc, 0);
    let n = acc.len();
    let a1 = acc[(zero_idx + 1000) % n];
    let a2 = acc[(zero_idx + 2000) % n];
    let a3 = acc[(zero_idx + 3000) % n];
    proof {
        assert forall|k: int| 0 <= k < acc@.len() implies -0x2000_0000 <= #[trigger] acc@[k]
            <= 0x2000_0000 by {
            assert(acc@.contains(acc@[k]));
            assert(acc@.to_multiset().count(acc@[k]) > 0);
            assert(numbers@.to_multiset().count(acc@[k]) > 0);
            assert(numbers@.contains(acc@[k]));
            let w = choose|w: int| 0 <= w < numbers@.len() && numbers@[w] == acc@[k];
            assert(numbers@[w] == acc@[k]);
        }
    }
    a1 + a2 + a3
}

} // verus!
