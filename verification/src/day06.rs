//! Finding the start-of-packet marker in a signal: the position just
//! after the first window whose characters are four distinct ones.

use vstd::prelude::*;

verus! {

use vstd::slice::{slice_index_get, slice_subrange};

/// Whether the slice holds exactly four distinct characters.
pub open spec fn four_distinct(s: Seq<char>) -> bool {
    s.to_set().len() == 4
}

/// Whether the window of width `w` starting at `k` holds exactly four
/// distinct characters.
pub open spec fn window_unique(s: Seq<char>, k: int, w: int) -> bool {
    four_distinct(s.subrange(k, k + w))
}

fn has_char(v: &Vec<char>, c: char) -> (b: bool)
    ensures
        b == v@.contains(c),
{
    let mut i: usize = 0;
    while i < v.len()
        invariant
            i <= v@.len(),
            forall|k: int| 0 <= k < i ==> v@[k] != c,
        decreases v@.len() - i,
    {
        if v[i] == c {
            return true;
        }
        i = i + 1;
    }
    false
}

/// Whether the candidate window holds exactly four distinct characters
/// (whatever its length).
#[verifier::loop_isolation(false)]
pub fn is_unique(candidate: &[char]) -> (b: bool)
    ensures
        b == four_distinct(candidate@),
{
    let mut distinct: Vec<char> = Vec::new();
    let n = candidate.len();
    let mut i: usize = 0;
    while i < n
        invariant
            i <= n,
            distinct@.no_duplicates(),
            forall|x: char|
                distinct@.contains(x) <==> candidate@.subrange(0, i as int).contains(x),
        decreases n - i,
    {
        let c = *slice_index_get(candidate, i);
        let ghost old_distinct = distinct@;
        let had = has_char(&distinct, c);
        if !had {
            distinct.push(c);
        }
        proof {
            let pre = candidate@.subrange(0, i as int);
            let cur = candidate@.subrange(0, i + 1);
            assert forall|x: char| distinct@.contains(x) implies cur.contains(x) by {
                if x == c {
                    assert(cur[i as int] == c);
                } else {
                    let k = choose|k: int| 0 <= k < distinct@.len() && distinct@[k] == x;
                    assert(old_distinct[k] == x);
                    assert(old_distinct.contains(x));
                    assert(pre.contains(x));
                    let k2 = choose|k2: int| 0 <= k2 < pre.len() && pre[k2] == x;
                    assert(cur[k2] == x);
                }
            }
            assert forall|x: char| cur.contains(x) implies distinct@.contains(x) by {
                let k = choose|k: int| 0 <= k < cur.len() && cur[k] == x;
                if k < i {
                    assert(pre[k] == x);
                    assert(old_distinct.contains(x));
                    let k3 = choose|k3: int| 0 <= k3 < old_distinct.len() && old_distinct[k3]
                        == x;
                    assert(distinct@[k3] == x);
                } else {
                    assert(x == c);
                    if had {
                        assert(old_distinct.contains(c));
                        let k3 = choose|k3: int|
                            0 <= k3 < old_distinct.len() && old_distinct[k3] == c;
                        assert(distinct@[k3] == c);
                    } else {
                        assert(distinct@[distinct@.len() - 1] == c);
                    }
                }
            }
            assert(distinct@.no_duplicates()) by {
                if !had {
                    assert(forall|k: int|
                        0 <= k < old_distinct.len() ==> distinct@[k] == old_distinct[k]);
                }
            }
        }
        i = i + 1;
    }
    proof {
        assert(candidate@.subrange(0, n as int) =~= candidate@);
        distinct@.unique_seq_to_set();
        assert(distinct@.to_set() =~= candidate@.to_set());
    }
    distinct.len() == 4
}

/// The number of characters that must be read before the first marker is
/// complete: the index of the first window of `window_size` characters
/// that holds exactly four distinct ones, plus the window size — or the
/// full count of windows plus the window size when no window qualifies.
#[verifier::loop_isolation(false)]
pub fn day06a(signal: &str, window_size: usize) -> (r: usize)
    requires
        1 <= window_size,
        signal@.len() + 1 <= usize::MAX,
    ensures
        window_size <= r,
        r - window_size <= (if signal@.len() >= window_size {
            signal@.len() - window_size + 1
        } else {
            0int
        }),
        forall|k: int|
            0 <= k < r - window_size ==> !window_unique(signal@, k, window_size as int),
        r - window_size + window_size <= signal@.len() ==> window_unique(
            signal@,
            r - window_size,
            window_size as int,
        ),
{
    let n = signal.unicode_len();
    let mut chars: Vec<char> = Vec::new();
    let mut i: usize = 0;
    while i < n
        invariant
            i <= n,
            chars@.len() == i,
            forall|k: int| 0 <= k < i ==> chars@[k] == signal@[k],
        decreases n - i,
    {
        chars.push(signal.get_char(i));
        i = i + 1;
    }
    proof {
        assert(chars@ =~= signal@);
    }

    if n < window_size {
        return window_size;
    }

    let mut k: usize = 0;
    while k + window_size <= n
        invariant
            k + window_size <= n + 1,
            forall|k2: int| 0 <= k2 < k ==> !window_unique(signal@, k2, window_size as int),
        decreases n - k,
    {
        let window = slice_subrange(chars.as_slice(), k, k + window_size);
        if is_unique(window) {
            return k + window_size;
        }
        k = k + 1;
    }
    k + window_size
}

} // verus!
