//! Rucksack priorities: each line's two halves share items, and every
//! distinct shared item scores its priority — lower case worth 1 to 26,
//! upper case 27 to 52.  Lines also come in groups of three sharing a
//! badge item.

use vstd::prelude::*;

verus! {

/// Whether the character is an item letter.
pub open spec fn is_letter(c: char) -> bool {
    ('a' <= c && c <= 'z') || ('A' <= c && c <= 'Z')
}

/// The priority of an item.
pub open spec fn item_score(c: char) -> int {
    if 'a' <= c && c <= 'z' {
        c as int - 96
    } else {
        c as int - 38
    }
}

/// The summed priorities of the distinct items of `h1` (from index `i`
/// on, skipping repeats of earlier items) that also occur in `h2` and
/// `h3`; `h3` may be the first half itself to express a two-way overlap.
pub open spec fn common_score(h1: Seq<char>, h2: Seq<char>, h3: Seq<char>, i: int) -> int
    decreases h1.len() - i,
{
    if i < 0 || i >= h1.len() {
        0
    } else {
        (if h2.contains(h1[i]) && h3.contains(h1[i]) && !h1.subrange(0, i).contains(h1[i]) {
            item_score(h1[i])
        } else {
            0
        }) + common_score(h1, h2, h3, i + 1)
    }
}

/// The overlap score of one line: its halves' distinct shared items.
pub open spec fn line_score(l: Seq<char>) -> int {
    common_score(
        l.subrange(0, l.len() as int / 2),
        l.subrange(l.len() as int / 2, l.len() as int),
        l.subrange(l.len() as int / 2, l.len() as int),
        0,
    )
}

/// The summed overlap scores of the lines from `j` on.
pub open spec fn total_scores_from(lines: Seq<String>, j: int) -> int
    decreases lines.len() - j,
{
    if j < 0 || j >= lines.len() {
        0
    } else {
        line_score(lines[j]@) + total_scores_from(lines, j + 1)
    }
}

/// The badge score of one group of three lines: the distinct items the
/// three share.
pub open spec fn group_score(a: Seq<char>, b: Seq<char>, c: Seq<char>) -> int {
    common_score(a, b, c, 0)
}

/// The summed badge scores of the three-line groups from `j` on.
pub open spec fn total_groups_from(lines: Seq<String>, j: int) -> int
    decreases lines.len() - j,
{
    if j < 0 || j + 3 > lines.len() {
        0
    } else {
        group_score(lines[j]@, lines[j + 1]@, lines[j + 2]@) + total_groups_from(lines, j + 3)
    }
}

/// Letter priorities fit between 1 and 52, so an overlap score is at most
/// 52 per item considered.
proof fn lemma_common_score_bound(h1: Seq<char>, h2: Seq<char>, h3: Seq<char>, i: int)
    requires
        forall|k: int| 0 <= k < h1.len() ==> is_letter(#[trigger] h1[k]),
    ensures
        0 <= common_score(h1, h2, h3, i) <= 52 * (if 0 <= i <= h1.len() {
            h1.len() - i
        } else {
            h1.len() as int
        }),
    decreases h1.len() - i,
{
    if 0 <= i < h1.len() {
        lemma_common_score_bound(h1, h2, h3, i + 1);
    } else if i < 0 {
        lemma_common_score_bound(h1, h2, h3, 0);
    }
}

fn seq_has(v: &Vec<char>, c: char) -> (b: bool)
    ensures
        b == v@.contains(c),
{
    let mut i: usize = 0;
    while i < v.len()
        invariant
            i <= v@.len(),
            forall|k: int| 0 <= k < i ==> v@[k] != c,
        decreases v@.len() - i,
    {
        if v[i] == c {
            return true;
        }
        i = i + 1;
    }
    false
}

/// The characters of `line` from index `from` up to `to`.
#[verifier::loop_isolation(false)]
fn chars_between(line: &str, from: usize, to: usize) -> (v: Vec<char>)
    requires
        from <= to <= line@.len(),
    ensures
        v@ == line@.subrange(from as int, to as int),
{
    let mut v: Vec<char> = Vec::new();
    let mut i: usize = from;
    while i < to
        invariant
            from <= i <= to,
            v@.len() == i - from,
            forall|k: int| 0 <= k < v@.len() ==> v@[k] == line@[from + k],
        decreases to - i,
    {
        v.push(line.get_char(i));
        i = i + 1;
    }
    proof {
        assert(v@ =~= line@.subrange(from as int, to as int));
    }
    v
}

/// The priority of one item letter.
fn score_letter(c: char) -> (s: usize)
    requires
        is_letter(c),
    ensures
        s == item_score(c),
{
    if 'a' <= c && c <= 'z' {
        (c as u32 as usize) - 96
    } else {
        (c as u32 as usize) - 38
    }
}

/// The summed priorities of the distinct items shared by the two halves
/// of `h1` and `h2` and also found in `h3`.
#[verifier::loop_isolation(false)]
fn overlap_score(h1: &Vec<char>, h2: &Vec<char>, h3: &Vec<char>) -> (s: usize)
    requires
        forall|k: int| 0 <= k < h1@.len() ==> is_letter(#[trigger] h1@[k]),
        h1@.len() <= 0xfff,
    ensures
        s == common_score(h1@, h2@, h3@, 0),
        s <= 52 * h1@.len(),
{
    let mut sum: usize = 0;
    let mut i: usize = 0;
    proof {
        lemma_common_score_bound(h1@, h2@, h3@, 0);
    }
    while i < h1.len()
        invariant
            i <= h1@.len(),
            sum + common_score(h1@, h2@, h3@, i as int) == common_score(h1@, h2@, h3@, 0),
            sum <= 52 * i,
        decreases h1@.len() - i,
    {
        let c = h1[i];
        proof {
            lemma_common_score_bound(h1@, h2@, h3@, i + 1);
        }
        if seq_has(h2, c) && seq_has(h3, c) {
            let prefix = chars_prefix(h1, i);
            if !seq_has(&prefix, c) {
                sum = sum + score_letter(c);
            }
        }
        i = i + 1;
    }
    sum
}

/// The first `n` characters of `v`.
fn chars_prefix(v: &Vec<char>, n: usize) -> (p: Vec<char>)
    requires
        n <= v@.len(),
    ensures
        p@ == v@.subrange(0, n as int),
{
    let mut p: Vec<char> = Vec::new();
    let mut i: usize = 0;
    while i < n
        invariant
            i <= n <= v@.len(),
            p@.len() == i,
            forall|k: int| 0 <= k < i ==> p@[k] == v@[k],
        decreases n - i,
    {
        p.push(v[i]);
        i = i + 1;
    }
    proof {
        assert(p@ =~= v@.subrange(0, n as int));
    }
    p
}

/// The summed overlap scores of all lines, each line split in half.
#[verifier::loop_isolation(false)]
pub fn day03a(lines: &Vec<String>) -> (s: usize)
    requires
        forall|j: int, k: int|
            0 <= j < lines@.len() && 0 <= k < (#[trigger] lines@[j])@.len() ==> is_letter(
                #[trigger] lines@[j]@[k],
            ),
        forall|j: int| 0 <= j < lines@.len() ==> (#[trigger] lines@[j])@.len() <= 0xfff,
        lines@.len() <= 0xfff,
    ensures
        s == total_scores_from(lines@, 0),
{
    let mut sum: usize = 0;
    let mut j: usize = 0;
    while j < lines.len()
        invariant
            j <= lines@.len(),
            sum + total_scores_from(lines@, j as int) == total_scores_from(lines@, 0),
            sum <= j * (52 * 0xfff),
        decreases lines@.len() - j,
    {
        let line = lines[j].as_str();
        let half = line.unicode_len() / 2;
        let h1 = chars_between(line, 0, half);
        let h2 = chars_between(line, half, line.unicode_len());
        proof {
            assert(forall|k: int| 0 <= k < h1@.len() ==> is_letter(#[trigger] h1@[k]));
            lemma_total_scores_bound(lines@, j + 1);
        }
        let ls = overlap_score(&h1, &h2, &h2);
        proof {
            assert(j * (52 * 0xfff) + 52 * 0xfff == (j + 1) * (52 * 0xfff)) by (nonlinear_arith) {}
            assert(sum + ls <= (j + 1) * (52 * 0xfff) <= 0xfff * (52 * 0xfff))
                by (nonlinear_arith)
                requires
                    sum <= j * (52 * 0xfff),
                    ls <= 52 * 0xfff,
                    j + 1 <= 0xfff,
            {}
        }
        sum = sum + ls;
        j = j + 1;
    }
    sum
}

/// Suffix totals are non-negative.
proof fn lemma_total_scores_bound(lines: Seq<String>, j: int)
    requires
        forall|j2: int, k: int|
            0 <= j2 < lines.len() && 0 <= k < (#[trigger] lines[j2])@.len() ==> is_letter(
                #[trigger] lines[j2]@[k],
            ),
    ensures
        total_scores_from(lines, j) >= 0,
    decreases lines.len() - j,
{
    if 0 <= j < lines.len() {
        assert(forall|k: int|
            0 <= k < lines[j]@.subrange(0, lines[j]@.len() as int / 2).len() ==> is_letter(
                #[trigger] lines[j]@.subrange(0, lines[j]@.len() as int / 2)[k],
            ));
        lemma_common_score_bound(
            lines[j]@.subrange(0, lines[j]@.len() as int / 2),
            lines[j]@.subrange(lines[j]@.len() as int / 2, lines[j]@.len() as int),
            lines[j]@.subrange(lines[j]@.len() as int / 2, lines[j]@.len() as int),
            0,
        );
        lemma_total_scores_bound(lines, j + 1);
    } else if j < 0 {
        lemma_total_scores_bound(lines, 0);
    }
}

/// The summed badge scores of the three-line groups.
#[verifier::loop_isolation(false)]
pub fn day03b(lines: &Vec<String>) -> (s: usize)
    requires
        forall|j: int, k: int|
            0 <= j < lines@.len() && 0 <= k < (#[trigger] lines@[j])@.len() ==> is_letter(
                #[trigger] lines@[j]@[k],
            ),
        forall|j: int| 0 <= j < lines@.len() ==> (#[trigger] lines@[j])@.len() <= 0xfff,
        lines@.len() <= 0xfff,
        lines@.len() % 3 == 0,
    ensures
        s == total_groups_from(lines@, 0),
{
    let mut sum: usize = 0;
    let mut j: usize = 0;
    while j + 3 <= lines.len()
        invariant
            j <= lines@.len(),
            j % 3 == 0,
            sum + total_groups_from(lines@, j as int) == total_groups_from(lines@, 0),
            sum <= j * (52 * 0xfff),
        decreases lines@.len() - j,
    {
        let a = lines[j].as_str();
        let b = lines[j + 1].as_str();
        let c = lines[j + 2].as_str();
        let va = chars_between(a, 0, a.unicode_len());
        let vb = chars_between(b, 0, b.unicode_len());
        let vc = chars_between(c, 0, c.unicode_len());
        proof {
            assert(va@ =~= lines@[j as int]@);
            assert(vb@ =~= lines@[j + 1]@);
            assert(vc@ =~= lines@[j + 2]@);
            assert(forall|k: int| 0 <= k < va@.len() ==> is_letter(#[trigger] va@[k]));
            lemma_total_groups_bound(lines@, j + 3);
        }
        let gs = overlap_score(&va, &vb, &vc);
        proof {
            assert(j * (52 * 0xfff) + 3 * (52 * 0xfff) == (j + 3) * (52 * 0xfff))
                by (nonlinear_arith) {}
            assert(sum + gs <= (j + 3) * (52 * 0xfff) <= 0xfff * (52 * 0xfff) + 3 * (52 * 0xfff))
                by (nonlinear_arith)
                requires
                    sum <= j * (52 * 0xfff),
                    gs <= 52 * 0xfff,
                    j + 3 <= 0xfff + 3,
            {}
        }
        sum = sum + gs;
        j = j + 3;
    }
    proof {
        assert(total_groups_from(lines@, j as int) == 0);
    }
    sum
}

/// Suffix group totals are non-negative.
proof fn lemma_total_groups_bound(lines: Seq<String>, j: int)
    requires
        forall|j2: int, k: int|
            0 <= j2 < lines.len() && 0 <= k < (#[trigger] lines[j2])@.len() ==> is_letter(
                #[trigger] lines[j2]@[k],
            ),
    ensures
        total_groups_from(lines, j) >= 0,
    decreases lines.len() - j,
{
    if 0 <= j && j + 3 <= lines.len() {
        lemma_common_score_bound(lines[j]@, lines[j + 1]@, lines[j + 2]@, 0);
        lemma_total_groups_bound(lines, j + 3);
    } else if j < 0 {
        lemma_total_groups_bound(lines, 0);
    }
}

} // verus!
