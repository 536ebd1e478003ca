//! Pairs of section ranges: whether one range of a pair swallows the
//! other, and whether the two touch at all.

use vstd::prelude::*;

verus! {

/// Whether a parsed pair is two ranges of two numbers each.
pub open spec fn two_ranges(ranges: Seq<Vec<usize>>) -> bool {
    ranges.len() >= 2 && ranges[0]@.len() >= 2 && ranges[1]@.len() >= 2
}

/// Whether either range of the pair contains the other end to end.
pub open spec fn contains_other(ranges: Seq<Vec<usize>>) -> bool {
    let from = ranges[0]@[0];
    let to = ranges[0]@[1];
    let other_from = ranges[1]@[0];
    let other_to = ranges[1]@[1];
    (from >= other_from && to <= other_to) || (other_from >= from && other_to <= to)
}

/// Whether the two ranges of the pair share at least one section.
pub open spec fn overlaps_other(ranges: Seq<Vec<usize>>) -> bool {
    let from = ranges[0]@[0];
    let to = ranges[0]@[1];
    let other_from = ranges[1]@[0];
    let other_to = ranges[1]@[1];
    from <= to && other_from <= other_to && from <= other_to && other_from <= to
}

/// Whether either range of the pair contains the other.
pub fn contain_other(ranges: &Vec<Vec<usize>>) -> (b: bool)
    requires
        two_ranges(ranges@),
    ensures
        b == contains_other(ranges@),
{
    let first = &ranges[0];
    let second = &ranges[1];
    let from = first[0];
    let to = first[1];
    let other_from = second[0];
    let other_to = second[1];

    if from >= other_from && to <= other_to {
        return true;
    }
    if other_from >= from && other_to <= to {
        return true;
    }

    false
}

/// Whether the two ranges of the pair overlap: each is read as the
/// inclusive span from its first to its second number.
pub fn overlap_other(ranges: &Vec<Vec<usize>>) -> (b: bool)
    requires
        two_ranges(ranges@),
    ensures
        b == overlaps_other(ranges@),
{
    let first = &ranges[0];
    let second = &ranges[1];
    let from = first[0];
    let to = first[1];
    let other_from = second[0];
    let other_to = second[1];

    from <= to && other_from <= other_to && from <= other_to && other_from <= to
}

} // verus!
