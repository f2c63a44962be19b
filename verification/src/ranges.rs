//! Inclusive ranges of observed values (ranks, elapsed times).

use vstd::prelude::*;

verus! {

/// An inclusive range of unsigned values, used to report the span of observed
/// ranks and elapsed times over a set of trials.
#[derive(Clone, Copy, Debug, PartialEq, Eq, Structural)]
pub struct ValueRange {
    pub start: u64,
    pub end: u64,
}

/// What `extend_range` returns: the range widened just enough to cover `value`.
pub open spec fn extend_range_spec(range: ValueRange, value: u64) -> ValueRange {
    if value < range.start {
        ValueRange { start: value, end: range.end }
    } else if value > range.end {
        ValueRange { start: range.start, end: value }
    } else {
        range
    }
}

/// Widens `range` just enough so that it covers `value`.
pub fn extend_range(range: ValueRange, value: u64) -> (r: ValueRange)
    ensures
        r == extend_range_spec(range, value),
        range.start <= range.end ==> r.start <= value <= r.end,
{
    if value < range.start {
        ValueRange { start: value, end: range.end }
    } else if value > range.end {
        ValueRange { start: range.start, end: value }
    } else {
        range
    }
}

/// Covers both arguments: least start, greatest end.
pub fn combine_ranges(range1: &ValueRange, range2: &ValueRange) -> (r: ValueRange)
    ensures
        r.start == if range1.start <= range2.start { range1.start } else { range2.start },
        r.end == if range1.end >= range2.end { range1.end } else { range2.end },
{
    let start = if range1.start <= range2.start { range1.start } else { range2.start };
    let end = if range1.end >= range2.end { range1.end } else { range2.end };
    ValueRange { start, end }
}

/// The inclusive min..max span of a non-empty sequence of values.
pub open spec fn range_of_seq(s: Seq<u64>) -> ValueRange
    recommends s.len() > 0,
    decreases s.len(),
{
    if s.len() <= 1 {
        ValueRange { start: s[0], end: s[0] }
    } else {
        extend_range_spec(range_of_seq(s.drop_last()), s.last())
    }
}

/// `range_of_seq` is exactly the least and greatest element of the sequence.
pub proof fn lemma_range_of_seq_min_max(s: Seq<u64>)
    requires
        s.len() > 0,
    ensures
        forall|i: int| 0 <= i < s.len() ==> range_of_seq(s).start <= #[trigger] s[i] <= range_of_seq(s).end,
        exists|i: int| 0 <= i < s.len() && #[trigger] s[i] == range_of_seq(s).start,
        exists|i: int| 0 <= i < s.len() && #[trigger] s[i] == range_of_seq(s).end,
    decreases s.len(),
{
    if s.len() > 1 {
        lemma_range_of_seq_min_max(s.drop_last());
        let prev = range_of_seq(s.drop_last());
        assert(forall|i: int| 0 <= i < s.len() - 1 ==> s.drop_last()[i] == #[trigger] s[i]);
        if s.last() < prev.start {
            assert(s[s.len() - 1] == range_of_seq(s).start);
            let j = choose|j: int| 0 <= j < s.len() - 1 && #[trigger] s.drop_last()[j] == prev.end;
            assert(s[j] == range_of_seq(s).end);
        } else if s.last() > prev.end {
            assert(s[s.len() - 1] == range_of_seq(s).end);
            let j = choose|j: int| 0 <= j < s.len() - 1 && #[trigger] s.drop_last()[j] == prev.start;
            assert(s[j] == range_of_seq(s).start);
        } else {
            let j = choose|j: int| 0 <= j < s.len() - 1 && #[trigger] s.drop_last()[j] == prev.start;
            assert(s[j] == range_of_seq(s).start);
            let k = choose|k: int| 0 <= k < s.len() - 1 && #[trigger] s.drop_last()[k] == prev.end;
            assert(s[k] == range_of_seq(s).end);
        }
    }
}

/// The min..max span of the given values, or `None` if there are none.
pub fn get_range(values: &Vec<u64>) -> (r: Option<ValueRange>)
    ensures
        values@.len() == 0 ==> r is None,
        values@.len() > 0 ==> r == Some(range_of_seq(values@)),
{
    if values.len() == 0 {
        None
    } else {
        let mut range = ValueRange { start: values[0], end: values[0] };
        let mut i: usize = 1;
        assert(range == range_of_seq(values@.take(1)));
        while i < values.len()
            invariant
                1 <= i <= values@.len(),
                range == range_of_seq(values@.take(i as int)),
            decreases values@.len() - i,
        {
            range = extend_range(range, values[i]);
            proof {
                assert(values@.take(i + 1).drop_last() =~= values@.take(i as int));
                assert(values@.take(i + 1).last() == values@[i as int]);
            }
            i = i + 1;
        }
        proof {
            assert(values@.take(values@.len() as int) =~= values@);
        }
        Some(range)
    }
}

} // verus!
