//! Compiles the outcome history of one (start word, target-group) pair into
//! a single comparable statistic: a trimmed-mean score, the ranges of
//! observed ranks and elapsed times, and the error messages seen.

use vstd::prelude::*;

use crate::outcome::BenchResult;
use crate::outcome::result_le;
use crate::outcome::result_le_exec;
use crate::ranges::ValueRange;
use crate::ranges::extend_range;

verus! {

/// Scoring and trimming configuration. `index_equivalent` is the time cost,
/// in nanoseconds, assigned to one unit of rank. The fraction of the
/// sorted trial set to discard before averaging is the rational
/// `drop_numer / drop_denom`, which must be in `[0, 1)`.
#[derive(Debug, Clone, Copy, PartialEq, Eq, Structural)]
pub struct BenchResultCompiler {
    pub index_equivalent: u64,
    pub drop_numer: u64,
    pub drop_denom: u64,
}

/// The score of a trial that found its target at `rank` after `elapsed` ns.
pub open spec fn found_score(index_equivalent: u64, rank: int, elapsed: u64) -> int {
    rank * index_equivalent + elapsed
}

/// The score of an outcome: finite for Found, absent (infinite) otherwise.
pub open spec fn spec_score(index_equivalent: u64, r: BenchResult) -> Option<int> {
    match r.found_index {
        Ok(Some(rank)) => Some(found_score(index_equivalent, rank as int, r.elapsed)),
        _ => None,
    }
}

/// Whether the outcome's score fits the machine word the executable code
/// computes it in.
pub open spec fn score_fits(index_equivalent: u64, r: BenchResult) -> bool {
    match spec_score(index_equivalent, r) {
        Some(s) => s <= u64::MAX,
        None => true,
    }
}

/// Raising the rank by one raises a Found score by exactly
/// `index_equivalent`, whatever the fixed elapsed time.
pub proof fn lemma_score_rank_step(index_equivalent: u64, rank: int, elapsed: u64)
    ensures
        found_score(index_equivalent, rank + 1, elapsed) - found_score(index_equivalent, rank, elapsed)
            == index_equivalent,
{
    assert((rank + 1) * index_equivalent == rank * index_equivalent + index_equivalent)
        by (nonlinear_arith);
}

impl BenchResultCompiler {
    /// Valid configuration: the drop fraction is in `[0, 1)`.
    pub open spec fn valid(&self) -> bool {
        self.drop_numer < self.drop_denom
    }

    pub fn new(index_equivalent: u64, drop_numer: u64, drop_denom: u64) -> (r: BenchResultCompiler)
        requires
            drop_numer < drop_denom,
        ensures
            r == (BenchResultCompiler { index_equivalent, drop_numer, drop_denom }),
            r.valid(),
    {
        BenchResultCompiler { index_equivalent, drop_numer, drop_denom }
    }

    /// The score of one outcome in nanoseconds: `rank * index_equivalent +
    /// elapsed` for a Found outcome, `None` (infinite) otherwise. The score
    /// is finite if and only if the outcome is Found.
    pub fn score(&self, result: &BenchResult) -> (r: Option<u64>)
        requires
            score_fits(self.index_equivalent, *result),
        ensures
            r matches Some(s) ==> spec_score(self.index_equivalent, *result) == Some(s as int),
            r is Some <==> result.spec_is_found(),
    {
        match &result.found_index {
            Ok(Some(rank)) => Some(*rank * self.index_equivalent + result.elapsed),
            _ => None,
        }
    }
}

/// The order trials are sorted in before trimming: ascending score, with
/// infinite (non-Found) scores last; ties broken by the outcome order
/// `result_le`.
pub open spec fn compile_le(index_equivalent: u64, a: BenchResult, b: BenchResult) -> bool {
    match (spec_score(index_equivalent, a), spec_score(index_equivalent, b)) {
        (Some(sa), Some(sb)) => if sa != sb { sa < sb } else { result_le(a, b) },
        (Some(_), None) => true,
        (None, Some(_)) => false,
        (None, None) => result_le(a, b),
    }
}

/// Any two outcomes are comparable under `compile_le`.
pub proof fn lemma_compile_le_connected(index_equivalent: u64, a: BenchResult, b: BenchResult)
    ensures
        compile_le(index_equivalent, a, b) || compile_le(index_equivalent, b, a),
{
    crate::outcome::lemma_result_le_connected(a, b);
}

/// `compile_le` is transitive.
pub proof fn lemma_compile_le_trans(index_equivalent: u64, a: BenchResult, b: BenchResult, c: BenchResult)
    requires
        compile_le(index_equivalent, a, b),
        compile_le(index_equivalent, b, c),
    ensures
        compile_le(index_equivalent, a, c),
{
    if result_le(a, b) && result_le(b, c) {
        crate::outcome::lemma_result_le_trans(a, b, c);
    }
}

/// Sorted in ascending `compile_le` order.
pub open spec fn sorted_by_score(index_equivalent: u64, s: Seq<BenchResult>) -> bool {
    forall|p: int, q: int|
        0 <= p < q < s.len() ==> compile_le(index_equivalent, #[trigger] s[p], #[trigger] s[q])
}

/// Compares two outcomes in the order `compile_le`.
fn compile_le_exec(index_equivalent: u64, a: &BenchResult, b: &BenchResult) -> (r: bool)
    requires
        score_fits(index_equivalent, *a),
        score_fits(index_equivalent, *b),
    ensures
        r == compile_le(index_equivalent, *a, *b),
{
    let cfg = BenchResultCompiler { index_equivalent, drop_numer: 0, drop_denom: 1 };
    let sa = cfg.score(a);
    let sb = cfg.score(b);
    match (sa, sb) {
        (Some(va), Some(vb)) => {
            if va != vb {
                va < vb
            } else {
                result_le_exec(a, b)
            }
        },
        (Some(_), None) => true,
        (None, Some(_)) => false,
        (None, None) => result_le_exec(a, b),
    }
}

/// Sorts outcomes in the order `compile_le`: the result is a permutation of
/// the input, sorted by ascending score.
fn sort_results(index_equivalent: u64, results: &Vec<BenchResult>) -> (sorted: Vec<BenchResult>)
    requires
        forall|i: int| 0 <= i < results@.len() ==> score_fits(index_equivalent, #[trigger] results@[i]),
    ensures
        sorted@.to_multiset() == results@.to_multiset(),
        sorted_by_score(index_equivalent, sorted@),
        sorted@.len() == results@.len(),
        forall|i: int| 0 <= i < sorted@.len() ==> score_fits(index_equivalent, #[trigger] sorted@[i]),
{
    broadcast use vstd::seq_lib::group_to_multiset_ensures;

    let mut sorted: Vec<BenchResult> = Vec::new();
    let mut i: usize = 0;
    proof {
        assert(results@.take(0) =~= Seq::<BenchResult>::empty());
        assert(sorted@.to_multiset() =~= results@.take(0).to_multiset());
    }
    while i < results.len()
        invariant
            i <= results@.len(),
            forall|k: int| 0 <= k < results@.len() ==> score_fits(index_equivalent, #[trigger] results@[k]),
            sorted@.to_multiset() == results@.take(i as int).to_multiset(),
            sorted@.len() == i,
            sorted_by_score(index_equivalent, sorted@),
            forall|k: int| 0 <= k < sorted@.len() ==> score_fits(index_equivalent, #[trigger] sorted@[k]),
        decreases results@.len() - i,
    {
        let r = results[i].clone();
        let mut j: usize = 0;
        while j < sorted.len() && compile_le_exec(index_equivalent, &sorted[j], &r)
            invariant
                j <= sorted@.len(),
                r == results@[i as int],
                i < results@.len(),
                forall|k: int| 0 <= k < results@.len() ==> score_fits(index_equivalent, #[trigger] results@[k]),
                forall|k: int| 0 <= k < sorted@.len() ==> score_fits(index_equivalent, #[trigger] sorted@[k]),
                forall|k: int| 0 <= k < j ==> compile_le(index_equivalent, #[trigger] sorted@[k], results@[i as int]),
            decreases sorted@.len() - j,
        {
            j = j + 1;
        }
        proof {
            if j < sorted@.len() {
                lemma_compile_le_connected(index_equivalent, sorted@[j as int], r);
                assert(compile_le(index_equivalent, r, sorted@[j as int]));
            }
        }
        let ghost old_sorted = sorted@;
        sorted.insert(j, r);
        proof {
            let jj = j as int;
            assert(sorted@ == old_sorted.insert(jj, r));
            assert forall|p: int, q: int| 0 <= p < q < sorted@.len() implies compile_le(
                index_equivalent,
                #[trigger] sorted@[p],
                #[trigger] sorted@[q],
            ) by {
                if p < jj && q == jj {
                    assert(compile_le(index_equivalent, old_sorted[p], r));
                } else if p == jj && q > jj {
                    assert(compile_le(index_equivalent, r, old_sorted[jj]));
                    if jj < q - 1 {
                        assert(compile_le(index_equivalent, old_sorted[jj], old_sorted[q - 1]));
                        lemma_compile_le_trans(index_equivalent, r, old_sorted[jj], old_sorted[q - 1]);
                    }
                } else if p < jj && q > jj {
                    assert(compile_le(index_equivalent, old_sorted[p], old_sorted[q - 1]));
                } else if p > jj {
                    assert(compile_le(index_equivalent, old_sorted[p - 1], old_sorted[q - 1]));
                } else {
                    assert(compile_le(index_equivalent, old_sorted[p], old_sorted[q]));
                }
            }
            vstd::seq_lib::to_multiset_insert(old_sorted, jj, r);
            vstd::seq_lib::to_multiset_build(results@.take(i as int), results@[i as int]);
            assert(results@.take(i + 1) =~= results@.take(i as int).push(results@[i as int]));
            assert(sorted@.to_multiset() == results@.take(i + 1).to_multiset());
        }
        i = i + 1;
    }
    proof {
        assert(results@.take(results@.len() as int) =~= results@);
    }
    sorted
}

/// Whether the outcome is an engine-level error.
pub open spec fn is_errored(r: BenchResult) -> bool {
    r.found_index matches Err(_)
}

/// The error message of an Errored outcome.
pub open spec fn message_of(r: BenchResult) -> Seq<char> {
    match r.found_index {
        Err(m) => m@,
        _ => Seq::<char>::empty(),
    }
}

/// The rank of a Found outcome.
pub open spec fn rank_of(r: BenchResult) -> u64 {
    match r.found_index {
        Ok(Some(rank)) => rank,
        _ => 0,
    }
}

/// The error messages of the Errored outcomes of `s`, in order.
pub open spec fn error_messages(s: Seq<BenchResult>) -> Seq<Seq<char>> {
    s.filter(|r: BenchResult| is_errored(r)).map_values(|r: BenchResult| message_of(r))
}

/// The character sequences held by a vector of strings.
pub open spec fn message_views(errors: Seq<String>) -> Seq<Seq<char>> {
    errors.map_values(|m: String| m@)
}

/// Whether every outcome in `s` is Found.
pub open spec fn all_found(s: Seq<BenchResult>) -> bool {
    forall|i: int| 0 <= i < s.len() ==> (#[trigger] s[i]).spec_is_found()
}

/// The sum of the scores of the Found outcomes of `s`; non-Found outcomes
/// contribute nothing (only used where all outcomes are Found).
pub open spec fn sum_scores(index_equivalent: u64, s: Seq<BenchResult>) -> int
    decreases s.len(),
{
    if s.len() == 0 {
        0
    } else {
        sum_scores(index_equivalent, s.drop_last()) + score_contribution(
            index_equivalent,
            s.last(),
        )
    }
}

/// What one outcome adds to a score sum: its score when Found, nothing
/// otherwise.
pub open spec fn score_contribution(index_equivalent: u64, r: BenchResult) -> int {
    match spec_score(index_equivalent, r) {
        Some(v) => v,
        None => 0,
    }
}

proof fn lemma_sum_scores_remove(index_equivalent: u64, s: Seq<BenchResult>, i: int)
    requires
        0 <= i < s.len(),
    ensures
        sum_scores(index_equivalent, s.remove(i)) == sum_scores(index_equivalent, s)
            - score_contribution(index_equivalent, s[i]),
    decreases s.len(),
{
    if i == s.len() - 1 {
        assert(s.remove(i) =~= s.drop_last());
    } else {
        let t = s.drop_last();
        assert(s.remove(i).drop_last() =~= t.remove(i));
        assert(s.remove(i).last() == s.last());
        lemma_sum_scores_remove(index_equivalent, t, i);
    }
}

/// The sum of scores depends only on which outcomes the history holds, not
/// on their order.
pub proof fn lemma_sum_scores_permutation(
    index_equivalent: u64,
    s1: Seq<BenchResult>,
    s2: Seq<BenchResult>,
)
    requires
        s1.to_multiset() == s2.to_multiset(),
    ensures
        sum_scores(index_equivalent, s1) == sum_scores(index_equivalent, s2),
    decreases s1.len(),
{
    broadcast use vstd::seq_lib::group_to_multiset_ensures;

    if s1.len() == 0 {
        vstd::seq_lib::to_multiset_len(s1);
        vstd::seq_lib::to_multiset_len(s2);
        assert(s2.len() == 0);
    } else {
        let x = s1.last();
        assert(s1.to_multiset().contains(x));
        assert(s2.contains(x));
        let i = choose|i: int| 0 <= i < s2.len() && s2[i] == x;
        vstd::seq_lib::to_multiset_remove(s1, s1.len() - 1);
        vstd::seq_lib::to_multiset_remove(s2, i);
        assert(s1.remove(s1.len() - 1) =~= s1.drop_last());
        assert(s1.drop_last().to_multiset() == s2.remove(i).to_multiset());
        lemma_sum_scores_permutation(index_equivalent, s1.drop_last(), s2.remove(i));
        lemma_sum_scores_remove(index_equivalent, s2, i);
    }
}

/// How many entries are discarded from each end of the sorted trial set of
/// length `n`: `floor(drop_fraction / 2 * n)`.
pub open spec fn drop_count(drop_numer: u64, drop_denom: u64, n: int) -> int {
    (drop_numer * n) / (2 * drop_denom)
}

proof fn lemma_drop_count_bound(drop_numer: u64, drop_denom: u64, n: int)
    requires
        drop_numer < drop_denom,
        n >= 1,
    ensures
        0 <= drop_count(drop_numer, drop_denom, n),
        2 * drop_count(drop_numer, drop_denom, n) < n,
{
    let p = drop_numer * n;
    let q = 2 * (drop_denom as int);
    let d = drop_count(drop_numer, drop_denom, n);
    assert(p >= 0) by (nonlinear_arith)
        requires
            p == drop_numer * n,
            n >= 1;
    vstd::arithmetic::div_mod::lemma_div_pos_is_pos(p, q);
    vstd::arithmetic::div_mod::lemma_fundamental_div_mod(p, q);
    assert(2 * d < n) by (nonlinear_arith)
        requires
            p == q * d + p % q,
            p % q >= 0,
            p == drop_numer * n,
            q == 2 * (drop_denom as int),
            drop_numer < drop_denom,
            n >= 1,
            d >= 0;
}

/// `rg` is exactly the min..max span of the ranks of the Found outcomes of
/// `s`, and is absent exactly when `s` has no Found outcome.
pub open spec fn rank_range_matches(rg: Option<ValueRange>, s: Seq<BenchResult>) -> bool {
    match rg {
        Some(rg) => {
            &&& forall|i: int|
                0 <= i < s.len() && (#[trigger] s[i]).spec_is_found() ==> rg.start <= rank_of(s[i])
                    <= rg.end
            &&& exists|i: int|
                0 <= i < s.len() && (#[trigger] s[i]).spec_is_found() && rank_of(s[i]) == rg.start
            &&& exists|i: int|
                0 <= i < s.len() && (#[trigger] s[i]).spec_is_found() && rank_of(s[i]) == rg.end
        },
        None => forall|i: int| 0 <= i < s.len() ==> !(#[trigger] s[i]).spec_is_found(),
    }
}

/// `rg` is exactly the min..max span of the elapsed times of the Found
/// outcomes of `s`, and is absent exactly when `s` has no Found outcome.
pub open spec fn elapsed_range_matches(rg: Option<ValueRange>, s: Seq<BenchResult>) -> bool {
    match rg {
        Some(rg) => {
            &&& forall|i: int|
                0 <= i < s.len() && (#[trigger] s[i]).spec_is_found() ==> rg.start <= s[i].elapsed
                    <= rg.end
            &&& exists|i: int|
                0 <= i < s.len() && (#[trigger] s[i]).spec_is_found() && s[i].elapsed == rg.start
            &&& exists|i: int|
                0 <= i < s.len() && (#[trigger] s[i]).spec_is_found() && s[i].elapsed == rg.end
        },
        None => forall|i: int| 0 <= i < s.len() ==> !(#[trigger] s[i]).spec_is_found(),
    }
}

/// The statistics compiled from the outcome history of one (start word,
/// target-group) pair. `score` is the trimmed-mean score in nanoseconds,
/// absent when the trimmed set holds any non-Found outcome; the two ranges
/// cover the Found outcomes of the trimmed set; `errors` holds every error
/// message of the whole, untrimmed history.
#[derive(Debug, Clone, PartialEq, Eq)]
pub struct CompiledBenchResult {
    pub score: Option<u64>,
    pub errors: Vec<String>,
    pub found_index: Option<ValueRange>,
    pub elapsed: Option<ValueRange>,
}

/// How `c` is derived from the score-sorted outcome history `sorted`:
/// `drop` entries leave each end, the mean score and the two ranges come
/// from the remaining window, and the error list from the whole history.
pub open spec fn compiled_from_sorted(
    cfg: BenchResultCompiler,
    sorted: Seq<BenchResult>,
    c: CompiledBenchResult,
) -> bool {
    let n = sorted.len() as int;
    let dropn = drop_count(cfg.drop_numer, cfg.drop_denom, n);
    let keep = n - 2 * dropn;
    let trimmed = sorted.subrange(dropn, n - dropn);
    &&& message_views(c.errors@) == error_messages(sorted)
    &&& c.score == if all_found(trimmed) {
        Some((sum_scores(cfg.index_equivalent, trimmed) / keep) as u64)
    } else {
        Option::<u64>::None
    }
    &&& rank_range_matches(c.found_index, trimmed)
    &&& elapsed_range_matches(c.elapsed, trimmed)
}

/// The compiled result `c` arises from some score-sorted permutation of the
/// history `results`. (Which permutation is open only where outcomes tie.)
pub open spec fn compiled_pipeline(
    cfg: BenchResultCompiler,
    results: Seq<BenchResult>,
    sorted: Seq<BenchResult>,
    c: CompiledBenchResult,
) -> bool {
    &&& sorted.to_multiset() == results.to_multiset()
    &&& sorted.len() == results.len()
    &&& sorted_by_score(cfg.index_equivalent, sorted)
    &&& compiled_from_sorted(cfg, sorted, c)
}

/// The contract of `compile`.
pub open spec fn compile_post(
    cfg: BenchResultCompiler,
    results: Seq<BenchResult>,
    c: CompiledBenchResult,
) -> bool {
    exists|sorted: Seq<BenchResult>| compiled_pipeline(cfg, results, sorted, c)
}

impl BenchResultCompiler {
    /// Compiles the full outcome history of one (start word, target-group)
    /// pair: sorts by score, drops `drop_numer/drop_denom` of the entries
    /// split evenly from both ends, and reports the mean score and the
    /// rank and elapsed ranges of the remaining window, together with every
    /// error message of the whole history. The history must not be empty.
    pub fn compile(&self, results: &Vec<BenchResult>) -> (c: CompiledBenchResult)
        requires
            self.valid(),
            results@.len() > 0,
            forall|i: int|
                0 <= i < results@.len() ==> score_fits(self.index_equivalent, #[trigger] results@[i]),
        ensures
            compile_post(*self, results@, c),
    {
        broadcast use vstd::seq_lib::group_filter_ensures;

        let sorted = sort_results(self.index_equivalent, results);
        let n = sorted.len();

        // Every error message of the whole history, in sorted order.
        let mut errors: Vec<String> = Vec::new();
        let mut i: usize = 0;
        proof {
            assert(sorted@.take(0) =~= Seq::<BenchResult>::empty());
            assert(message_views(errors@) =~= error_messages(sorted@.take(0)));
        }
        while i < n
            invariant
                i <= n,
                n == sorted@.len(),
                message_views(errors@) == error_messages(sorted@.take(i as int)),
            decreases n - i,
        {
            let ghost prev = errors@;
            match &sorted[i].found_index {
                Err(m) => errors.push(m.clone()),
                _ => (),
            }
            proof {
                let pred = |r: BenchResult| is_errored(r);
                let pfx = sorted@.take(i as int);
                assert(sorted@.take(i + 1) =~= pfx.push(sorted@[i as int]));
                pfx.lemma_filter_push(sorted@[i as int], pred);
                if is_errored(sorted@[i as int]) {
                    assert(errors@ == prev.push(errors@.last()));
                    assert(message_views(errors@) =~= message_views(prev)
                        .push(message_of(sorted@[i as int])));
                    assert(error_messages(sorted@.take(i + 1)) =~= error_messages(pfx).push(
                        message_of(sorted@[i as int]),
                    ));
                } else {
                    assert(error_messages(sorted@.take(i + 1)) =~= error_messages(pfx));
                }
            }
            i = i + 1;
        }
        proof {
            assert(sorted@.take(n as int) =~= sorted@);
        }

        // The trimmed window.
        proof {
            lemma_drop_count_bound(self.drop_numer, self.drop_denom, n as int);
        }
        proof {
            vstd::arithmetic::mul::lemma_mul_upper_bound(
                self.drop_numer as int,
                u64::MAX as int,
                n as int,
                u64::MAX as int,
            );
        }
        let dropn_wide: u128 = (self.drop_numer as u128) * (n as u128) / (2 * (self.drop_denom as u128));
        proof {
            assert(dropn_wide == drop_count(self.drop_numer, self.drop_denom, n as int));
        }
        let dropn: usize = dropn_wide as usize;
        let keep = n - 2 * dropn;
        let ghost trimmed = sorted@.subrange(dropn as int, n - dropn);

        let mut found_all = true;
        let mut sum: u128 = 0;
        let mut rank_range: Option<ValueRange> = None;
        let mut elapsed_range: Option<ValueRange> = None;
        let mut idx: usize = dropn;
        proof {
            assert(sorted@.subrange(dropn as int, dropn as int) =~= Seq::<BenchResult>::empty());
        }
        while idx < n - dropn
            invariant
                dropn <= idx <= n - dropn,
                2 * dropn < n,
                n == sorted@.len(),
                forall|k: int|
                    0 <= k < sorted@.len() ==> score_fits(self.index_equivalent, #[trigger] sorted@[k]),
                found_all == all_found(sorted@.subrange(dropn as int, idx as int)),
                sum == sum_scores(self.index_equivalent, sorted@.subrange(dropn as int, idx as int)),
                sum <= (idx - dropn) * (u64::MAX as int),
                rank_range_matches(rank_range, sorted@.subrange(dropn as int, idx as int)),
                elapsed_range_matches(elapsed_range, sorted@.subrange(dropn as int, idx as int)),
            decreases n - dropn - idx,
        {
            let ghost pfx = sorted@.subrange(dropn as int, idx as int);
            proof {
                assert(sorted@.subrange(dropn as int, idx + 1) =~= pfx.push(sorted@[idx as int]));
            }
            let r = &sorted[idx];
            match &r.found_index {
                Ok(Some(rank)) => {
                    assert(score_fits(self.index_equivalent, sorted@[idx as int]));
                    let s = *rank * self.index_equivalent + r.elapsed;
                    proof {
                        assert((sum + s <= (idx + 1 - dropn) * (u64::MAX as int)
                            && (idx + 1 - dropn) * (u64::MAX as int) <= u128::MAX)) by (nonlinear_arith)
                            requires
                                sum <= (idx - dropn) * (u64::MAX as int),
                                s <= u64::MAX,
                                dropn <= idx,
                                idx + 1 - dropn <= n,
                                n <= u64::MAX as int + 1;
                    }
                    sum = sum + s as u128;
                    rank_range = match rank_range {
                        None => Some(ValueRange { start: *rank, end: *rank }),
                        Some(rg) => Some(extend_range(rg, *rank)),
                    };
                    elapsed_range = match elapsed_range {
                        None => Some(ValueRange { start: r.elapsed, end: r.elapsed }),
                        Some(rg) => Some(extend_range(rg, r.elapsed)),
                    };
                },
                _ => {
                    found_all = false;
                },
            }
            proof {
                let nxt = sorted@.subrange(dropn as int, idx + 1);
                assert(nxt =~= pfx.push(sorted@[idx as int]));
                assert(nxt.drop_last() =~= pfx);
                assert(nxt.last() == sorted@[idx as int]);
            }
            idx = idx + 1;
        }
        proof {
            assert(sorted@.subrange(dropn as int, n - dropn) =~= trimmed);
            assert(keep == trimmed.len());
        }

        let score: Option<u64> = if found_all {
            proof {
                assert(sum <= (keep as int) * (u64::MAX as int));
                vstd::arithmetic::div_mod::lemma_div_is_ordered(
                    sum as int,
                    (keep as int) * (u64::MAX as int),
                    keep as int,
                );
                vstd::arithmetic::div_mod::lemma_div_multiples_vanish(u64::MAX as int, keep as int);
                assert((keep as int) * (u64::MAX as int) == (u64::MAX as int) * (keep as int))
                    by (nonlinear_arith);
                assert(sum as int / (keep as int) <= u64::MAX);
            }
            Some((sum / (keep as u128)) as u64)
        } else {
            None
        };

        let c = CompiledBenchResult { score, errors, found_index: rank_range, elapsed: elapsed_range };
        proof {
            assert(compiled_pipeline(*self, results@, sorted@, c));
        }
        c
    }
}

/// A compiled result with a score beats one without; between two scores the
/// lower wins; a result without a score beats nothing.
pub open spec fn spec_is_better_than(a: CompiledBenchResult, b: CompiledBenchResult) -> bool {
    match (a.score, b.score) {
        (Some(us), Some(them)) => us < them,
        (Some(_), None) => true,
        (None, _) => false,
    }
}

/// The signed difference between two compiled scores: negative means the
/// first is better.
#[derive(Debug, Clone, Copy, PartialEq, Eq, Structural)]
pub enum ScoreDifference {
    /// Only the first result has a score: it is better by an unbounded margin.
    NegativeInfinite,
    /// Both results have a score (first minus other, nanoseconds), or
    /// neither has one (zero).
    Finite(i128),
    /// Only the other result has a score.
    PositiveInfinite,
}

pub open spec fn spec_difference(a: CompiledBenchResult, b: CompiledBenchResult) -> ScoreDifference {
    match (a.score, b.score) {
        (Some(us), Some(them)) => ScoreDifference::Finite((us - them) as i128),
        (Some(_), None) => ScoreDifference::NegativeInfinite,
        (None, Some(_)) => ScoreDifference::PositiveInfinite,
        (None, None) => ScoreDifference::Finite(0),
    }
}

impl CompiledBenchResult {
    pub fn is_better_than(&self, other: &CompiledBenchResult) -> (r: bool)
        ensures
            r == spec_is_better_than(*self, *other),
    {
        match (self.score, other.score) {
            (Some(us), Some(them)) => us < them,
            (Some(_), None) => true,
            (None, _) => false,
        }
    }

    pub fn difference(&self, other: &CompiledBenchResult) -> (r: ScoreDifference)
        ensures
            r == spec_difference(*self, *other),
    {
        match (self.score, other.score) {
            (Some(us), Some(them)) => ScoreDifference::Finite(us as i128 - them as i128),
            (Some(_), None) => ScoreDifference::NegativeInfinite,
            (None, Some(_)) => ScoreDifference::PositiveInfinite,
            (None, None) => ScoreDifference::Finite(0),
        }
    }
}

/// `is_better_than` is a strict total preorder: irreflexive, asymmetric and
/// transitive, any two results are either ordered or tied, ties are
/// transitive, and being better agrees exactly with a negative
/// `difference`.
pub proof fn lemma_is_better_than_strict_total_preorder(
    a: CompiledBenchResult,
    b: CompiledBenchResult,
    c: CompiledBenchResult,
)
    ensures
        !spec_is_better_than(a, a),
        spec_is_better_than(a, b) ==> !spec_is_better_than(b, a),
        spec_is_better_than(a, b) && spec_is_better_than(b, c) ==> spec_is_better_than(a, c),
        spec_is_better_than(a, b) || spec_is_better_than(b, a) || (!spec_is_better_than(a, b)
            && !spec_is_better_than(b, a)),
        !spec_is_better_than(a, b) && !spec_is_better_than(b, a) && spec_is_better_than(b, c)
            ==> spec_is_better_than(a, c),
        spec_is_better_than(a, b) <==> (spec_difference(a, b) matches ScoreDifference::NegativeInfinite
            || (spec_difference(a, b) matches ScoreDifference::Finite(d) && d < 0)),
{
}

/// Every error message anywhere in a compiled history, even one trimmed out
/// of the score computation, appears in the compiled error list.
pub proof fn lemma_compile_keeps_errors(
    cfg: BenchResultCompiler,
    results: Seq<BenchResult>,
    c: CompiledBenchResult,
    i: int,
)
    requires
        compile_post(cfg, results, c),
        0 <= i < results.len(),
        is_errored(results[i]),
    ensures
        exists|j: int| 0 <= j < c.errors@.len() && (#[trigger] c.errors@[j])@ == message_of(results[i]),
{
    broadcast use vstd::seq_lib::group_to_multiset_ensures;
    broadcast use vstd::seq_lib::group_filter_ensures;

    let sorted = choose|sorted: Seq<BenchResult>| compiled_pipeline(cfg, results, sorted, c);
    let r = results[i];
    assert(results.to_multiset().contains(r));
    assert(sorted.contains(r));
    let k = choose|k: int| 0 <= k < sorted.len() && sorted[k] == r;
    let pred = |r: BenchResult| is_errored(r);
    sorted.lemma_filter_contains(pred, k);
    let filtered = sorted.filter(pred);
    let j = choose|j: int| 0 <= j < filtered.len() && filtered[j] == r;
    assert(error_messages(sorted)[j] == message_of(r));
    assert(message_views(c.errors@).len() == c.errors@.len());
    assert(error_messages(sorted).len() == filtered.len());
    assert(c.errors@.len() == filtered.len());
    assert(message_views(c.errors@)[j] == c.errors@[j]@);
}

/// Compiling an all-Found history with a zero drop fraction reports the
/// true min..max ranges of rank and elapsed time over the whole history,
/// an empty error list, and the mean score of the whole history, in
/// whatever order the trials ran.
pub proof fn lemma_compile_all_found_no_drop(
    cfg: BenchResultCompiler,
    results: Seq<BenchResult>,
    c: CompiledBenchResult,
)
    requires
        compile_post(cfg, results, c),
        cfg.drop_numer == 0,
        cfg.valid(),
        results.len() > 0,
        all_found(results),
    ensures
        c.errors@.len() == 0,
        c.found_index is Some,
        c.elapsed is Some,
        rank_range_matches(c.found_index, results),
        elapsed_range_matches(c.elapsed, results),
        c.score == Some(
            (sum_scores(cfg.index_equivalent, results) / (results.len() as int)) as u64,
        ),
{
    broadcast use vstd::seq_lib::group_to_multiset_ensures;

    let sorted = choose|sorted: Seq<BenchResult>| compiled_pipeline(cfg, results, sorted, c);
    lemma_sum_scores_permutation(cfg.index_equivalent, sorted, results);
    let n = sorted.len() as int;
    assert(drop_count(0, cfg.drop_denom, n) == 0) by {
        assert(0 * n == 0) by (nonlinear_arith);
        vstd::arithmetic::div_mod::lemma_div_pos_is_pos(0, 2 * (cfg.drop_denom as int));
        vstd::arithmetic::div_mod::lemma_div_is_ordered(0, 0, 2 * (cfg.drop_denom as int));
        assert(0int / (2 * (cfg.drop_denom as int)) <= 0);
    }
    let trimmed = sorted.subrange(0, n);
    assert(trimmed =~= sorted);

    // Every element of `sorted` is an element of `results`, and vice versa.
    assert forall|k: int| 0 <= k < sorted.len() implies (#[trigger] sorted[k]).spec_is_found() by {
        assert(sorted.to_multiset().contains(sorted[k]));
        assert(results.to_multiset().contains(sorted[k]));
        assert(results.contains(sorted[k]));
    }
    assert(all_found(sorted));

    let pred = |r: BenchResult| is_errored(r);
    sorted.lemma_all_neg_filter_empty(pred);
    assert(error_messages(sorted).len() == 0);
    assert(message_views(c.errors@).len() == c.errors@.len());

    assert(results[0].spec_is_found());
    assert(results.to_multiset().contains(results[0]));
    assert(sorted.contains(results[0]));
    assert(c.found_index is Some);
    assert(c.elapsed is Some);

    let rg = c.found_index->Some_0;
    assert forall|i: int| 0 <= i < results.len() && (#[trigger] results[i]).spec_is_found()
        implies rg.start <= rank_of(results[i]) <= rg.end by {
        assert(results.to_multiset().contains(results[i]));
        assert(sorted.contains(results[i]));
    }
    assert(exists|i: int|
        0 <= i < sorted.len() && (#[trigger] sorted[i]).spec_is_found() && rank_of(sorted[i])
            == rg.start);
    let ws = choose|i: int|
        0 <= i < sorted.len() && (#[trigger] sorted[i]).spec_is_found() && rank_of(sorted[i])
            == rg.start;
    assert(sorted.to_multiset().contains(sorted[ws]));
    assert(results.contains(sorted[ws]));
    let we = choose|i: int|
        0 <= i < sorted.len() && (#[trigger] sorted[i]).spec_is_found() && rank_of(sorted[i])
            == rg.end;
    assert(sorted.to_multiset().contains(sorted[we]));
    assert(results.contains(sorted[we]));

    let eg = c.elapsed->Some_0;
    assert forall|i: int| 0 <= i < results.len() && (#[trigger] results[i]).spec_is_found()
        implies eg.start <= results[i].elapsed <= eg.end by {
        assert(results.to_multiset().contains(results[i]));
        assert(sorted.contains(results[i]));
    }
    let es = choose|i: int|
        0 <= i < sorted.len() && (#[trigger] sorted[i]).spec_is_found() && sorted[i].elapsed
            == eg.start;
    assert(sorted.to_multiset().contains(sorted[es]));
    assert(results.contains(sorted[es]));
    let ee = choose|i: int|
        0 <= i < sorted.len() && (#[trigger] sorted[i]).spec_is_found() && sorted[i].elapsed
            == eg.end;
    assert(sorted.to_multiset().contains(sorted[ee]));
    assert(results.contains(sorted[ee]));
}

} // verus!
