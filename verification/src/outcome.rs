//! The outcome of one trial of one (start word, target-group) pair, and the
//! ordering used to compare outcomes.
//!
//! All durations in this crate are wall-clock times in whole nanoseconds.

use vstd::prelude::*;

verus! {

/// An error raised while loading benchmark definitions.
#[derive(Debug, PartialEq, Eq)]
pub enum BenchError {
    /// An input source could not be read.
    Io { message: String },
    /// A benchmark definition line did not match the grammar. `line_no` is
    /// one-based; `text` is the offending line.
    ParseErr { line_no: usize, text: String },
    /// A target-group with no words was handed to registration.
    EmptyTargets,
}

/// The outcome of one trial.
///
/// `found_index` is `Ok(Some(rank))` when a member of the target-group
/// appeared at zero-based `rank` in the candidate stream, `Ok(None)` when no
/// member appeared before timeout or stream exhaustion, and `Err(message)`
/// when the engine failed to start for the start word. `elapsed` is the time
/// spent, in nanoseconds.
#[derive(Debug, PartialEq, Eq)]
pub struct BenchResult {
    pub found_index: Result<Option<u64>, String>,
    pub elapsed: u64,
}

impl Clone for BenchError {
    fn clone(&self) -> (r: Self)
        ensures
            r == *self,
    {
        match self {
            BenchError::Io { message } => BenchError::Io { message: message.clone() },
            BenchError::ParseErr { line_no, text } => BenchError::ParseErr {
                line_no: *line_no,
                text: text.clone(),
            },
            BenchError::EmptyTargets => BenchError::EmptyTargets,
        }
    }
}

impl Clone for BenchResult {
    fn clone(&self) -> (r: Self)
        ensures
            r == *self,
    {
        BenchResult {
            found_index: match &self.found_index {
                Ok(Some(i)) => Ok(Some(*i)),
                Ok(None) => Ok(None),
                Err(m) => Err(m.clone()),
            },
            elapsed: self.elapsed,
        }
    }
}

impl BenchResult {
    /// A trial that found its target at `found_index` after `elapsed` ns.
    pub fn success(found_index: u64, elapsed: u64) -> (r: BenchResult)
        ensures
            r == (BenchResult { found_index: Ok(Some(found_index)), elapsed }),
    {
        BenchResult { found_index: Ok(Some(found_index)), elapsed }
    }

    /// Whether the trial found its target.
    pub fn is_found(&self) -> (r: bool)
        ensures
            r == self.spec_is_found(),
    {
        matches!(self.found_index, Ok(Some(_)))
    }

    pub open spec fn spec_is_found(&self) -> bool {
        self.found_index matches Ok(Some(_))
    }
}

/// Lexicographic order on character sequences, by code point.
pub open spec fn seq_char_le(a: Seq<char>, b: Seq<char>) -> bool
    decreases a.len(),
{
    if a.len() == 0 {
        true
    } else if b.len() == 0 {
        false
    } else if a[0] == b[0] {
        seq_char_le(a.drop_first(), b.drop_first())
    } else {
        a[0] < b[0]
    }
}

pub proof fn lemma_seq_char_le_total(a: Seq<char>, b: Seq<char>)
    ensures
        seq_char_le(a, b) || seq_char_le(b, a),
        seq_char_le(a, b) && seq_char_le(b, a) ==> a == b,
    decreases a.len(),
{
    if a.len() == 0 || b.len() == 0 {
        if seq_char_le(a, b) && seq_char_le(b, a) {
            assert(a =~= b);
        }
    } else if a[0] == b[0] {
        lemma_seq_char_le_total(a.drop_first(), b.drop_first());
        if seq_char_le(a, b) && seq_char_le(b, a) {
            assert(a.drop_first() == b.drop_first());
            assert(a =~= seq![a[0]] + a.drop_first());
            assert(b =~= seq![b[0]] + b.drop_first());
        }
    }
}

pub proof fn lemma_seq_char_le_trans(a: Seq<char>, b: Seq<char>, c: Seq<char>)
    requires
        seq_char_le(a, b),
        seq_char_le(b, c),
    ensures
        seq_char_le(a, c),
    decreases a.len(),
{
    if a.len() == 0 || b.len() == 0 || c.len() == 0 {
    } else if a[0] == b[0] {
        if b[0] == c[0] {
            lemma_seq_char_le_trans(a.drop_first(), b.drop_first(), c.drop_first());
        }
    } else {
    }
}

/// Which of the three outcome shapes, for the outer ordering:
/// Found (0) < NotFound (1) < Errored (2).
pub open spec fn outcome_class(r: BenchResult) -> int {
    match r.found_index {
        Ok(Some(_)) => 0,
        Ok(None) => 1,
        Err(_) => 2,
    }
}

/// The ordering on outcomes: Found < NotFound < Errored whatever the elapsed
/// values; within Found, by rank then elapsed; within NotFound, by elapsed;
/// within Errored, by elapsed then message content (the message tiebreak
/// carries no meaning beyond giving a deterministic order).
pub open spec fn result_le(a: BenchResult, b: BenchResult) -> bool {
    if outcome_class(a) != outcome_class(b) {
        outcome_class(a) < outcome_class(b)
    } else {
        match (a.found_index, b.found_index) {
            (Ok(Some(ra)), Ok(Some(rb))) => {
                if ra != rb {
                    ra < rb
                } else {
                    a.elapsed <= b.elapsed
                }
            },
            (Ok(None), Ok(None)) => a.elapsed <= b.elapsed,
            (Err(ma), Err(mb)) => {
                if a.elapsed != b.elapsed {
                    a.elapsed < b.elapsed
                } else {
                    seq_char_le(ma@, mb@)
                }
            },
            _ => false,  // unreachable: classes are equal
        }
    }
}

/// `result_le` is a total preorder on outcomes: reflexive, transitive, and
/// any two outcomes are comparable. (It is not antisymmetric over `==`: two
/// distinct `String` values may hold the same characters.)
pub proof fn lemma_result_le_total_preorder()
    ensures
        vstd::relations::reflexive(|a: BenchResult, b: BenchResult| result_le(a, b)),
        vstd::relations::transitive(|a: BenchResult, b: BenchResult| result_le(a, b)),
        vstd::relations::strongly_connected(|a: BenchResult, b: BenchResult| result_le(a, b)),
{
    let leq = |a: BenchResult, b: BenchResult| result_le(a, b);
    assert forall|a: BenchResult| #[trigger] leq(a, a) by {
        match a.found_index {
            Err(m) => lemma_seq_char_le_total(m@, m@),
            _ => (),
        }
    }
    assert forall|a: BenchResult, b: BenchResult, c: BenchResult|
        #[trigger] leq(a, b) && #[trigger] leq(b, c) implies leq(a, c) by {
        match (a.found_index, b.found_index, c.found_index) {
            (Err(ma), Err(mb), Err(mc)) => {
                if a.elapsed == b.elapsed && b.elapsed == c.elapsed {
                    lemma_seq_char_le_trans(ma@, mb@, mc@);
                }
            },
            _ => (),
        }
    }
    assert forall|a: BenchResult, b: BenchResult| #[trigger] leq(a, b) || #[trigger] leq(b, a) by {
        match (a.found_index, b.found_index) {
            (Err(ma), Err(mb)) => lemma_seq_char_le_total(ma@, mb@),
            _ => (),
        }
    }
}

/// Any two outcomes are comparable under `result_le`.
pub proof fn lemma_result_le_connected(a: BenchResult, b: BenchResult)
    ensures
        result_le(a, b) || result_le(b, a),
{
    match (a.found_index, b.found_index) {
        (Err(ma), Err(mb)) => lemma_seq_char_le_total(ma@, mb@),
        _ => (),
    }
}

/// `result_le` is transitive.
pub proof fn lemma_result_le_trans(a: BenchResult, b: BenchResult, c: BenchResult)
    requires
        result_le(a, b),
        result_le(b, c),
    ensures
        result_le(a, c),
{
    match (a.found_index, b.found_index, c.found_index) {
        (Err(ma), Err(mb), Err(mc)) => {
            if a.elapsed == b.elapsed && b.elapsed == c.elapsed {
                lemma_seq_char_le_trans(ma@, mb@, mc@);
            }
        },
        _ => (),
    }
}

/// Found sorts before NotFound, and NotFound before Errored, whatever the
/// elapsed times, ranks and messages involved.
pub proof fn lemma_outcome_kind_order(found: BenchResult, not_found: BenchResult, errored: BenchResult)
    requires
        found.found_index matches Ok(Some(_)),
        not_found.found_index matches Ok(None),
        errored.found_index matches Err(_),
    ensures
        result_le(found, not_found),
        !result_le(not_found, found),
        result_le(not_found, errored),
        !result_le(errored, not_found),
        result_le(found, errored),
        !result_le(errored, found),
{
}

/// Compares two strings in the lexicographic code-point order `seq_char_le`.
pub fn str_le(a: &str, b: &str) -> (r: bool)
    ensures
        r == seq_char_le(a@, b@),
{
    let a_len = a.unicode_len();
    let b_len = b.unicode_len();
    let mut i: usize = 0;
    proof {
        assert(a@.skip(0) =~= a@);
        assert(b@.skip(0) =~= b@);
        assert(a@.subrange(0, 0) =~= b@.subrange(0, 0));
    }
    loop
        invariant
            i <= a_len,
            i <= b_len,
            a_len == a@.len(),
            b_len == b@.len(),
            a@.subrange(0, i as int) == b@.subrange(0, i as int),
            seq_char_le(a@, b@) == seq_char_le(a@.skip(i as int), b@.skip(i as int)),
            seq_char_le(b@, a@) == seq_char_le(b@.skip(i as int), a@.skip(i as int)),
        decreases a_len - i,
    {
        if i >= a_len {
            return true;
        }
        if i >= b_len {
            return false;
        }
        let ca = a.get_char(i);
        let cb = b.get_char(i);
        if ca != cb {
            return ca < cb;
        }
        proof {
            assert(a@.skip(i as int).drop_first() =~= a@.skip(i + 1));
            assert(b@.skip(i as int).drop_first() =~= b@.skip(i + 1));
            assert(a@.subrange(0, i + 1) =~= a@.subrange(0, i as int).push(a@[i as int]));
            assert(b@.subrange(0, i + 1) =~= b@.subrange(0, i as int).push(b@[i as int]));
        }
        i = i + 1;
    }
}

/// Compares two outcomes in the order `result_le`.
pub fn result_le_exec(a: &BenchResult, b: &BenchResult) -> (r: bool)
    ensures
        r == result_le(*a, *b),
{
    match (&a.found_index, &b.found_index) {
        (Ok(Some(ra)), Ok(Some(rb))) => {
            if *ra != *rb {
                *ra < *rb
            } else {
                a.elapsed <= b.elapsed
            }
        },
        (Ok(Some(_)), _) => true,
        (Ok(None), Ok(Some(_))) => false,
        (Ok(None), Ok(None)) => a.elapsed <= b.elapsed,
        (Ok(None), Err(_)) => true,
        (Err(_), Ok(_)) => false,
        (Err(ma), Err(mb)) => {
            if a.elapsed != b.elapsed {
                a.elapsed < b.elapsed
            } else {
                str_le(ma.as_str(), mb.as_str())
            }
        },
    }
}

} // verus!
