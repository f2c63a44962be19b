//! The per-start-word match state machine and the trial ledger.
//!
//! A `BenchRunner` tracks which target-groups of one start word are still
//! unresolved while the candidate stream is consumed. A `Bencher` holds the
//! registered benchmark definitions and the accumulated trial outcomes.

use rand::seq::SliceRandom;
use vstd::prelude::*;

use crate::outcome::BenchError;
use crate::outcome::BenchResult;
use crate::words::insert_sorted_unique;
use crate::words::set_bench_name;
use crate::words::sorted_unique;
use crate::words::word_views;
use crate::words::words_equal;

verus! {

/// Whether the word `w` belongs to the target-group `g`.
pub open spec fn group_has(g: Seq<String>, w: Seq<char>) -> bool {
    word_views(g).contains(w)
}

/// The word lists held by a vector of target-groups.
pub open spec fn group_views(gs: Seq<Vec<String>>) -> Seq<Seq<String>> {
    gs.map_values(|g: Vec<String>| g@)
}

/// The target-groups of `gs` that contain `w`, in order.
pub open spec fn groups_hit(gs: Seq<Vec<String>>, w: Seq<char>) -> Seq<Seq<String>>
    decreases gs.len(),
{
    if gs.len() == 0 {
        Seq::<Seq<String>>::empty()
    } else if group_has(gs.last()@, w) {
        groups_hit(gs.drop_last(), w).push(gs.last()@)
    } else {
        groups_hit(gs.drop_last(), w)
    }
}

/// The target-groups of `gs` that do not contain `w`, in order.
pub open spec fn groups_left(gs: Seq<Vec<String>>, w: Seq<char>) -> Seq<Seq<String>>
    decreases gs.len(),
{
    if gs.len() == 0 {
        Seq::<Seq<String>>::empty()
    } else if group_has(gs.last()@, w) {
        groups_left(gs.drop_last(), w)
    } else {
        groups_left(gs.drop_last(), w).push(gs.last()@)
    }
}

/// Compares two words character by character.
pub fn str_eq(a: &str, b: &str) -> (r: bool)
    ensures
        r == (a@ == b@),
{
    let le1 = crate::outcome::str_le(a, b);
    let le2 = crate::outcome::str_le(b, a);
    proof {
        crate::outcome::lemma_seq_char_le_total(a@, b@);
        crate::outcome::lemma_seq_char_le_total(b@, a@);
    }
    le1 && le2
}

/// Whether one of the words of `g` is `word`.
pub fn contains_word(g: &Vec<String>, word: &str) -> (r: bool)
    ensures
        r == group_has(g@, word@),
{
    let mut i: usize = 0;
    while i < g.len()
        invariant
            i <= g@.len(),
            forall|k: int| 0 <= k < i ==> #[trigger] word_views(g@)[k] != word@,
        decreases g@.len() - i,
    {
        if str_eq(g[i].as_str(), word) {
            proof {
                assert(word_views(g@)[i as int] == word@);
            }
            return true;
        }
        i = i + 1;
    }
    false
}

/// Copies a word list.
pub fn clone_words(v: &Vec<String>) -> (r: Vec<String>)
    ensures
        r@ == v@,
{
    let mut r: Vec<String> = Vec::new();
    let mut i: usize = 0;
    while i < v.len()
        invariant
            i <= v@.len(),
            r@ == v@.take(i as int),
        decreases v@.len() - i,
    {
        r.push(v[i].clone());
        proof {
            assert(v@.take(i + 1) =~= v@.take(i as int).push(v@[i as int]));
        }
        i = i + 1;
    }
    proof {
        assert(v@.take(v@.len() as int) =~= v@);
    }
    r
}

/// The match state for one start word: the target-groups still unresolved
/// in this trial, and the union of all their words.
#[derive(Debug)]
pub struct BenchRunner {
    pub remaining_targets: Vec<Vec<String>>,
    pub all_target_words: Vec<String>,
}

impl BenchRunner {
    /// Well-formed: each pending group is a non-empty canonical word set,
    /// and `all_target_words` is a canonical word set covering every word
    /// of every pending group.
    pub open spec fn wf(&self) -> bool {
        &&& sorted_unique(word_views(self.all_target_words@))
        &&& forall|i: int|
            0 <= i < self.remaining_targets@.len() ==> {
                &&& (#[trigger] self.remaining_targets@[i])@.len() > 0
                &&& sorted_unique(word_views(self.remaining_targets@[i]@))
            }
        &&& forall|i: int, x: Seq<char>|
            0 <= i < self.remaining_targets@.len() && #[trigger] group_has(
                self.remaining_targets@[i]@,
                x,
            ) ==> word_views(self.all_target_words@).contains(x)
    }

    pub fn new() -> (r: BenchRunner)
        ensures
            r.wf(),
            r.remaining_targets@.len() == 0,
            r.all_target_words@.len() == 0,
    {
        BenchRunner { remaining_targets: Vec::new(), all_target_words: Vec::new() }
    }

    /// Registers one more pending target-group for this trial.
    pub fn add_targets(&mut self, targets: &Vec<String>)
        requires
            old(self).wf(),
            targets@.len() > 0,
            sorted_unique(word_views(targets@)),
        ensures
            final(self).wf(),
            group_views(final(self).remaining_targets@) == group_views(
                old(self).remaining_targets@,
            ).push(targets@),
    {
        let copy = clone_words(targets);
        self.remaining_targets.push(copy);
        proof {
            assert(group_views(self.remaining_targets@) =~= group_views(
                old(self).remaining_targets@,
            ).push(targets@));
        }
        let mut i: usize = 0;
        while i < targets.len()
            invariant
                i <= targets@.len(),
                sorted_unique(word_views(self.all_target_words@)),
                group_views(self.remaining_targets@) == group_views(
                    old(self).remaining_targets@,
                ).push(targets@),
                self.remaining_targets@.len() == old(self).remaining_targets@.len() + 1,
                forall|k: int|
                    0 <= k < i ==> word_views(self.all_target_words@).contains(
                        #[trigger] word_views(targets@)[k],
                    ),
                forall|x: Seq<char>|
                    word_views(old(self).all_target_words@).contains(x) ==> word_views(
                        self.all_target_words@,
                    ).contains(x),
            decreases targets@.len() - i,
        {
            insert_sorted_unique(&mut self.all_target_words, &targets[i]);
            proof {
                assert(word_views(targets@)[i as int] == targets@[i as int]@);
            }
            i = i + 1;
        }
        proof {
            let news = self.remaining_targets@;
            let olds = old(self).remaining_targets@;
            assert forall|gi: int, x: Seq<char>|
                0 <= gi < news.len() && #[trigger] group_has(news[gi]@, x) implies word_views(
                self.all_target_words@,
            ).contains(x) by {
                assert(group_views(news)[gi] == news[gi]@);
                if gi < olds.len() {
                    assert(group_views(news)[gi] == group_views(olds)[gi]);
                    assert(news[gi]@ == olds[gi]@);
                    assert(group_has(olds[gi]@, x));
                } else {
                    assert(news[gi]@ == targets@);
                    let k = choose|k: int|
                        0 <= k < word_views(targets@).len() && word_views(targets@)[k] == x;
                    assert(word_views(self.all_target_words@).contains(word_views(targets@)[k]));
                }
            }
            assert forall|gi: int|
                0 <= gi < news.len() implies (#[trigger] news[gi])@.len() > 0 && sorted_unique(
                word_views(news[gi]@),
            ) by {
                assert(group_views(news)[gi] == news[gi]@);
                if gi < olds.len() {
                    assert(group_views(news)[gi] == group_views(olds)[gi]);
                    assert(news[gi]@ == olds[gi]@);
                } else {
                    assert(news[gi]@ == targets@);
                }
            }
        }
    }

    /// Whether every target-group of this trial has been resolved.
    pub fn is_done(&self) -> (r: bool)
        ensures
            r == (self.remaining_targets@.len() == 0),
    {
        self.remaining_targets.len() == 0
    }

    /// One candidate word arrived: resolves and returns every pending
    /// target-group that contains it (one word may close several groups at
    /// once); groups without it stay pending, in order.
    pub fn on_word_found(&mut self, word: &str) -> (hits: Vec<Vec<String>>)
        requires
            old(self).wf(),
        ensures
            final(self).wf(),
            group_views(final(self).remaining_targets@) == groups_left(
                old(self).remaining_targets@,
                word@,
            ),
            final(self).all_target_words@ == old(self).all_target_words@,
            group_views(hits@) == groups_hit(old(self).remaining_targets@, word@),
    {
        let ghost origs = self.remaining_targets@;
        if !contains_word(&self.all_target_words, word) {
            proof {
                lemma_groups_split_no_hit(origs, word@);
                assert(group_views(Seq::<Vec<String>>::empty()) =~= Seq::<Seq<String>>::empty());
            }
            return Vec::new();
        }
        let mut kept: Vec<Vec<String>> = Vec::new();
        let mut hits: Vec<Vec<String>> = Vec::new();
        let mut i: usize = 0;
        proof {
            assert(origs.take(0) =~= Seq::<Vec<String>>::empty());
            assert(group_views(kept@) =~= groups_left(origs.take(0), word@));
            assert(group_views(hits@) =~= groups_hit(origs.take(0), word@));
        }
        while i < self.remaining_targets.len()
            invariant
                i <= origs.len(),
                self.remaining_targets@ == origs,
                old(self).wf(),
                self.all_target_words@ == old(self).all_target_words@,
                origs == old(self).remaining_targets@,
                group_views(kept@) == groups_left(origs.take(i as int), word@),
                group_views(hits@) == groups_hit(origs.take(i as int), word@),
                forall|k: int|
                    0 <= k < kept@.len() ==> (#[trigger] kept@[k])@.len() > 0 && sorted_unique(
                        word_views(kept@[k]@),
                    ),
                forall|k: int, x: Seq<char>|
                    0 <= k < kept@.len() && #[trigger] group_has(kept@[k]@, x) ==> word_views(
                        self.all_target_words@,
                    ).contains(x),
            decreases origs.len() - i,
        {
            let g = clone_words(&self.remaining_targets[i]);
            assert(g@ == origs[i as int]@);
            let ghost old_kept = kept@;
            let ghost old_hits = hits@;
            let is_hit = contains_word(&g, word);
            if is_hit {
                hits.push(g);
            } else {
                kept.push(g);
            }
            proof {
                let pfx = origs.take(i as int);
                let nxt = origs.take(i + 1);
                assert(nxt.drop_last() =~= pfx);
                assert(nxt.last() == origs[i as int]);
                if is_hit {
                    assert(group_views(hits@) =~= group_views(old_hits).push(g@));
                } else {
                    assert(group_views(kept@) =~= group_views(old_kept).push(g@));
                }
            }
            i = i + 1;
        }
        proof {
            assert(origs.take(origs.len() as int) =~= origs);
        }
        self.remaining_targets = kept;
        hits
    }
}

/// The ledger row for one (start word, target-group) pair: the canonical
/// target-group and the outcomes of its past trials, in trial order.
#[derive(Debug)]
pub struct BenchEntry {
    pub targets: Vec<String>,
    pub results: Vec<BenchResult>,
}

/// All ledger rows of one start word.
#[derive(Debug)]
pub struct WordBenches {
    pub start_word: String,
    pub entries: Vec<BenchEntry>,
}

/// The registered benchmark definitions and the accumulated trial
/// outcomes, one `WordBenches` per start word.
#[derive(Debug)]
pub struct Bencher {
    pub benches: Vec<WordBenches>,
}

impl BenchEntry {
    /// The target-group is a non-empty canonical word set.
    pub open spec fn wf(&self) -> bool {
        self.targets@.len() > 0 && sorted_unique(word_views(self.targets@))
    }
}

impl WordBenches {
    /// Entries are well-formed and no two hold the same target-group.
    pub open spec fn wf(&self) -> bool {
        &&& forall|j: int| 0 <= j < self.entries@.len() ==> (#[trigger] self.entries@[j]).wf()
        &&& forall|j: int, k: int|
            0 <= j < k < self.entries@.len() ==> word_views(self.entries@[j].targets@)
                != word_views(self.entries@[k].targets@)
    }
}

/// The word set `g` holds exactly the words of `tviews` (in whatever order
/// or multiplicity `tviews` lists them).
pub open spec fn group_matches(g: Seq<String>, tviews: Seq<Seq<char>>) -> bool {
    forall|x: Seq<char>|
        #![trigger word_views(g).contains(x)]
        #![trigger tviews.contains(x)]
        word_views(g).contains(x) <==> tviews.contains(x)
}

/// A ledger row for the pair (start word `w`, target-group `tviews`)
/// exists.
pub open spec fn has_bench_in(bs: Seq<WordBenches>, w: Seq<char>, tviews: Seq<Seq<char>>) -> bool {
    exists|i: int, j: int| #[trigger] pair_at(bs, w, tviews, i, j)
}

/// A fresh ledger row: the canonical form of `tviews`, with no outcomes.
pub open spec fn fresh_entry(e: BenchEntry, tviews: Seq<Seq<char>>) -> bool {
    &&& e.wf()
    &&& group_matches(e.targets@, tviews)
    &&& e.results@.len() == 0
}

/// How `add_bench` changes the ledger: nothing when the pair is already
/// registered; one fresh row under the existing start word when only the
/// group is new; one fresh start word holding one fresh row when the start
/// word is new.
pub open spec fn registered_shape(
    oldb: Seq<WordBenches>,
    newb: Seq<WordBenches>,
    w: Seq<char>,
    tviews: Seq<Seq<char>>,
) -> bool {
    ||| (exists|i: int, j: int|
        {
            &&& 0 <= i < oldb.len()
            &&& (#[trigger] oldb[i]).start_word@ == w
            &&& 0 <= j < oldb[i].entries@.len()
            &&& group_matches((#[trigger] oldb[i].entries@[j]).targets@, tviews)
            &&& newb == oldb
        })
    ||| (exists|i: int|
        {
            &&& 0 <= i < oldb.len()
            &&& (#[trigger] oldb[i]).start_word@ == w
            &&& newb.len() == oldb.len()
            &&& (forall|k: int| 0 <= k < oldb.len() && k != i ==> newb[k] == oldb[k])
            &&& newb[i].start_word == oldb[i].start_word
            &&& newb[i].entries@.len() == oldb[i].entries@.len() + 1
            &&& (forall|j: int|
                0 <= j < oldb[i].entries@.len() ==> newb[i].entries@[j] == oldb[i].entries@[j])
            &&& fresh_entry(newb[i].entries@.last(), tviews)
        })
    ||| {
        &&& (forall|i: int| 0 <= i < oldb.len() ==> (#[trigger] oldb[i]).start_word@ != w)
        &&& newb.len() == oldb.len() + 1
        &&& (forall|k: int| 0 <= k < oldb.len() ==> newb[k] == oldb[k])
        &&& newb.last().start_word@ == w
        &&& newb.last().entries@.len() == 1
        &&& fresh_entry(newb.last().entries@[0], tviews)
    }
}

/// The canonical (sorted, duplicate-free) form of a word list.
pub fn canonical_group(targets: &Vec<String>) -> (r: Vec<String>)
    ensures
        sorted_unique(word_views(r@)),
        forall|x: Seq<char>|
            #![trigger word_views(r@).contains(x)]
            #![trigger word_views(targets@).contains(x)]
            word_views(r@).contains(x) <==> word_views(targets@).contains(x),
        r@.len() == 0 <==> targets@.len() == 0,
{
    let mut r: Vec<String> = Vec::new();
    let mut i: usize = 0;
    while i < targets.len()
        invariant
            i <= targets@.len(),
            sorted_unique(word_views(r@)),
            forall|x: Seq<char>|
                word_views(r@).contains(x) <==> word_views(targets@.take(i as int)).contains(x),
        decreases targets@.len() - i,
    {
        insert_sorted_unique(&mut r, &targets[i]);
        proof {
            let pfx = word_views(targets@.take(i as int));
            let nxt = word_views(targets@.take(i + 1));
            assert(nxt =~= pfx.push(targets@[i as int]@));
            assert forall|x: Seq<char>| nxt.contains(x) implies word_views(r@).contains(x) by {
                let k = choose|k: int| 0 <= k < nxt.len() && nxt[k] == x;
                if k < pfx.len() {
                    assert(pfx.contains(x));
                }
            }
            assert forall|x: Seq<char>| word_views(r@).contains(x) implies nxt.contains(x) by {
                if pfx.contains(x) {
                    let k = choose|k: int| 0 <= k < pfx.len() && pfx[k] == x;
                    assert(nxt[k] == x);
                } else {
                    assert(nxt.last() == x);
                }
            }
        }
        i = i + 1;
    }
    proof {
        assert(targets@.take(targets@.len() as int) =~= targets@);
        if targets@.len() > 0 {
            assert(word_views(targets@)[0] == targets@[0]@);
            assert(word_views(targets@).contains(targets@[0]@));
            assert(word_views(r@).contains(targets@[0]@));
        }
        if r@.len() > 0 {
            assert(word_views(r@)[0] == r@[0]@);
            assert(word_views(r@).contains(r@[0]@));
            assert(word_views(targets@).contains(r@[0]@));
        }
    }
    r
}

impl Bencher {
    /// Start words are pairwise distinct and each word's rows are
    /// well-formed.
    pub open spec fn wf(&self) -> bool {
        &&& forall|i: int| 0 <= i < self.benches@.len() ==> (#[trigger] self.benches@[i]).wf()
        &&& forall|i: int, j: int|
            0 <= i < j < self.benches@.len() ==> self.benches@[i].start_word@
                != self.benches@[j].start_word@
    }

    pub fn new() -> (r: Bencher)
        ensures
            r.wf(),
            r.benches@.len() == 0,
    {
        Bencher { benches: Vec::new() }
    }

    /// The index of the start word's rows, if it is registered.
    fn find_word(&self, start_word: &str) -> (r: Option<usize>)
        ensures
            match r {
                Some(i) => i < self.benches@.len() && self.benches@[i as int].start_word@
                    == start_word@,
                None => forall|i: int|
                    0 <= i < self.benches@.len() ==> (#[trigger] self.benches@[i]).start_word@
                        != start_word@,
            },
    {
        let mut i: usize = 0;
        while i < self.benches.len()
            invariant
                i <= self.benches@.len(),
                forall|k: int|
                    0 <= k < i ==> (#[trigger] self.benches@[k]).start_word@ != start_word@,
            decreases self.benches@.len() - i,
        {
            if str_eq(self.benches[i].start_word.as_str(), start_word) {
                return Some(i);
            }
            i = i + 1;
        }
        None
    }

    /// Registers the pair (start word, target-group). Registration is
    /// idempotent: a pair already present is left untouched, results
    /// included. A target-group with no words is invalid and is rejected.
    pub fn add_bench(&mut self, start_word: &str, targets: &Vec<String>) -> (r: Result<
        (),
        BenchError,
    >)
        requires
            old(self).wf(),
        ensures
            final(self).wf(),
            r is Err <==> targets@.len() == 0,
            r is Err ==> *final(self) == *old(self) && r == Err::<(), BenchError>(
                BenchError::EmptyTargets,
            ),
            r is Ok ==> registered_shape(
                old(self).benches@,
                final(self).benches@,
                start_word@,
                word_views(targets@),
            ),
            r is Ok ==> has_bench_in(final(self).benches@, start_word@, word_views(targets@)),
    {
        if targets.len() == 0 {
            return Err(BenchError::EmptyTargets);
        }
        let canon = canonical_group(targets);
        match self.find_word(start_word) {
            Some(i) => {
                // Look for an entry already holding this group.
                let mut j: usize = 0;
                let n = self.benches[i].entries.len();
                while j < n
                    invariant
                        j <= n,
                        n == self.benches@[i as int].entries@.len(),
                        i < self.benches@.len(),
                        self.benches@ == old(self).benches@,
                        old(self).wf(),
                        targets@.len() > 0,
                        self.benches@[i as int].start_word@ == start_word@,
                        sorted_unique(word_views(canon@)),
                        forall|x: Seq<char>|
                            #![trigger word_views(canon@).contains(x)]
                            #![trigger word_views(targets@).contains(x)]
                            word_views(canon@).contains(x) <==> word_views(targets@).contains(x),
                        forall|k: int|
                            0 <= k < j ==> word_views(
                                (#[trigger] self.benches@[i as int].entries@[k]).targets@,
                            ) != word_views(canon@),
                    decreases n - j,
                {
                    if words_equal(&self.benches[i].entries[j].targets, &canon) {
                        proof {
                            assert(group_matches(
                                self.benches@[i as int].entries@[j as int].targets@,
                                word_views(targets@),
                            ));
                            assert(pair_at(
                                self.benches@,
                                start_word@,
                                word_views(targets@),
                                i as int,
                                j as int,
                            ));
                        }
                        return Ok(());
                    }
                    j = j + 1;
                }
                let ghost oldb = self.benches@;
                let mut wb = self.benches.remove(i);
                let ghost old_entries = wb.entries@;
                wb.entries.push(BenchEntry { targets: canon, results: Vec::new() });
                self.benches.insert(i, wb);
                proof {
                    let ii = i as int;
                    let newb = self.benches@;
                    assert(newb.len() == oldb.len());
                    assert forall|k: int| 0 <= k < oldb.len() && k != ii implies newb[k] == oldb[k]
                        by {
                        assert(newb[k] == oldb.remove(ii).insert(ii, newb[ii])[k]);
                    }
                    assert(newb[ii].start_word == oldb[ii].start_word);
                    assert(newb[ii].entries@.len() == old_entries.len() + 1);
                    assert(forall|j2: int|
                        0 <= j2 < old_entries.len() ==> newb[ii].entries@[j2] == old_entries[j2]);
                    let e = newb[ii].entries@.last();
                    assert(fresh_entry(e, word_views(targets@)));
                    assert forall|k: int| 0 <= k < newb.len() implies (#[trigger] newb[k]).wf() by {
                        if k != ii {
                            assert(newb[k] == oldb[k]);
                        }
                    }
                    assert(registered_shape(oldb, newb, start_word@, word_views(targets@)));
                    assert(pair_at(
                        newb,
                        start_word@,
                        word_views(targets@),
                        ii,
                        newb[ii].entries@.len() - 1,
                    ));
                }
                Ok(())
            },
            None => {
                let mut entries: Vec<BenchEntry> = Vec::new();
                entries.push(BenchEntry { targets: canon, results: Vec::new() });
                self.benches.push(WordBenches { start_word: start_word.to_owned(), entries });
                proof {
                    let last = self.benches@.last();
                    assert(fresh_entry(last.entries@[0], word_views(targets@)));
                    assert(pair_at(
                        self.benches@,
                        start_word@,
                        word_views(targets@),
                        self.benches@.len() - 1,
                        0,
                    ));
                    assert forall|k: int|
                        0 <= k < self.benches@.len() implies (#[trigger] self.benches@[k]).wf() by {
                        if k < self.benches@.len() - 1 {
                            assert(self.benches@[k] == old(self).benches@[k]);
                        }
                    }
                }
                Ok(())
            },
        }
    }
}

/// A ledger row for (start word `w`, target-group `tviews`) stands at
/// indices `(i, j)`.
pub open spec fn pair_at(
    b: Seq<WordBenches>,
    w: Seq<char>,
    tviews: Seq<Seq<char>>,
    i: int,
    j: int,
) -> bool {
    &&& 0 <= i < b.len()
    &&& b[i].start_word@ == w
    &&& 0 <= j < b[i].entries@.len()
    &&& group_matches(b[i].entries@[j].targets@, tviews)
}

/// How recording one outcome changes the ledger: the matching row gains the
/// outcome at the end of its history; a ledger without the pair is left
/// unchanged.
pub open spec fn recorded_shape(
    oldb: Seq<WordBenches>,
    newb: Seq<WordBenches>,
    w: Seq<char>,
    tviews: Seq<Seq<char>>,
    outcome: BenchResult,
) -> bool {
    ||| (exists|i: int, j: int|
        {
            &&& #[trigger] pair_at(oldb, w, tviews, i, j)
            &&& newb.len() == oldb.len()
            &&& (forall|k: int| 0 <= k < oldb.len() && k != i ==> newb[k] == oldb[k])
            &&& newb[i].start_word == oldb[i].start_word
            &&& newb[i].entries@.len() == oldb[i].entries@.len()
            &&& (forall|k: int|
                0 <= k < oldb[i].entries@.len() && k != j ==> newb[i].entries@[k]
                    == oldb[i].entries@[k])
            &&& newb[i].entries@[j].targets == oldb[i].entries@[j].targets
            &&& newb[i].entries@[j].results@ == oldb[i].entries@[j].results@.push(outcome)
        })
    ||| ((forall|i: int, j: int| !pair_at(oldb, w, tviews, i, j)) && newb == oldb)
}

/// How an engine-level failure is recorded: every row registered under the
/// start word gains an Errored outcome with this message and elapsed time,
/// whether or not it was scheduled for the current pass.
pub open spec fn failure_recorded_shape(
    oldb: Seq<WordBenches>,
    newb: Seq<WordBenches>,
    w: Seq<char>,
    msg: Seq<char>,
    elapsed: u64,
) -> bool {
    ||| (exists|i: int|
        {
            &&& 0 <= i < oldb.len()
            &&& (#[trigger] oldb[i]).start_word@ == w
            &&& newb.len() == oldb.len()
            &&& (forall|k: int| 0 <= k < oldb.len() && k != i ==> newb[k] == oldb[k])
            &&& newb[i].start_word == oldb[i].start_word
            &&& newb[i].entries@.len() == oldb[i].entries@.len()
            &&& (forall|j: int|
                0 <= j < oldb[i].entries@.len() ==> {
                    let rs = (#[trigger] newb[i].entries@[j]).results@;
                    let olds = oldb[i].entries@[j].results@;
                    &&& newb[i].entries@[j].targets == oldb[i].entries@[j].targets
                    &&& rs.len() == olds.len() + 1
                    &&& rs.take(olds.len() as int) == olds
                    &&& crate::compiler::is_errored(rs.last())
                    &&& crate::compiler::message_of(rs.last()) == msg
                    &&& rs.last().elapsed == elapsed
                })
        })
    ||| ((forall|i: int| 0 <= i < oldb.len() ==> (#[trigger] oldb[i]).start_word@ != w) && newb
        == oldb)
}

impl Bencher {
    /// Appends one outcome to the history of the matching ledger row; a
    /// pair that is not registered records nothing.
    fn record_outcome(&mut self, start_word: &str, targets: &Vec<String>, outcome: BenchResult)
        requires
            old(self).wf(),
        ensures
            final(self).wf(),
            recorded_shape(
                old(self).benches@,
                final(self).benches@,
                start_word@,
                word_views(targets@),
                outcome,
            ),
    {
        let canon = canonical_group(targets);
        let found = self.find_word(start_word);
        match found {
            None => {
                proof {
                    assert forall|i: int, j: int| !pair_at(
                        self.benches@,
                        start_word@,
                        word_views(targets@),
                        i,
                        j,
                    ) by {}
                }
            },
            Some(i) => {
                let n = self.benches[i].entries.len();
                let mut j: usize = 0;
                while j < n
                    invariant
                        j <= n,
                        n == self.benches@[i as int].entries@.len(),
                        i < self.benches@.len(),
                        self.benches@ == old(self).benches@,
                        old(self).wf(),
                        self.benches@[i as int].start_word@ == start_word@,
                        sorted_unique(word_views(canon@)),
                        forall|x: Seq<char>|
                            #![trigger word_views(canon@).contains(x)]
                            #![trigger word_views(targets@).contains(x)]
                            word_views(canon@).contains(x) <==> word_views(targets@).contains(x),
                        forall|k: int|
                            0 <= k < j ==> word_views(
                                (#[trigger] self.benches@[i as int].entries@[k]).targets@,
                            ) != word_views(canon@),
                    decreases n - j,
                {
                    if words_equal(&self.benches[i].entries[j].targets, &canon) {
                        let ghost oldb = self.benches@;
                        let mut wb = self.benches.remove(i);
                        let mut e = wb.entries.remove(j);
                        e.results.push(outcome);
                        wb.entries.insert(j, e);
                        self.benches.insert(i, wb);
                        proof {
                            let ii = i as int;
                            let jj = j as int;
                            let newb = self.benches@;
                            assert(pair_at(oldb, start_word@, word_views(targets@), ii, jj));
                            assert(newb.len() == oldb.len());
                            assert forall|k: int|
                                0 <= k < oldb.len() && k != ii implies newb[k] == oldb[k] by {}
                            assert(newb[ii].entries@.len() == oldb[ii].entries@.len());
                            assert forall|k: int|
                                0 <= k < oldb[ii].entries@.len() && k != jj
                                implies newb[ii].entries@[k] == oldb[ii].entries@[k] by {}
                            assert forall|k: int| 0 <= k < newb.len() implies (
                            #[trigger] newb[k]).wf() by {
                                if k != ii {
                                    assert(newb[k] == oldb[k]);
                                } else {
                                    assert forall|p: int, q: int|
                                        0 <= p < q < newb[ii].entries@.len() implies word_views(
                                        newb[ii].entries@[p].targets@,
                                    ) != word_views(newb[ii].entries@[q].targets@) by {
                                        assert(newb[ii].entries@[p].targets
                                            == oldb[ii].entries@[p].targets || p == jj);
                                        assert(newb[ii].entries@[q].targets
                                            == oldb[ii].entries@[q].targets || q == jj);
                                    }
                                }
                            }
                        }
                        return ;
                    }
                    j = j + 1;
                }
                proof {
                    assert forall|i2: int, j2: int| !pair_at(
                        self.benches@,
                        start_word@,
                        word_views(targets@),
                        i2,
                        j2,
                    ) by {
                        if pair_at(self.benches@, start_word@, word_views(targets@), i2, j2) {
                            let ii = i as int;
                            if i2 != ii {
                                assert(self.benches@[i2].start_word@
                                    == self.benches@[ii].start_word@);
                                assert(false);
                            }
                            let g = self.benches@[i2].entries@[j2].targets@;
                            crate::words::lemma_canonical_unique(
                                word_views(g),
                                word_views(canon@),
                            );
                        }
                    }
                }
            },
        }
    }

    /// Records that the target-group's winning word appeared at
    /// `found_index` after `elapsed` ns.
    pub fn record_success(
        &mut self,
        start_word: &str,
        targets: &Vec<String>,
        found_index: u64,
        elapsed: u64,
    )
        requires
            old(self).wf(),
        ensures
            final(self).wf(),
            recorded_shape(
                old(self).benches@,
                final(self).benches@,
                start_word@,
                word_views(targets@),
                BenchResult { found_index: Ok(Some(found_index)), elapsed },
            ),
    {
        self.record_outcome(
            start_word,
            targets,
            BenchResult { found_index: Ok(Some(found_index)), elapsed },
        );
    }

    /// Records that no member of the target-group appeared before the trial
    /// stopped after `elapsed` ns.
    pub fn record_not_found(&mut self, start_word: &str, targets: &Vec<String>, elapsed: u64)
        requires
            old(self).wf(),
        ensures
            final(self).wf(),
            recorded_shape(
                old(self).benches@,
                final(self).benches@,
                start_word@,
                word_views(targets@),
                BenchResult { found_index: Ok(None), elapsed },
            ),
    {
        self.record_outcome(start_word, targets, BenchResult { found_index: Ok(None), elapsed });
    }

    /// Records an engine-level failure for the start word: every
    /// target-group registered under it receives an Errored outcome, not
    /// only the ones scheduled for the current pass.
    pub fn record_engine_failure(&mut self, start_word: &str, message: &str, elapsed: u64)
        requires
            old(self).wf(),
        ensures
            final(self).wf(),
            failure_recorded_shape(
                old(self).benches@,
                final(self).benches@,
                start_word@,
                message@,
                elapsed,
            ),
    {
        let found = self.find_word(start_word);
        match found {
            None => (),
            Some(i) => {
                let ghost oldb = self.benches@;
                let mut wb = self.benches.remove(i);
                let ghost old_entries = wb.entries@;
                let n = wb.entries.len();
                let mut j: usize = 0;
                while j < n
                    invariant
                        j <= n,
                        n == old_entries.len(),
                        wb.entries@.len() == old_entries.len(),
                        wb.start_word == oldb[i as int].start_word,
                        i < oldb.len(),
                        old_entries == oldb[i as int].entries@,
                        forall|k: int| j <= k < n ==> wb.entries@[k] == old_entries[k],
                        forall|k: int|
                            0 <= k < j ==> {
                                let rs = (#[trigger] wb.entries@[k]).results@;
                                let olds = old_entries[k].results@;
                                &&& wb.entries@[k].targets == old_entries[k].targets
                                &&& rs.len() == olds.len() + 1
                                &&& rs.take(olds.len() as int) == olds
                                &&& crate::compiler::is_errored(rs.last())
                                &&& crate::compiler::message_of(rs.last()) == message@
                                &&& rs.last().elapsed == elapsed
                            },
                    decreases n - j,
                {
                    let mut e = wb.entries.remove(j);
                    let ghost old_rs = e.results@;
                    e.results.push(BenchResult { found_index: Err(message.to_owned()), elapsed });
                    wb.entries.insert(j, e);
                    proof {
                        assert(wb.entries@[j as int].results@.take(old_rs.len() as int) =~= old_rs);
                    }
                    j = j + 1;
                }
                self.benches.insert(i, wb);
                proof {
                    let ii = i as int;
                    let newb = self.benches@;
                    assert(newb.len() == oldb.len());
                    assert forall|k: int| 0 <= k < oldb.len() && k != ii implies newb[k] == oldb[k]
                        by {}
                    assert forall|k: int| 0 <= k < newb.len() implies (#[trigger] newb[k]).wf() by {
                        if k != ii {
                            assert(newb[k] == oldb[k]);
                        } else {
                            assert forall|p: int, q: int|
                                0 <= p < q < newb[ii].entries@.len() implies word_views(
                                newb[ii].entries@[p].targets@,
                            ) != word_views(newb[ii].entries@[q].targets@) by {
                                assert(newb[ii].entries@[p].targets == old_entries[p].targets);
                                assert(newb[ii].entries@[q].targets == old_entries[q].targets);
                            }
                            assert forall|p: int|
                                0 <= p < newb[ii].entries@.len() implies (
                            #[trigger] newb[ii].entries@[p]).wf() by {
                                assert(newb[ii].entries@[p].targets == old_entries[p].targets);
                                assert(old_entries[p].wf());
                            }
                        }
                    }
                }
            },
        }
    }
}

/// The outcomes kept by "clear successes": the non-Found ones, in order.
pub open spec fn kept_failures(rs: Seq<BenchResult>) -> Seq<BenchResult>
    decreases rs.len(),
{
    if rs.len() == 0 {
        Seq::<BenchResult>::empty()
    } else if rs.last().spec_is_found() {
        kept_failures(rs.drop_last())
    } else {
        kept_failures(rs.drop_last()).push(rs.last())
    }
}

impl Bencher {
    /// Empties every ledger row's outcome history; the registered pairs
    /// stay.
    pub fn clear_results(&mut self)
        requires
            old(self).wf(),
        ensures
            final(self).wf(),
            final(self).benches@.len() == old(self).benches@.len(),
            forall|i: int|
                0 <= i < old(self).benches@.len() ==> {
                    &&& (#[trigger] final(self).benches@[i]).start_word == old(
                        self,
                    ).benches@[i].start_word
                    &&& final(self).benches@[i].entries@.len() == old(
                        self,
                    ).benches@[i].entries@.len()
                    &&& forall|j: int|
                        0 <= j < old(self).benches@[i].entries@.len() ==> {
                            &&& (#[trigger] final(self).benches@[i].entries@[j]).targets == old(
                                self,
                            ).benches@[i].entries@[j].targets
                            &&& final(self).benches@[i].entries@[j].results@.len() == 0
                        }
                },
    {
        let ghost oldb = self.benches@;
        let n = self.benches.len();
        let mut i: usize = 0;
        while i < n
            invariant
                i <= n,
                n == oldb.len(),
                self.benches@.len() == oldb.len(),
                old(self).wf(),
                oldb == old(self).benches@,
                forall|k: int| i <= k < n ==> self.benches@[k] == oldb[k],
                forall|k: int|
                    0 <= k < i ==> {
                        &&& (#[trigger] self.benches@[k]).start_word == oldb[k].start_word
                        &&& self.benches@[k].entries@.len() == oldb[k].entries@.len()
                        &&& forall|j: int|
                            0 <= j < oldb[k].entries@.len() ==> {
                                &&& (#[trigger] self.benches@[k].entries@[j]).targets
                                    == oldb[k].entries@[j].targets
                                &&& self.benches@[k].entries@[j].results@.len() == 0
                            }
                    },
            decreases n - i,
        {
            let mut wb = self.benches.remove(i);
            let ghost old_entries = wb.entries@;
            let m = wb.entries.len();
            let mut j: usize = 0;
            while j < m
                invariant
                    j <= m,
                    m == old_entries.len(),
                    wb.entries@.len() == old_entries.len(),
                    i < oldb.len(),
                    wb.start_word == oldb[i as int].start_word,
                    old_entries == oldb[i as int].entries@,
                    forall|k: int| j <= k < m ==> wb.entries@[k] == old_entries[k],
                    forall|k: int|
                        0 <= k < j ==> (#[trigger] wb.entries@[k]).targets
                            == old_entries[k].targets && wb.entries@[k].results@.len() == 0,
                decreases m - j,
            {
                let mut e = wb.entries.remove(j);
                e.results = Vec::new();
                wb.entries.insert(j, e);
                j = j + 1;
            }
            self.benches.insert(i, wb);
            i = i + 1;
        }
        proof {
            assert forall|k: int| 0 <= k < self.benches@.len() implies (
            #[trigger] self.benches@[k]).wf() by {
                assert(oldb[k].wf());
                assert forall|p: int|
                    0 <= p < self.benches@[k].entries@.len() implies (
                #[trigger] self.benches@[k].entries@[p]).wf() by {
                    assert(self.benches@[k].entries@[p].targets == oldb[k].entries@[p].targets);
                    assert(oldb[k].entries@[p].wf());
                }
                assert forall|p: int, q: int|
                    0 <= p < q < self.benches@[k].entries@.len() implies word_views(
                    self.benches@[k].entries@[p].targets@,
                ) != word_views(self.benches@[k].entries@[q].targets@) by {
                    assert(self.benches@[k].entries@[p].targets == oldb[k].entries@[p].targets);
                    assert(self.benches@[k].entries@[q].targets == oldb[k].entries@[q].targets);
                }
            }
        }
    }

    /// Deletes every Found outcome from every ledger row's history, keeping
    /// the NotFound and Errored ones. Run after the warm-up pass: cache
    /// priming must not pollute the measured statistics, while warm-up
    /// failures still count toward the skip threshold.
    pub fn clear_successes(&mut self)
        requires
            old(self).wf(),
        ensures
            final(self).wf(),
            final(self).benches@.len() == old(self).benches@.len(),
            forall|i: int|
                0 <= i < old(self).benches@.len() ==> {
                    &&& (#[trigger] final(self).benches@[i]).start_word == old(
                        self,
                    ).benches@[i].start_word
                    &&& final(self).benches@[i].entries@.len() == old(
                        self,
                    ).benches@[i].entries@.len()
                    &&& forall|j: int|
                        0 <= j < old(self).benches@[i].entries@.len() ==> {
                            &&& (#[trigger] final(self).benches@[i].entries@[j]).targets == old(
                                self,
                            ).benches@[i].entries@[j].targets
                            &&& final(self).benches@[i].entries@[j].results@ == kept_failures(
                                old(self).benches@[i].entries@[j].results@,
                            )
                        }
                },
    {
        let ghost oldb = self.benches@;
        let n = self.benches.len();
        let mut i: usize = 0;
        while i < n
            invariant
                i <= n,
                n == oldb.len(),
                self.benches@.len() == oldb.len(),
                old(self).wf(),
                oldb == old(self).benches@,
                forall|k: int| i <= k < n ==> self.benches@[k] == oldb[k],
                forall|k: int|
                    0 <= k < i ==> {
                        &&& (#[trigger] self.benches@[k]).start_word == oldb[k].start_word
                        &&& self.benches@[k].entries@.len() == oldb[k].entries@.len()
                        &&& forall|j: int|
                            0 <= j < oldb[k].entries@.len() ==> {
                                &&& (#[trigger] self.benches@[k].entries@[j]).targets
                                    == oldb[k].entries@[j].targets
                                &&& self.benches@[k].entries@[j].results@ == kept_failures(
                                    oldb[k].entries@[j].results@,
                                )
                            }
                    },
            decreases n - i,
        {
            let mut wb = self.benches.remove(i);
            let ghost old_entries = wb.entries@;
            let m = wb.entries.len();
            let mut j: usize = 0;
            while j < m
                invariant
                    j <= m,
                    m == old_entries.len(),
                    wb.entries@.len() == old_entries.len(),
                    i < oldb.len(),
                    wb.start_word == oldb[i as int].start_word,
                    old_entries == oldb[i as int].entries@,
                    forall|k: int| j <= k < m ==> wb.entries@[k] == old_entries[k],
                    forall|k: int|
                        0 <= k < j ==> (#[trigger] wb.entries@[k]).targets
                            == old_entries[k].targets && wb.entries@[k].results@ == kept_failures(
                            old_entries[k].results@,
                        ),
                decreases m - j,
            {
                let mut e = wb.entries.remove(j);
                let ghost old_rs = e.results@;
                let mut kept: Vec<BenchResult> = Vec::new();
                let mut k: usize = 0;
                proof {
                    assert(old_rs.take(0) =~= Seq::<BenchResult>::empty());
                }
                while k < e.results.len()
                    invariant
                        k <= e.results@.len(),
                        e.results@ == old_rs,
                        kept@ == kept_failures(old_rs.take(k as int)),
                    decreases e.results@.len() - k,
                {
                    let r = e.results[k].clone();
                    if !r.is_found() {
                        kept.push(r);
                    }
                    proof {
                        let pfx = old_rs.take(k as int);
                        let nxt = old_rs.take(k + 1);
                        assert(nxt.drop_last() =~= pfx);
                        assert(nxt.last() == old_rs[k as int]);
                    }
                    k = k + 1;
                }
                proof {
                    assert(old_rs.take(old_rs.len() as int) =~= old_rs);
                }
                e.results = kept;
                wb.entries.insert(j, e);
                j = j + 1;
            }
            self.benches.insert(i, wb);
            i = i + 1;
        }
        proof {
            assert forall|k: int| 0 <= k < self.benches@.len() implies (
            #[trigger] self.benches@[k]).wf() by {
                assert(oldb[k].wf());
                assert forall|p: int|
                    0 <= p < self.benches@[k].entries@.len() implies (
                #[trigger] self.benches@[k].entries@[p]).wf() by {
                    assert(self.benches@[k].entries@[p].targets == oldb[k].entries@[p].targets);
                    assert(oldb[k].entries@[p].wf());
                }
                assert forall|p: int, q: int|
                    0 <= p < q < self.benches@[k].entries@.len() implies word_views(
                    self.benches@[k].entries@[p].targets@,
                ) != word_views(self.benches@[k].entries@[q].targets@) by {
                    assert(self.benches@[k].entries@[p].targets == oldb[k].entries@[p].targets);
                    assert(self.benches@[k].entries@[q].targets == oldb[k].entries@[q].targets);
                }
            }
        }
    }
}

/// Whether a ledger row still needs trials: it has fewer than
/// `repeat_failed` recorded outcomes, or it has ever produced a Found
/// outcome. A row that fails this test is a hopeless case and is skipped.
pub open spec fn needs_trial(e: BenchEntry, repeat_failed: int) -> bool {
    ||| e.results@.len() < repeat_failed
    ||| exists|k: int| 0 <= k < e.results@.len() && (#[trigger] e.results@[k]).spec_is_found()
}

/// The target-groups of `entries` that still need trials, in order.
pub open spec fn scheduled_groups(entries: Seq<BenchEntry>, repeat_failed: int) -> Seq<Seq<String>>
    decreases entries.len(),
{
    if entries.len() == 0 {
        Seq::<Seq<String>>::empty()
    } else if needs_trial(entries.last(), repeat_failed) {
        scheduled_groups(entries.drop_last(), repeat_failed).push(entries.last().targets@)
    } else {
        scheduled_groups(entries.drop_last(), repeat_failed)
    }
}

/// Whether any outcome of the history is Found.
pub fn any_found(rs: &Vec<BenchResult>) -> (r: bool)
    ensures
        r == exists|k: int| 0 <= k < rs@.len() && (#[trigger] rs@[k]).spec_is_found(),
{
    let mut i: usize = 0;
    while i < rs.len()
        invariant
            i <= rs@.len(),
            forall|k: int| 0 <= k < i ==> !(#[trigger] rs@[k]).spec_is_found(),
        decreases rs@.len() - i,
    {
        if rs[i].is_found() {
            return true;
        }
        i = i + 1;
    }
    false
}

impl Bencher {
    /// Plans one trial of one start word: a match runner holding exactly
    /// the target-groups that the skip heuristic still schedules. An empty
    /// runner means the start word is skipped for this pass.
    pub fn runner_for_word(&self, start_word: &str, repeat_failed: u8) -> (r: BenchRunner)
        requires
            self.wf(),
        ensures
            r.wf(),
            match_runner_shape(self.benches@, start_word@, repeat_failed as int, r),
    {
        let mut runner = BenchRunner::new();
        match self.find_word(start_word) {
            None => runner,
            Some(i) => {
                let n = self.benches[i].entries.len();
                let mut j: usize = 0;
                proof {
                    let es = self.benches@[i as int].entries@;
                    assert(es.take(0) =~= Seq::<BenchEntry>::empty());
                    assert(group_views(runner.remaining_targets@) =~= scheduled_groups(
                        es.take(0),
                        repeat_failed as int,
                    ));
                }
                while j < n
                    invariant
                        j <= n,
                        i < self.benches@.len(),
                        n == self.benches@[i as int].entries@.len(),
                        self.wf(),
                        runner.wf(),
                        group_views(runner.remaining_targets@) == scheduled_groups(
                            self.benches@[i as int].entries@.take(j as int),
                            repeat_failed as int,
                        ),
                    decreases n - j,
                {
                    let needs = self.benches[i].entries[j].results.len() < repeat_failed as usize
                        || any_found(&self.benches[i].entries[j].results);
                    proof {
                        let es = self.benches@[i as int].entries@;
                        assert(needs == needs_trial(es[j as int], repeat_failed as int));
                        assert(es.take(j + 1).drop_last() =~= es.take(j as int));
                        assert(es.take(j + 1).last() == es[j as int]);
                    }
                    if needs {
                        proof {
                            assert(self.benches@[i as int].entries@[j as int].wf());
                        }
                        runner.add_targets(&self.benches[i].entries[j].targets);
                    }
                    j = j + 1;
                }
                proof {
                    let es = self.benches@[i as int].entries@;
                    assert(es.take(es.len() as int) =~= es);
                }
                runner
            },
        }
    }
}

/// The runner holds exactly the groups that the skip heuristic schedules
/// for this start word (none when the word is not registered).
pub open spec fn match_runner_shape(
    b: Seq<WordBenches>,
    w: Seq<char>,
    repeat_failed: int,
    r: BenchRunner,
) -> bool {
    ||| (exists|i: int|
        {
            &&& 0 <= i < b.len()
            &&& (#[trigger] b[i]).start_word@ == w
            &&& group_views(r.remaining_targets@) == scheduled_groups(
                b[i].entries@,
                repeat_failed,
            )
        })
    ||| ((forall|i: int| 0 <= i < b.len() ==> (#[trigger] b[i]).start_word@ != w)
        && r.remaining_targets@.len() == 0)
}

/// When no pending group contains the word, none is hit and all stay.
proof fn lemma_groups_split_no_hit(gs: Seq<Vec<String>>, w: Seq<char>)
    requires
        forall|i: int| 0 <= i < gs.len() ==> !group_has((#[trigger] gs[i])@, w),
    ensures
        groups_hit(gs, w) == Seq::<Seq<String>>::empty(),
        groups_left(gs, w) == group_views(gs),
    decreases gs.len(),
{
    if gs.len() > 0 {
        lemma_groups_split_no_hit(gs.drop_last(), w);
        assert(groups_left(gs, w) =~= group_views(gs));
    } else {
        assert(groups_left(gs, w) =~= group_views(gs));
    }
}

/// The rows reported for one history: the bench name paired with each
/// outcome, in trial order.
pub open spec fn results_rows(name: Seq<char>, rs: Seq<BenchResult>) -> Seq<(Seq<char>, BenchResult)>
    decreases rs.len(),
{
    if rs.len() == 0 {
        Seq::<(Seq<char>, BenchResult)>::empty()
    } else {
        results_rows(name, rs.drop_last()).push((name, rs.last()))
    }
}

/// The rows reported for all entries of one start word, in order.
pub open spec fn entries_rows(w: Seq<char>, es: Seq<BenchEntry>) -> Seq<(Seq<char>, BenchResult)>
    decreases es.len(),
{
    if es.len() == 0 {
        Seq::<(Seq<char>, BenchResult)>::empty()
    } else {
        entries_rows(w, es.drop_last()) + results_rows(
            crate::words::bench_name_spec(w, word_views(es.last().targets@)),
            es.last().results@,
        )
    }
}

/// The rows reported for the whole ledger, in registration order.
pub open spec fn all_rows(bs: Seq<WordBenches>) -> Seq<(Seq<char>, BenchResult)>
    decreases bs.len(),
{
    if bs.len() == 0 {
        Seq::<(Seq<char>, BenchResult)>::empty()
    } else {
        all_rows(bs.drop_last()) + entries_rows(bs.last().start_word@, bs.last().entries@)
    }
}

/// The views of reported rows.
pub open spec fn row_views(rows: Seq<(String, BenchResult)>) -> Seq<(Seq<char>, BenchResult)> {
    rows.map_values(|p: (String, BenchResult)| (p.0@, p.1))
}

/// The start words of the ledger, in registration order.
pub open spec fn start_words_of(bs: Seq<WordBenches>) -> Seq<String> {
    bs.map_values(|wb: WordBenches| wb.start_word)
}

/// Relies on rand's `SliceRandom::shuffle`: permutes the slice in place,
/// keeping exactly the same elements. Which permutation comes out is up to
/// the process-wide random source.
#[verifier::external_body]
fn shuffle_words(words: &mut Vec<String>)
    ensures
        final(words)@.to_multiset() == old(words)@.to_multiset(),
{
    words.shuffle(&mut rand::rng());
}

impl Bencher {
    /// Every (bench name, outcome) row of the ledger, the name in its
    /// canonical serialization.
    pub fn get_results(&self) -> (r: Vec<(String, BenchResult)>)
        requires
            self.wf(),
        ensures
            row_views(r@) == all_rows(self.benches@),
    {
        let mut rows: Vec<(String, BenchResult)> = Vec::new();
        let mut bench_name = String::new();
        let mut i: usize = 0;
        proof {
            assert(self.benches@.take(0) =~= Seq::<WordBenches>::empty());
            assert(row_views(rows@) =~= all_rows(self.benches@.take(0)));
        }
        while i < self.benches.len()
            invariant
                i <= self.benches@.len(),
                self.wf(),
                row_views(rows@) == all_rows(self.benches@.take(i as int)),
            decreases self.benches@.len() - i,
        {
            let ghost word_base = all_rows(self.benches@.take(i as int));
            let m = self.benches[i].entries.len();
            let mut j: usize = 0;
            proof {
                let es = self.benches@[i as int].entries@;
                assert(es.take(0) =~= Seq::<BenchEntry>::empty());
                assert(word_base + entries_rows(self.benches@[i as int].start_word@, es.take(0))
                    =~= word_base);
            }
            while j < m
                invariant
                    j <= m,
                    i < self.benches@.len(),
                    m == self.benches@[i as int].entries@.len(),
                    self.wf(),
                    word_base == all_rows(self.benches@.take(i as int)),
                    row_views(rows@) == word_base + entries_rows(
                        self.benches@[i as int].start_word@,
                        self.benches@[i as int].entries@.take(j as int),
                    ),
                decreases m - j,
            {
                let ghost w = self.benches@[i as int].start_word@;
                let ghost es = self.benches@[i as int].entries@;
                proof {
                    assert(es[j as int].wf());
                }
                set_bench_name(
                    &mut bench_name,
                    self.benches[i].start_word.as_str(),
                    &self.benches[i].entries[j].targets,
                );
                let ghost name = crate::words::bench_name_spec(
                    w,
                    word_views(es[j as int].targets@),
                );
                let ghost entry_base = word_base + entries_rows(w, es.take(j as int));
                let rn = self.benches[i].entries[j].results.len();
                let mut k: usize = 0;
                proof {
                    let rs = es[j as int].results@;
                    assert(rs.take(0) =~= Seq::<BenchResult>::empty());
                    assert(entry_base + results_rows(name, rs.take(0)) =~= entry_base);
                }
                while k < rn
                    invariant
                        k <= rn,
                        i < self.benches@.len(),
                        j < self.benches@[i as int].entries@.len(),
                        es == self.benches@[i as int].entries@,
                        w == self.benches@[i as int].start_word@,
                        rn == es[j as int].results@.len(),
                        self.wf(),
                        bench_name@ == name,
                        name == crate::words::bench_name_spec(
                            w,
                            word_views(es[j as int].targets@),
                        ),
                        row_views(rows@) == entry_base + results_rows(
                            name,
                            es[j as int].results@.take(k as int),
                        ),
                    decreases rn - k,
                {
                    let ghost old_rows = rows@;
                    rows.push((bench_name.clone(), self.benches[i].entries[j].results[k].clone()));
                    proof {
                        let rs = es[j as int].results@;
                        assert(rs.take(k + 1).drop_last() =~= rs.take(k as int));
                        assert(rs.take(k + 1).last() == rs[k as int]);
                        assert(row_views(rows@) =~= row_views(old_rows).push((name, rs[k as int])));
                    }
                    k = k + 1;
                }
                proof {
                    let rs = es[j as int].results@;
                    assert(rs.take(rs.len() as int) =~= rs);
                    assert(es.take(j + 1).drop_last() =~= es.take(j as int));
                    assert(es.take(j + 1).last() == es[j as int]);
                    assert(entry_base + results_rows(name, rs) =~= word_base + entries_rows(
                        w,
                        es.take(j + 1),
                    ));
                }
                j = j + 1;
            }
            proof {
                let es = self.benches@[i as int].entries@;
                assert(es.take(es.len() as int) =~= es);
                assert(self.benches@.take(i + 1).drop_last() =~= self.benches@.take(i as int));
                assert(self.benches@.take(i + 1).last() == self.benches@[i as int]);
            }
            i = i + 1;
        }
        proof {
            assert(self.benches@.take(self.benches@.len() as int) =~= self.benches@);
        }
        rows
    }

    /// The registered start words in a fresh random order, for one pass.
    pub fn shuffled_start_words(&self) -> (r: Vec<String>)
        ensures
            r@.to_multiset() == start_words_of(self.benches@).to_multiset(),
    {
        let mut words: Vec<String> = Vec::new();
        let mut i: usize = 0;
        proof {
            assert(words@ =~= start_words_of(self.benches@.take(0)));
        }
        while i < self.benches.len()
            invariant
                i <= self.benches@.len(),
                words@ == start_words_of(self.benches@.take(i as int)),
            decreases self.benches@.len() - i,
        {
            words.push(self.benches[i].start_word.clone());
            proof {
                assert(words@ =~= start_words_of(self.benches@.take(i + 1)));
            }
            i = i + 1;
        }
        proof {
            assert(self.benches@.take(self.benches@.len() as int) =~= self.benches@);
        }
        shuffle_words(&mut words);
        words
    }
}


/// The pair (w2, g2) keeps its row under any later registration of
/// (w, tviews).
pub proof fn lemma_registered_keeps(
    oldb: Seq<WordBenches>,
    newb: Seq<WordBenches>,
    w: Seq<char>,
    tviews: Seq<Seq<char>>,
    w2: Seq<char>,
    g2: Seq<Seq<char>>,
)
    requires
        registered_shape(oldb, newb, w, tviews),
        has_bench_in(oldb, w2, g2),
    ensures
        has_bench_in(newb, w2, g2),
{
    let (i, j) = choose|i: int, j: int| #[trigger] pair_at(oldb, w2, g2, i, j);
    if newb == oldb {
        assert(pair_at(newb, w2, g2, i, j));
    } else if newb.len() == oldb.len() {
        let iu = choose|iu: int|
            {
                &&& 0 <= iu < oldb.len()
                &&& (#[trigger] oldb[iu]).start_word@ == w
                &&& newb.len() == oldb.len()
                &&& (forall|k: int| 0 <= k < oldb.len() && k != iu ==> newb[k] == oldb[k])
                &&& newb[iu].start_word == oldb[iu].start_word
                &&& newb[iu].entries@.len() == oldb[iu].entries@.len() + 1
                &&& (forall|j2: int|
                    0 <= j2 < oldb[iu].entries@.len() ==> newb[iu].entries@[j2]
                        == oldb[iu].entries@[j2])
                &&& fresh_entry(newb[iu].entries@.last(), tviews)
            };
        if i == iu {
            assert(newb[i].entries@[j] == oldb[i].entries@[j]);
            assert(pair_at(newb, w2, g2, i, j));
        } else {
            assert(newb[i] == oldb[i]);
            assert(pair_at(newb, w2, g2, i, j));
        }
    } else {
        assert(newb[i] == oldb[i]);
        assert(pair_at(newb, w2, g2, i, j));
    }
}

/// Every target-group a parsed line lists has at least one word.
proof fn lemma_targets_rest_nonempty(s: Seq<char>, i: int)
    requires
        0 <= i <= s.len(),
    ensures
        forall|k: int|
            0 <= k < crate::benchfile::targets_rest(s, i).1.len() ==> (
            #[trigger] crate::benchfile::targets_rest(s, i).1[k]).len() > 0,
    decreases s.len() - i,
{
    crate::benchfile::lemma_skip_spaces_bounds(s, i);
    let a = crate::benchfile::skip_spaces(s, i);
    if a < s.len() && s[a] == ',' {
        crate::benchfile::lemma_skip_spaces_bounds(s, a + 1);
        let b = crate::benchfile::skip_spaces(s, a + 1);
        crate::benchfile::lemma_word_end_bounds(s, b);
        let e0 = crate::benchfile::word_end(s, b);
        if e0 > b {
            crate::benchfile::lemma_word_list_rest_bounds(s, e0, '|');
            let e = crate::benchfile::parse_word_list(s, b, '|')->Some_0.0;
            lemma_targets_rest_nonempty(s, e);
            let t = crate::benchfile::parse_word_list(s, b, '|')->Some_0.1;
            let rest = crate::benchfile::targets_rest(s, e).1;
            let ts = crate::benchfile::targets_rest(s, i).1;
            assert(ts == seq![t] + rest);
            assert(t.len() >= 1);
            assert forall|k: int| 0 <= k < ts.len() implies (#[trigger] ts[k]).len() > 0 by {
                if k == 0 {
                    assert(ts[0] == t);
                } else {
                    assert(ts[k] == rest[k - 1]);
                }
            }
        }
    }
}

proof fn lemma_parse_targets_nonempty(s: Seq<char>, i: int)
    requires
        0 <= i <= s.len(),
        crate::benchfile::parse_targets(s, i) is Some,
    ensures
        forall|k: int|
            0 <= k < crate::benchfile::parse_targets(s, i)->Some_0.1.len() ==> (
            #[trigger] crate::benchfile::parse_targets(s, i)->Some_0.1[k]).len() > 0,
{
    crate::benchfile::lemma_word_list_advances(s, i, '|');
    let e = crate::benchfile::parse_word_list(s, i, '|')->Some_0.0;
    lemma_targets_rest_nonempty(s, e);
}

/// Every pair a parsed definition line lists has a ledger row, both under
/// the start word as written and under its accent-stripped variant.
pub open spec fn line_pairs_registered(bs: Seq<WordBenches>, line: Seq<char>) -> bool {
    match crate::benchfile::parse_bench_line(line) {
        Some(Some(v)) => forall|si: int, ti: int|
            0 <= si < v.0.len() && 0 <= ti < v.1.len() ==> has_bench_in(
                bs,
                #[trigger] v.0[si],
                #[trigger] v.1[ti],
            ) && has_bench_in(bs, crate::words::unaccented_of(v.0[si]), v.1[ti]),
        _ => true,
    }
}

/// The first `upto` lines parse, and every pair they list has its row.
pub open spec fn lines_loaded(bs: Seq<WordBenches>, lines: Seq<String>, upto: int) -> bool {
    forall|li: int|
        0 <= li < upto ==> crate::benchfile::parse_bench_line((#[trigger] lines[li])@) is Some
            && line_pairs_registered(bs, lines[li]@)
}

/// One registration keeps every row that earlier lines put in.
proof fn lemma_loaded_keeps(
    before: Seq<WordBenches>,
    after: Seq<WordBenches>,
    w: Seq<char>,
    tviews: Seq<Seq<char>>,
    lines: Seq<String>,
    upto: int,
)
    requires
        registered_shape(before, after, w, tviews),
        lines_loaded(before, lines, upto),
    ensures
        lines_loaded(after, lines, upto),
        forall|w2: Seq<char>, g2: Seq<Seq<char>>|
            #[trigger] has_bench_in(before, w2, g2) ==> has_bench_in(after, w2, g2),
{
    assert forall|w2: Seq<char>, g2: Seq<Seq<char>>|
        #[trigger] has_bench_in(before, w2, g2) implies has_bench_in(after, w2, g2) by {
        lemma_registered_keeps(before, after, w, tviews, w2, g2);
    }
    assert forall|li: int|
        0 <= li < upto implies crate::benchfile::parse_bench_line((#[trigger] lines[li])@) is Some
        && line_pairs_registered(after, lines[li]@) by {
        match crate::benchfile::parse_bench_line(lines[li]@) {
            Some(Some(v)) => {
                assert forall|si: int, ti: int|
                    0 <= si < v.0.len() && 0 <= ti < v.1.len() implies has_bench_in(
                    after,
                    #[trigger] v.0[si],
                    #[trigger] v.1[ti],
                ) && has_bench_in(after, crate::words::unaccented_of(v.0[si]), v.1[ti]) by {
                    assert(has_bench_in(before, v.0[si], v.1[ti]));
                    assert(has_bench_in(before, crate::words::unaccented_of(v.0[si]), v.1[ti]));
                }
            },
            _ => (),
        }
    }
}

impl Bencher {
    /// Loads benchmark definitions, one per line. Every start word of every
    /// definition line is registered with each of the line's target-groups,
    /// and so is its accent-stripped variant. The first malformed line
    /// aborts loading with its one-based number and its text; the lines
    /// before it stay registered.
    pub fn load_benches(&mut self, lines: &Vec<String>) -> (r: Result<(), BenchError>)
        requires
            old(self).wf(),
        ensures
            final(self).wf(),
            r is Ok ==> lines_loaded(final(self).benches@, lines@, lines@.len() as int),
            r matches Err(e) ==> exists|li: int|
                {
                    &&& 0 <= li < lines@.len()
                    &&& crate::benchfile::parse_bench_line(((#[trigger] lines@[li])@)) is None
                    &&& lines_loaded(final(self).benches@, lines@, li)
                    &&& e matches BenchError::ParseErr { line_no, text } && line_no == li + 1
                        && text@ == lines@[li]@
                },
    {
        let mut unaccented = String::new();
        let mut li: usize = 0;
        while li < lines.len()
            invariant
                li <= lines@.len(),
                self.wf(),
                lines_loaded(self.benches@, lines@, li as int),
            decreases lines@.len() - li,
        {
            let parsed = crate::benchfile::bench_line(lines[li].as_str());
            match parsed {
                Err(_) => {
                    let err = BenchError::ParseErr { line_no: li + 1, text: lines[li].clone() };
                    return Err(err);
                },
                Ok(None) => (),
                Ok(Some((starts, target_list))) => {
                    let ghost v = crate::benchfile::parse_bench_line(
                        lines@[li as int]@,
                    )->Some_0->Some_0;
                    proof {
                        let s0 = lines@[li as int]@;
                        let i0 = crate::benchfile::skip_spaces(s0, 0);
                        crate::benchfile::lemma_skip_spaces_bounds(s0, 0);
                        crate::benchfile::lemma_word_list_advances(s0, i0, ',');
                        let j = crate::benchfile::parse_word_list(s0, i0, ',')->Some_0.0;
                        let a = crate::benchfile::skip_spaces(s0, j);
                        crate::benchfile::lemma_skip_spaces_bounds(s0, j);
                        let b = crate::benchfile::skip_spaces(s0, a + 1);
                        crate::benchfile::lemma_skip_spaces_bounds(s0, a + 1);
                        lemma_parse_targets_nonempty(s0, b);
                    }
                    let mut si: usize = 0;
                    while si < starts.len()
                        invariant
                            si <= starts@.len(),
                            self.wf(),
                            lines_loaded(self.benches@, lines@, li as int),
                            li < lines@.len(),
                            crate::benchfile::parse_bench_line(lines@[li as int]@) == Some(
                                Some(v),
                            ),
                            word_views(starts@) == v.0,
                            crate::benchfile::group_list_views(target_list@) == v.1,
                            target_list@.len() == v.1.len(),
                            forall|k: int| 0 <= k < v.1.len() ==> (#[trigger] v.1[k]).len() > 0,
                            forall|s2: int, t2: int|
                                0 <= s2 < si && 0 <= t2 < v.1.len() ==> has_bench_in(
                                    self.benches@,
                                    #[trigger] v.0[s2],
                                    #[trigger] v.1[t2],
                                ) && has_bench_in(
                                    self.benches@,
                                    crate::words::unaccented_of(v.0[s2]),
                                    v.1[t2],
                                ),
                        decreases starts@.len() - si,
                    {
                        crate::words::set_unaccented(starts[si].as_str(), &mut unaccented);
                        proof {
                            assert(word_views(starts@)[si as int] == starts@[si as int]@);
                        }
                        let mut ti: usize = 0;
                        while ti < target_list.len()
                            invariant
                                ti <= target_list@.len(),
                                si < starts@.len(),
                                self.wf(),
                                lines_loaded(self.benches@, lines@, li as int),
                                li < lines@.len(),
                                crate::benchfile::parse_bench_line(lines@[li as int]@) == Some(
                                    Some(v),
                                ),
                                word_views(starts@) == v.0,
                                crate::benchfile::group_list_views(target_list@) == v.1,
                                target_list@.len() == v.1.len(),
                                unaccented@ == crate::words::unaccented_of(v.0[si as int]),
                                forall|k: int| 0 <= k < v.1.len() ==> (#[trigger] v.1[k]).len() > 0,
                                forall|s2: int, t2: int|
                                    0 <= s2 < si && 0 <= t2 < v.1.len() ==> has_bench_in(
                                        self.benches@,
                                        #[trigger] v.0[s2],
                                        #[trigger] v.1[t2],
                                    ) && has_bench_in(
                                        self.benches@,
                                        crate::words::unaccented_of(v.0[s2]),
                                        v.1[t2],
                                    ),
                                forall|t2: int|
                                    0 <= t2 < ti ==> has_bench_in(
                                        self.benches@,
                                        v.0[si as int],
                                        #[trigger] v.1[t2],
                                    ) && has_bench_in(
                                        self.benches@,
                                        crate::words::unaccented_of(v.0[si as int]),
                                        v.1[t2],
                                    ),
                            decreases target_list@.len() - ti,
                        {
                            let ghost before = self.benches@;
                            proof {
                                assert(crate::benchfile::group_list_views(target_list@)[ti as int]
                                    == word_views(target_list@[ti as int]@));
                                assert(v.1[ti as int].len() > 0);
                                assert(target_list@[ti as int]@.len() > 0);
                                assert(word_views(starts@)[si as int] == starts@[si as int]@);
                            }
                            let r1 = self.add_bench(starts[si].as_str(), &target_list[ti]);
                            proof {
                                lemma_loaded_keeps(
                                    before,
                                    self.benches@,
                                    v.0[si as int],
                                    v.1[ti as int],
                                    lines@,
                                    li as int,
                                );
                            }
                            let ghost mid = self.benches@;
                            let r2 = self.add_bench(unaccented.as_str(), &target_list[ti]);
                            proof {
                                lemma_loaded_keeps(
                                    mid,
                                    self.benches@,
                                    crate::words::unaccented_of(v.0[si as int]),
                                    v.1[ti as int],
                                    lines@,
                                    li as int,
                                );
                            }
                            ti = ti + 1;
                        }
                        si = si + 1;
                    }
                    proof {
                        assert(line_pairs_registered(self.benches@, lines@[li as int]@));
                    }
                },
            }
            proof {
                assert forall|l2: int|
                    0 <= l2 < li + 1 implies crate::benchfile::parse_bench_line(
                    (#[trigger] lines@[l2])@,
                ) is Some && line_pairs_registered(self.benches@, lines@[l2]@) by {}
            }
            li = li + 1;
        }
        Ok(())
    }
}

impl Default for Bencher {
    /// An empty ledger.
    fn default() -> (r: Bencher)
        ensures
            r.wf(),
            r.benches@.len() == 0,
    {
        Bencher::new()
    }
}

} // verus!
