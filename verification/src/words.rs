//! Words and word sets: the canonical (sorted, duplicate-free) form of a
//! target-group, the canonical bench name, and accent stripping.

use unicode_normalization::UnicodeNormalization;
use vstd::prelude::*;

use crate::outcome::seq_char_le;
use crate::outcome::str_le;

verus! {

/// The character sequences held by a vector of words.
pub open spec fn word_views(words: Seq<String>) -> Seq<Seq<char>> {
    words.map_values(|w: String| w@)
}

/// Strictly ascending in the lexicographic order: sorted, with no two words
/// holding the same characters. This is the canonical form of a word set.
pub open spec fn sorted_unique(ws: Seq<Seq<char>>) -> bool {
    forall|i: int, j: int|
        0 <= i < j < ws.len() ==> seq_char_le(#[trigger] ws[i], #[trigger] ws[j]) && ws[i] != ws[j]
}

/// Inserts `word` into a canonical word set, keeping it canonical; present
/// words are left alone (insertion is idempotent).
pub fn insert_sorted_unique(words: &mut Vec<String>, word: &String)
    requires
        sorted_unique(word_views(old(words)@)),
    ensures
        sorted_unique(word_views(final(words)@)),
        forall|x: Seq<char>|
            word_views(final(words)@).contains(x) <==> (word_views(old(words)@).contains(x)
                || x == word@),
        final(words)@.len() <= old(words)@.len() + 1,
{
    let ghost olds = words@;
    let mut j: usize = 0;
    while j < words.len() && str_le(words[j].as_str(), word.as_str()) && !(words[j] == *word)
        invariant
            j <= words@.len(),
            words@ == olds,
            forall|k: int|
                0 <= k < j ==> seq_char_le(#[trigger] word_views(words@)[k], word@) && word_views(
                    words@,
                )[k] != word@,
        decreases words@.len() - j,
    {
        j = j + 1;
    }
    if j < words.len() && words[j] == *word {
        proof {
            assert(word_views(words@)[j as int] == word@);
            assert(word_views(words@).contains(word@));
        }
        return ;
    }
    proof {
        if j < words@.len() {
            crate::outcome::lemma_seq_char_le_total(word_views(olds)[j as int], word@);
            assert(seq_char_le(word@, word_views(olds)[j as int]));
            assert(word_views(olds)[j as int] != word@);
        }
    }
    words.insert(j, word.clone());
    proof {
        let jj = j as int;
        let nv = word_views(words@);
        let ov = word_views(olds);
        assert(nv.len() == ov.len() + 1);
        assert forall|k: int| 0 <= k < nv.len() implies #[trigger] nv[k] == (if k < jj {
            ov[k]
        } else if k == jj {
            word@
        } else {
            ov[k - 1]
        }) by {
            assert(words@ == olds.insert(jj, *word));
        }
        assert forall|p: int, q: int| 0 <= p < q < nv.len() implies seq_char_le(
            #[trigger] nv[p],
            #[trigger] nv[q],
        ) && nv[p] != nv[q] by {
            if p < jj && q == jj {
            } else if p == jj && q > jj {
                if jj < q - 1 {
                    crate::outcome::lemma_seq_char_le_trans(word@, ov[jj], ov[q - 1]);
                    if word@ == ov[q - 1] {
                        crate::outcome::lemma_seq_char_le_total(word@, ov[jj]);
                        assert(ov[jj] == ov[q - 1]);
                    }
                }
            } else if p < jj && q > jj {
                assert(seq_char_le(ov[p], ov[q - 1]) && ov[p] != ov[q - 1]);
            } else {
            }
        }
        assert forall|x: Seq<char>| nv.contains(x) implies (ov.contains(x) || x == word@) by {
            let k = choose|k: int| 0 <= k < nv.len() && nv[k] == x;
            if k < jj {
                assert(ov[k] == x);
            } else if k > jj {
                assert(ov[k - 1] == x);
            }
        }
        assert forall|x: Seq<char>| (ov.contains(x) || x == word@) implies nv.contains(x) by {
            if x == word@ {
                assert(nv[jj] == x);
            } else if ov.contains(x) {
                let k = choose|k: int| 0 <= k < ov.len() && ov[k] == x;
                if k < jj {
                    assert(nv[k] == x);
                } else {
                    assert(nv[k + 1] == x);
                }
            }
        }
    }
}

/// Two canonical word sets with the same members are the same sequence.
pub proof fn lemma_canonical_unique(a: Seq<Seq<char>>, b: Seq<Seq<char>>)
    requires
        sorted_unique(a),
        sorted_unique(b),
        forall|x: Seq<char>|
            #![trigger a.contains(x)]
            #![trigger b.contains(x)]
            a.contains(x) <==> b.contains(x),
    ensures
        a == b,
    decreases a.len(),
{
    if a.len() == 0 {
        if b.len() > 0 {
            assert(b.contains(b[0]));
        }
        assert(a =~= b);
    } else if b.len() == 0 {
        assert(a.contains(a[0]));
    } else {
        // The last element of a strictly sorted sequence is its maximum,
        // so the two maxima of the same set coincide.
        assert(a.contains(a.last()));
        assert(b.contains(a.last()));
        let ia = choose|k: int| 0 <= k < b.len() && b[k] == a.last();
        assert(seq_char_le(b[ia], b.last()) || ia == b.len() - 1);
        assert(b.contains(b.last()));
        assert(a.contains(b.last()));
        let ib = choose|k: int| 0 <= k < a.len() && a[k] == b.last();
        assert(seq_char_le(a[ib], a.last()) || ib == a.len() - 1);
        crate::outcome::lemma_seq_char_le_total(a.last(), b.last());
        assert(a.last() == b.last());

        let ad = a.drop_last();
        let bd = b.drop_last();
        assert forall|x: Seq<char>|
            #![trigger ad.contains(x)]
            #![trigger bd.contains(x)]
            ad.contains(x) <==> bd.contains(x) by {
            if ad.contains(x) {
                let k = choose|k: int| 0 <= k < ad.len() && ad[k] == x;
                assert(a[k] == x);
                assert(x != a.last());
                assert(a.contains(x));
                assert(b.contains(x));
                let m = choose|m: int| 0 <= m < b.len() && b[m] == x;
                assert(m < b.len() - 1);
                assert(bd[m] == x);
            }
            if bd.contains(x) {
                let k = choose|k: int| 0 <= k < bd.len() && bd[k] == x;
                assert(b[k] == x);
                assert(x != b.last());
                assert(b.contains(x));
                assert(a.contains(x));
                let m = choose|m: int| 0 <= m < a.len() && a[m] == x;
                assert(m < a.len() - 1);
                assert(ad[m] == x);
            }
        }
        lemma_canonical_unique(ad, bd);
        assert(a =~= ad.push(a.last()));
        assert(b =~= bd.push(b.last()));
    }
}

/// Whether two canonical word sets hold the same words.
pub fn words_equal(a: &Vec<String>, b: &Vec<String>) -> (r: bool)
    ensures
        r == (word_views(a@) == word_views(b@)),
{
    if a.len() != b.len() {
        proof {
            assert(word_views(a@).len() != word_views(b@).len());
        }
        return false;
    }
    let mut i: usize = 0;
    while i < a.len()
        invariant
            i <= a@.len(),
            a@.len() == b@.len(),
            forall|k: int| 0 <= k < i ==> #[trigger] word_views(a@)[k] == word_views(b@)[k],
        decreases a@.len() - i,
    {
        if !(a[i] == b[i]) {
            proof {
                assert(word_views(a@)[i as int] != word_views(b@)[i as int]);
            }
            return false;
        }
        i = i + 1;
    }
    proof {
        assert(word_views(a@) =~= word_views(b@));
    }
    true
}

/// The words of a bench name's target part, joined by `" | "`.
pub open spec fn joined_targets(ts: Seq<Seq<char>>) -> Seq<char>
    recommends
        ts.len() > 0,
    decreases ts.len(),
{
    if ts.len() <= 1 {
        ts[0]
    } else {
        joined_targets(ts.drop_last()) + " | "@ + ts.last()
    }
}

/// The canonical serialization of one (start word, target-group) pair:
/// `"<start> = <target1> | <target2> | ..."`, targets in their canonical
/// (sorted) order.
pub open spec fn bench_name_spec(start: Seq<char>, ts: Seq<Seq<char>>) -> Seq<char>
    recommends
        ts.len() > 0,
{
    start + " = "@ + joined_targets(ts)
}

/// Replaces `bench_name` with the canonical serialization of the pair.
pub fn set_bench_name(bench_name: &mut String, start_word: &str, targets: &Vec<String>)
    requires
        targets@.len() > 0,
    ensures
        final(bench_name)@ == bench_name_spec(start_word@, word_views(targets@)),
{
    let mut name = String::new();
    name.append(start_word);
    name.append(" = ");
    name.append(targets[0].as_str());
    let ghost ts = word_views(targets@);
    proof {
        assert(ts.take(1).len() == 1);
        assert(ts.take(1)[0] == ts[0]);
        assert(name@ =~= start_word@ + " = "@ + joined_targets(ts.take(1)));
    }
    let mut i: usize = 1;
    while i < targets.len()
        invariant
            1 <= i <= targets@.len(),
            ts == word_views(targets@),
            name@ == start_word@ + " = "@ + joined_targets(ts.take(i as int)),
        decreases targets@.len() - i,
    {
        name.append(" | ");
        name.append(targets[i].as_str());
        proof {
            let pfx = ts.take(i as int);
            let nxt = ts.take(i + 1);
            assert(nxt.drop_last() =~= pfx);
            assert(nxt.last() == ts[i as int]);
            assert(nxt.len() > 1);
            assert(joined_targets(nxt) == joined_targets(pfx) + " | "@ + ts[i as int]);
            assert(name@ =~= start_word@ + " = "@ + (joined_targets(pfx) + " | "@ + ts[i as int]));
        }
        i = i + 1;
    }
    proof {
        assert(ts.take(ts.len() as int) =~= ts);
    }
    *bench_name = name;
}

/// What unicode-normalization's `nfd` returns for these characters.
pub uninterp spec fn nfd_chars_of(s: Seq<char>) -> Seq<char>;

/// Whether unicode-normalization counts the character as a combining mark.
pub uninterp spec fn combining_mark(c: char) -> bool;

/// Relies on unicode-normalization's `nfd`: the canonical decomposition,
/// a function of the characters alone.
#[verifier::external_body]
fn nfd_decompose(s: &str) -> (r: Vec<char>)
    ensures
        r@ == nfd_chars_of(s@),
{
    s.nfd().collect()
}

/// Relies on unicode-normalization's `is_combining_mark`: a Unicode
/// property of the character alone.
#[verifier::external_body]
fn is_mark(c: char) -> (r: bool)
    ensures
        r == combining_mark(c),
{
    unicode_normalization::char::is_combining_mark(c)
}

/// Relies on std's `String: FromIterator<char>`: the collected string holds
/// exactly the given characters.
#[verifier::external_body]
pub(crate) fn chars_to_string(chars: &Vec<char>) -> (r: String)
    ensures
        r@ == chars@,
{
    chars.iter().collect()
}

/// The accent-stripped variant of a word: canonical decomposition with the
/// combining marks dropped.
pub open spec fn unaccented_of(s: Seq<char>) -> Seq<char> {
    nfd_chars_of(s).filter(|c: char| !combining_mark(c))
}

/// Replaces `unaccented` with the accent-stripped variant of `accented`.
pub fn set_unaccented(accented: &str, unaccented: &mut String)
    ensures
        final(unaccented)@ == unaccented_of(accented@),
{
    broadcast use vstd::seq_lib::group_filter_ensures;

    let chars = nfd_decompose(accented);
    let mut kept: Vec<char> = Vec::new();
    let mut i: usize = 0;
    proof {
        assert(chars@.take(0) =~= Seq::<char>::empty());
        assert(kept@ =~= chars@.take(0).filter(|c: char| !combining_mark(c)));
    }
    while i < chars.len()
        invariant
            i <= chars@.len(),
            chars@ == nfd_chars_of(accented@),
            kept@ == chars@.take(i as int).filter(|c: char| !combining_mark(c)),
        decreases chars@.len() - i,
    {
        let c = chars[i];
        let keep = !is_mark(c);
        if keep {
            kept.push(c);
        }
        proof {
            let pred = |c: char| !combining_mark(c);
            let pfx = chars@.take(i as int);
            assert(chars@.take(i + 1) =~= pfx.push(chars@[i as int]));
            pfx.lemma_filter_push(chars@[i as int], pred);
        }
        i = i + 1;
    }
    proof {
        assert(chars@.take(chars@.len() as int) =~= chars@);
    }
    *unaccented = chars_to_string(&kept);
}

} // verus!
