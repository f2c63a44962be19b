//! The benchmark definition line grammar.
//!
//! A line is blank or a comment (ignored), or
//! `START[, START...] = TARGETGROUP[, TARGETGROUP...]` where each
//! TARGETGROUP is `WORD[| WORD...]`; a trailing `; comment` is stripped.
//! Words are alphanumeric (Unicode-aware); spaces and tabs may surround the
//! separators.

use vstd::prelude::*;

use crate::words::word_views;

verus! {

/// Whether std's `char::is_alphanumeric` counts the character as a word
/// character: a Unicode property of the character alone.
pub uninterp spec fn word_char(c: char) -> bool;

/// Relies on std's `char::is_alphanumeric`.
#[verifier::external_body]
fn is_word_char(c: char) -> (r: bool)
    ensures
        r == word_char(c),
{
    c.is_alphanumeric()
}

/// Relies on std's `str::chars`: yields exactly the characters of the
/// string, in order.
#[verifier::external_body]
fn str_chars(s: &str) -> (r: Vec<char>)
    ensures
        r@ == s@,
{
    s.chars().collect()
}

/// The separators may be surrounded by spaces and tabs.
pub open spec fn is_space(c: char) -> bool {
    c == ' ' || c == '\t'
}

/// A character that may stand in a word: alphanumeric, and in particular
/// never a space or one of the grammar's separators (`is_alphanumeric`
/// accepts none of those).
pub open spec fn grammar_word_char(c: char) -> bool {
    word_char(c) && !is_space(c) && c != ',' && c != '|' && c != '=' && c != ';'
}

/// Whether `c` may stand in a word.
fn grammar_word_char_exec(c: char) -> (r: bool)
    ensures
        r == grammar_word_char(c),
{
    is_word_char(c) && !(c == ' ' || c == '\t') && c != ',' && c != '|' && c != '=' && c != ';'
}

/// The first position at or after `i` that does not hold a space.
pub open spec fn skip_spaces(s: Seq<char>, i: int) -> int
    decreases s.len() - i when 0 <= i <= s.len()
{
    if i < s.len() && is_space(s[i]) {
        skip_spaces(s, i + 1)
    } else {
        i
    }
}

/// The end of the word starting at `i`: the first position at or after `i`
/// that does not hold a word character.
pub open spec fn word_end(s: Seq<char>, i: int) -> int
    decreases s.len() - i when 0 <= i <= s.len()
{
    if i < s.len() && grammar_word_char(s[i]) {
        word_end(s, i + 1)
    } else {
        i
    }
}

pub proof fn lemma_skip_spaces_bounds(s: Seq<char>, i: int)
    requires
        0 <= i <= s.len(),
    ensures
        i <= skip_spaces(s, i) <= s.len(),
    decreases s.len() - i,
{
    if i < s.len() && is_space(s[i]) {
        lemma_skip_spaces_bounds(s, i + 1);
    }
}

pub proof fn lemma_word_end_bounds(s: Seq<char>, i: int)
    requires
        0 <= i <= s.len(),
    ensures
        i <= word_end(s, i) <= s.len(),
    decreases s.len() - i,
{
    if i < s.len() && grammar_word_char(s[i]) {
        lemma_word_end_bounds(s, i + 1);
    }
}

/// The word-list tail after one word: as long as a separator and a further
/// word follow, that word joins the list; the first separator not followed
/// by a word is left unconsumed. Returns the final position and the words.
pub open spec fn word_list_rest(s: Seq<char>, i: int, sep: char) -> (int, Seq<Seq<char>>)
    decreases s.len() - i when 0 <= i <= s.len() via word_list_rest_decreases
{
    let a = skip_spaces(s, i);
    if a < s.len() && s[a] == sep && !is_space(sep) {
        let b = skip_spaces(s, a + 1);
        let e = word_end(s, b);
        if e > b {
            let rest = word_list_rest(s, e, sep);
            (rest.0, seq![s.subrange(b, e)] + rest.1)
        } else {
            (i, Seq::<Seq<char>>::empty())
        }
    } else {
        (i, Seq::<Seq<char>>::empty())
    }
}

#[via_fn]
proof fn word_list_rest_decreases(s: Seq<char>, i: int, sep: char) {
    lemma_skip_spaces_bounds(s, i);
    let a = skip_spaces(s, i);
    if a < s.len() && s[a] == sep && !is_space(sep) {
        lemma_skip_spaces_bounds(s, a + 1);
        let b = skip_spaces(s, a + 1);
        lemma_word_end_bounds(s, b);
    }
}

/// A non-empty list of words separated by `sep`: the word at `i`, then the
/// tail. `None` when no word starts at `i`.
pub open spec fn parse_word_list(s: Seq<char>, i: int, sep: char) -> Option<(int, Seq<Seq<char>>)>
    recommends
        0 <= i <= s.len(),
{
    let e = word_end(s, i);
    if e > i {
        let rest = word_list_rest(s, e, sep);
        Some((rest.0, seq![s.subrange(i, e)] + rest.1))
    } else {
        None
    }
}

pub proof fn lemma_word_list_rest_bounds(s: Seq<char>, i: int, sep: char)
    requires
        0 <= i <= s.len(),
    ensures
        i <= word_list_rest(s, i, sep).0 <= s.len(),
    decreases s.len() - i,
{
    lemma_skip_spaces_bounds(s, i);
    let a = skip_spaces(s, i);
    if a < s.len() && s[a] == sep && !is_space(sep) {
        lemma_skip_spaces_bounds(s, a + 1);
        let b = skip_spaces(s, a + 1);
        lemma_word_end_bounds(s, b);
        let e = word_end(s, b);
        if e > b {
            lemma_word_list_rest_bounds(s, e, sep);
        }
    }
}

/// The target-list tail after one target-group: as long as a comma and a
/// further group follow, that group joins the list.
pub open spec fn targets_rest(s: Seq<char>, i: int) -> (int, Seq<Seq<Seq<char>>>)
    decreases s.len() - i when 0 <= i <= s.len() via targets_rest_decreases
{
    let a = skip_spaces(s, i);
    if a < s.len() && s[a] == ',' {
        let b = skip_spaces(s, a + 1);
        match parse_word_list(s, b, '|') {
            Some((e, t)) => {
                let rest = targets_rest(s, e);
                (rest.0, seq![t] + rest.1)
            },
            None => (i, Seq::<Seq<Seq<char>>>::empty()),
        }
    } else {
        (i, Seq::<Seq<Seq<char>>>::empty())
    }
}

#[via_fn]
proof fn targets_rest_decreases(s: Seq<char>, i: int) {
    lemma_skip_spaces_bounds(s, i);
    let a = skip_spaces(s, i);
    if a < s.len() && s[a] == ',' {
        lemma_skip_spaces_bounds(s, a + 1);
        let b = skip_spaces(s, a + 1);
        lemma_word_end_bounds(s, b);
        let e0 = word_end(s, b);
        if e0 > b {
            lemma_word_list_rest_bounds(s, e0, '|');
        }
    }
}

/// A non-empty list of target-groups separated by commas, each group a
/// non-empty list of words separated by `|`.
pub open spec fn parse_targets(s: Seq<char>, i: int) -> Option<(int, Seq<Seq<Seq<char>>>)>
    recommends
        0 <= i <= s.len(),
{
    match parse_word_list(s, i, '|') {
        Some((e, t)) => {
            let rest = targets_rest(s, e);
            Some((rest.0, seq![t] + rest.1))
        },
        None => None,
    }
}

/// A bench definition: start words, `=`, target-groups.
pub open spec fn parse_bench(s: Seq<char>, i: int) -> Option<(int, (Seq<Seq<char>>, Seq<Seq<Seq<char>>>))>
    recommends
        0 <= i <= s.len(),
{
    match parse_word_list(s, i, ',') {
        Some((j, starts)) => {
            let a = skip_spaces(s, j);
            if a < s.len() && s[a] == '=' {
                let b = skip_spaces(s, a + 1);
                match parse_targets(s, b) {
                    Some((k, targets)) => Some((k, (starts, targets))),
                    None => None,
                }
            } else {
                None
            }
        },
        None => None,
    }
}

/// A whole line: optional spaces, an optional bench definition, optional
/// spaces, an optional `;` comment running to the end, then the end of the
/// line. `None`: the line is malformed. `Some(None)`: blank or comment
/// only. `Some(Some(..))`: a bench definition.
pub open spec fn parse_bench_line(s: Seq<char>) -> Option<
    Option<(Seq<Seq<char>>, Seq<Seq<Seq<char>>>)>,
> {
    let i0 = skip_spaces(s, 0);
    match parse_bench(s, i0) {
        Some((j, val)) => {
            let k = skip_spaces(s, j);
            if k == s.len() || s[k] == ';' {
                Some(Some(val))
            } else {
                None
            }
        },
        None => {
            if i0 == s.len() || s[i0] == ';' {
                Some(None)
            } else {
                None
            }
        },
    }
}

/// The word lists held by a list of parsed target-groups.
pub open spec fn group_list_views(ts: Seq<Vec<String>>) -> Seq<Seq<Seq<char>>> {
    ts.map_values(|g: Vec<String>| word_views(g@))
}

fn skip_spaces_exec(cs: &Vec<char>, i: usize) -> (r: usize)
    requires
        i <= cs@.len(),
    ensures
        r == skip_spaces(cs@, i as int),
        i <= r <= cs@.len(),
{
    let mut j = i;
    while j < cs.len() && (cs[j] == ' ' || cs[j] == '\t')
        invariant
            i <= j <= cs@.len(),
            skip_spaces(cs@, i as int) == skip_spaces(cs@, j as int),
        decreases cs@.len() - j,
    {
        j = j + 1;
    }
    j
}

fn word_end_exec(cs: &Vec<char>, i: usize) -> (r: usize)
    requires
        i <= cs@.len(),
    ensures
        r == word_end(cs@, i as int),
        i <= r <= cs@.len(),
{
    let mut j = i;
    while j < cs.len() && grammar_word_char_exec(cs[j])
        invariant
            i <= j <= cs@.len(),
            word_end(cs@, i as int) == word_end(cs@, j as int),
        decreases cs@.len() - j,
    {
        j = j + 1;
    }
    j
}

/// The word spanning positions `b..e`.
fn take_word(cs: &Vec<char>, b: usize, e: usize) -> (r: String)
    requires
        b <= e <= cs@.len(),
    ensures
        r@ == cs@.subrange(b as int, e as int),
{
    let mut sub: Vec<char> = Vec::new();
    let mut k = b;
    while k < e
        invariant
            b <= k <= e <= cs@.len(),
            sub@ == cs@.subrange(b as int, k as int),
        decreases e - k,
    {
        sub.push(cs[k]);
        proof {
            assert(cs@.subrange(b as int, k + 1) =~= cs@.subrange(b as int, k as int).push(
                cs@[k as int],
            ));
        }
        k = k + 1;
    }
    crate::words::chars_to_string(&sub)
}

fn parse_word_list_exec(cs: &Vec<char>, i: usize, sep: char) -> (r: Option<(usize, Vec<String>)>)
    requires
        i <= cs@.len(),
        !is_space(sep),
    ensures
        match parse_word_list(cs@, i as int, sep) {
            Some((pos, words)) => r matches Some(p) && p.0 == pos && word_views(p.1@) == words
                && p.0 <= cs@.len(),
            None => r is None,
        },
{
    let e0 = word_end_exec(cs, i);
    if e0 == i {
        return None;
    }
    let mut acc: Vec<String> = Vec::new();
    acc.push(take_word(cs, i, e0));
    let ghost full = parse_word_list(cs@, i as int, sep);
    let mut cur = e0;
    proof {
        assert(word_views(acc@) =~= seq![cs@.subrange(i as int, e0 as int)]);
        assert(word_views(acc@) + word_list_rest(cs@, cur as int, sep).1 =~= full->Some_0.1);
    }
    let mut done = false;
    while !done
        invariant
            i <= cur <= cs@.len(),
            !is_space(sep),
            full == parse_word_list(cs@, i as int, sep),
            full is Some,
            full->Some_0.0 == word_list_rest(cs@, cur as int, sep).0,
            full->Some_0.1 == word_views(acc@) + word_list_rest(cs@, cur as int, sep).1,
            done ==> word_list_rest(cs@, cur as int, sep) == (cur as int, Seq::<Seq<char>>::empty()),
        decreases cs@.len() - cur, (if done { 0int } else { 1int }),
    {
        let a = skip_spaces_exec(cs, cur);
        let mut advanced = false;
        if a < cs.len() && cs[a] == sep {
            let b = skip_spaces_exec(cs, a + 1);
            let e2 = word_end_exec(cs, b);
            if e2 > b {
                let ghost old_acc = acc@;
                acc.push(take_word(cs, b, e2));
                proof {
                    assert(word_views(acc@) =~= word_views(old_acc).push(
                        cs@.subrange(b as int, e2 as int),
                    ));
                    assert(word_list_rest(cs@, cur as int, sep).1 =~= seq![
                        cs@.subrange(b as int, e2 as int),
                    ] + word_list_rest(cs@, e2 as int, sep).1);
                    assert(word_views(acc@) + word_list_rest(cs@, e2 as int, sep).1
                        =~= word_views(old_acc) + word_list_rest(cs@, cur as int, sep).1);
                }
                cur = e2;
                advanced = true;
            }
        }
        if !advanced {
            proof {
                assert(word_list_rest(cs@, cur as int, sep) == (
                    cur as int,
                    Seq::<Seq<char>>::empty(),
                ));
                assert(word_views(acc@) + Seq::<Seq<char>>::empty() =~= word_views(acc@));
            }
            done = true;
        }
    }
    proof {
        assert(word_views(acc@) + Seq::<Seq<char>>::empty() =~= word_views(acc@));
    }
    Some((cur, acc))
}

fn parse_targets_exec(cs: &Vec<char>, i: usize) -> (r: Option<(usize, Vec<Vec<String>>)>)
    requires
        i <= cs@.len(),
    ensures
        match parse_targets(cs@, i as int) {
            Some((pos, targets)) => r matches Some(p) && p.0 == pos && group_list_views(p.1@)
                == targets && p.0 <= cs@.len(),
            None => r is None,
        },
{
    let first = parse_word_list_exec(cs, i, '|');
    match first {
        None => None,
        Some((j0, t0)) => {
            let mut acc: Vec<Vec<String>> = Vec::new();
            let ghost t0v = word_views(t0@);
            acc.push(t0);
            let ghost full = parse_targets(cs@, i as int);
            let mut cur = j0;
            proof {
                lemma_word_list_advances(cs@, i as int, '|');
                assert(group_list_views(acc@) =~= seq![t0v]);
                assert(group_list_views(acc@) + targets_rest(cs@, cur as int).1
                    =~= full->Some_0.1);
            }
            let mut done = false;
            while !done
                invariant
                    i <= cur <= cs@.len(),
                    full == parse_targets(cs@, i as int),
                    full is Some,
                    full->Some_0.0 == targets_rest(cs@, cur as int).0,
                    full->Some_0.1 == group_list_views(acc@) + targets_rest(cs@, cur as int).1,
                    done ==> targets_rest(cs@, cur as int) == (
                        cur as int,
                        Seq::<Seq<Seq<char>>>::empty(),
                    ),
                decreases cs@.len() - cur, (if done { 0int } else { 1int }),
            {
                let a = skip_spaces_exec(cs, cur);
                let mut advanced = false;
                if a < cs.len() && cs[a] == ',' {
                    let b = skip_spaces_exec(cs, a + 1);
                    let next = parse_word_list_exec(cs, b, '|');
                    match next {
                        Some((e2, t)) => {
                            proof {
                                crate::benchfile::lemma_word_list_advances(cs@, b as int, '|');
                            }
                            let ghost old_acc = acc@;
                            let ghost tv = word_views(t@);
                            acc.push(t);
                            proof {
                                assert(group_list_views(acc@) =~= group_list_views(old_acc).push(
                                    tv,
                                ));
                                assert(targets_rest(cs@, cur as int).1 =~= seq![tv]
                                    + targets_rest(cs@, e2 as int).1);
                                assert(group_list_views(acc@) + targets_rest(cs@, e2 as int).1
                                    =~= group_list_views(old_acc) + targets_rest(
                                    cs@,
                                    cur as int,
                                ).1);
                            }
                            cur = e2;
                            advanced = true;
                        },
                        None => (),
                    }
                }
                if !advanced {
                    proof {
                        assert(targets_rest(cs@, cur as int) == (
                            cur as int,
                            Seq::<Seq<Seq<char>>>::empty(),
                        ));
                    }
                    done = true;
                }
            }
            proof {
                assert(group_list_views(acc@) + Seq::<Seq<Seq<char>>>::empty() =~= group_list_views(
                    acc@,
                ));
            }
            Some((cur, acc))
        },
    }
}

/// A successful word list ends strictly after where it began.
pub proof fn lemma_word_list_advances(s: Seq<char>, i: int, sep: char)
    requires
        0 <= i <= s.len(),
        parse_word_list(s, i, sep) is Some,
    ensures
        parse_word_list(s, i, sep)->Some_0.0 > i,
        parse_word_list(s, i, sep)->Some_0.0 <= s.len(),
{
    lemma_word_end_bounds(s, i);
    let e = word_end(s, i);
    lemma_word_list_rest_bounds(s, e, sep);
}

/// Parses one benchmark definition line. `Err(())`: the line is malformed.
/// `Ok(None)`: blank or comment only. `Ok(Some((starts, targets)))`: the
/// start words and the target-groups, in line order.
pub fn bench_line(input: &str) -> (r: Result<Option<(Vec<String>, Vec<Vec<String>>)>, ()>)
    ensures
        (r is Err) <==> (parse_bench_line(input@) is None),
        (r == Ok::<Option<(Vec<String>, Vec<Vec<String>>)>, ()>(None)) <==> (parse_bench_line(
            input@,
        ) == Some(Option::<(Seq<Seq<char>>, Seq<Seq<Seq<char>>>)>::None)),
        r matches Ok(Some(p)) ==> (parse_bench_line(input@) matches Some(Some(v))
            && word_views(p.0@) == v.0 && group_list_views(p.1@) == v.1),
{
    let cs = str_chars(input);
    let i0 = skip_spaces_exec(&cs, 0);
    let parsed = parse_word_list_exec(&cs, i0, ',');
    match parsed {
        Some((j, starts)) => {
            let a = skip_spaces_exec(&cs, j);
            if a < cs.len() && cs[a] == '=' {
                let b = skip_spaces_exec(&cs, a + 1);
                let targets = parse_targets_exec(&cs, b);
                match targets {
                    Some((k2, tg)) => {
                        let k3 = skip_spaces_exec(&cs, k2);
                        if k3 == cs.len() || cs[k3] == ';' {
                            Ok(Some((starts, tg)))
                        } else {
                            Err(())
                        }
                    },
                    None => Err(()),
                }
            } else {
                // A line that starts a definition must carry the `=`.
                Err(())
            }
        },
        None => {
            if i0 == cs.len() || cs[i0] == ';' {
                Ok(None)
            } else {
                Err(())
            }
        },
    }
}

} // verus!
