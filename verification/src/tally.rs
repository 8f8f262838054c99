//! Per-author message counts.
//!
//! The activity report ranks authors by how many messages each wrote
//! inside the window. The records themselves come from an outside history
//! source; this module owns the counting, over plain author identifiers,
//! one entry per distinct author in order of first appearance.

use vstd::prelude::*;
use vstd::multiset::Multiset;

verus! {

broadcast use vstd::seq_lib::lemma_seq_contains_after_push, vstd::seq_lib::group_to_multiset_ensures;

/// The distinct values of `s`, each at its first appearance, in order.
pub open spec fn dedup_first(s: Seq<u64>) -> Seq<u64>
    decreases s.len(),
{
    if s.len() == 0 {
        Seq::empty()
    } else {
        let d = dedup_first(s.drop_last());
        if d.contains(s.last()) {
            d
        } else {
            d.push(s.last())
        }
    }
}

proof fn lemma_dedup_first_contains(s: Seq<u64>, x: u64)
    ensures
        dedup_first(s).contains(x) <==> s.contains(x),
    decreases s.len(),
{
    if s.len() > 0 {
        lemma_dedup_first_contains(s.drop_last(), x);
        lemma_dedup_first_contains(s.drop_last(), s.last());
        assert(s =~= s.drop_last().push(s.last()));
        assert(s.contains(x) <==> (x == s.last() || s.drop_last().contains(x)));
    }
}

/// How many times `x` occurs in `s`.
pub open spec fn count_in(s: Seq<u64>, x: u64) -> nat
    decreases s.len(),
{
    if s.len() == 0 {
        0
    } else {
        count_in(s.drop_last(), x) + (if s.last() == x {
            1nat
        } else {
            0nat
        })
    }
}

proof fn lemma_count_zero(s: Seq<u64>, x: u64)
    requires
        !s.contains(x),
    ensures
        count_in(s, x) == 0,
    decreases s.len(),
{
    if s.len() > 0 {
        assert(forall|k: int| 0 <= k < s.drop_last().len() ==> s.drop_last()[k] == s[k]);
        assert(!s.drop_last().contains(x)) by {
            if s.drop_last().contains(x) {
                let k = choose|k: int|
                    0 <= k < s.drop_last().len() && s.drop_last()[k] == x;
                assert(s[k] == x);
            }
        }
        lemma_count_zero(s.drop_last(), x);
        assert(s[s.len() - 1] != x);
    }
}

proof fn lemma_count_le_len(s: Seq<u64>, x: u64)
    ensures
        count_in(s, x) <= s.len(),
    decreases s.len(),
{
    if s.len() > 0 {
        lemma_count_le_len(s.drop_last(), x);
    }
}

fn find_key(counts: &Vec<(u64, u32)>, x: u64) -> (r: Option<usize>)
    ensures
        match r {
            Some(k) => k < counts@.len() && counts@[k as int].0 == x,
            None => forall|k: int| 0 <= k < counts@.len() ==> counts@[k].0 != x,
        },
{
    let mut k: usize = 0;
    while k < counts.len()
        invariant
            0 <= k <= counts.len(),
            forall|j: int| 0 <= j < k ==> counts@[j].0 != x,
        decreases counts.len() - k,
    {
        if counts[k].0 == x {
            return Some(k);
        }
        k = k + 1;
    }
    None
}

/// Counts the messages of each author: one entry per distinct author, in
/// order of first appearance, paired with exactly how many times that
/// author occurs in the input. The key order is pinned, so the whole
/// result is a function of the input: equal inputs give equal outputs.
pub fn tally_authors(ids: &Vec<u64>) -> (r: Vec<(u64, u32)>)
    requires
        ids@.len() <= u32::MAX,
    ensures
        r@.map_values(|p: (u64, u32)| p.0) == dedup_first(ids@),
        forall|a: int, b: int| 0 <= a < b < r@.len() ==> #[trigger] r@[a].0 != #[trigger] r@[b].0,
        forall|k: int| 0 <= k < r@.len() ==> #[trigger] r@[k].1 == count_in(ids@, r@[k].0),
        forall|x: u64|
            #![trigger ids@.contains(x)]
            ids@.contains(x) <==> exists|k: int| 0 <= k < r@.len() && #[trigger] r@[k].0 == x,
{
    let mut r: Vec<(u64, u32)> = Vec::new();
    let mut i: usize = 0;
    while i < ids.len()
        invariant
            0 <= i <= ids.len(),
            ids@.len() <= u32::MAX,
            r@.map_values(|p: (u64, u32)| p.0) == dedup_first(ids@.take(i as int)),
            forall|a: int, b: int|
                0 <= a < b < r@.len() ==> #[trigger] r@[a].0 != #[trigger] r@[b].0,
            forall|k: int|
                0 <= k < r@.len() ==> #[trigger] r@[k].1 == count_in(
                    ids@.take(i as int),
                    r@[k].0,
                ),
            forall|x: u64|
                #![trigger ids@.take(i as int).contains(x)]
                ids@.take(i as int).contains(x) <==> exists|k: int|
                    0 <= k < r@.len() && #[trigger] r@[k].0 == x,
        decreases ids.len() - i,
    {
        let x = ids[i];
        proof {
            assert(ids@.take(i as int + 1).drop_last() =~= ids@.take(i as int));
            assert(ids@.take(i as int + 1).last() == x);
            assert(ids@.take(i as int + 1) =~= ids@.take(i as int).push(x));
        }
        match find_key(&r, x) {
            Some(k) => {
                proof {
                    lemma_count_le_len(ids@.take(i as int), x);
                }
                let c = r[k].1;
                let ghost before = r@;
                r.set(k, (x, c + 1));
                proof {
                    assert(before.map_values(|p: (u64, u32)| p.0)[k as int] == x);
                    assert(before.map_values(|p: (u64, u32)| p.0).contains(x));
                    assert(r@.map_values(|p: (u64, u32)| p.0) =~= before.map_values(
                        |p: (u64, u32)| p.0,
                    ));
                    assert forall|k2: int|
                        0 <= k2 < r@.len() implies #[trigger] r@[k2].1 == count_in(
                        ids@.take(i as int + 1),
                        r@[k2].0,
                    ) by {
                        if k2 == k as int {
                        } else {
                            assert(r@[k2] == before[k2]);
                            assert(before[k2].0 != x);
                        }
                    }
                    assert forall|x2: u64|
                        #![trigger ids@.take(i as int + 1).contains(x2)]
                        ids@.take(i as int + 1).contains(x2) <==> exists|k2: int|
                            0 <= k2 < r@.len() && #[trigger] r@[k2].0 == x2 by {
                        if ids@.take(i as int + 1).contains(x2) {
                            if x2 == x {
                                assert(r@[k as int].0 == x2);
                            } else {
                                assert(ids@.take(i as int).contains(x2));
                                let k2 = choose|k2: int|
                                    0 <= k2 < before.len() && #[trigger] before[k2].0 == x2;
                                assert(r@[k2].0 == x2);
                            }
                        }
                        if exists|k2: int| 0 <= k2 < r@.len() && #[trigger] r@[k2].0 == x2 {
                            let k2 = choose|k2: int|
                                0 <= k2 < r@.len() && #[trigger] r@[k2].0 == x2;
                            if k2 == k as int {
                                assert(ids@.take(i as int + 1).contains(x));
                            } else {
                                assert(before[k2].0 == x2);
                                assert(ids@.take(i as int).contains(x2));
                            }
                        }
                    }
                }
            },
            None => {
                proof {
                    assert(!ids@.take(i as int).contains(x)) by {
                        if ids@.take(i as int).contains(x) {
                            let k2 = choose|k2: int|
                                0 <= k2 < r@.len() && #[trigger] r@[k2].0 == x;
                        }
                    }
                    lemma_count_zero(ids@.take(i as int), x);
                }
                let ghost before = r@;
                r.push((x, 1));
                proof {
                    lemma_dedup_first_contains(ids@.take(i as int), x);
                    assert(!dedup_first(ids@.take(i as int)).contains(x));
                    assert(r@.map_values(|p: (u64, u32)| p.0) =~= before.map_values(
                        |p: (u64, u32)| p.0,
                    ).push(x));
                    assert(forall|k2: int| 0 <= k2 < before.len() ==> r@[k2] == before[k2]);
                    assert forall|k2: int|
                        0 <= k2 < r@.len() implies #[trigger] r@[k2].1 == count_in(
                        ids@.take(i as int + 1),
                        r@[k2].0,
                    ) by {
                        if k2 == r@.len() - 1 {
                        } else {
                            assert(before[k2].0 != x);
                        }
                    }
                    assert forall|a: int, b: int|
                        0 <= a < b < r@.len() implies #[trigger] r@[a].0
                        != #[trigger] r@[b].0 by {
                        if b == r@.len() - 1 {
                            assert(r@[a].0 == before[a].0);
                        }
                    }
                    assert forall|x2: u64|
                        #![trigger ids@.take(i as int + 1).contains(x2)]
                        ids@.take(i as int + 1).contains(x2) <==> exists|k2: int|
                            0 <= k2 < r@.len() && #[trigger] r@[k2].0 == x2 by {
                        if ids@.take(i as int + 1).contains(x2) {
                            if x2 == x {
                                assert(r@[r@.len() - 1].0 == x2);
                            } else {
                                assert(ids@.take(i as int).contains(x2));
                                let k2 = choose|k2: int|
                                    0 <= k2 < before.len() && #[trigger] before[k2].0 == x2;
                                assert(r@[k2].0 == x2);
                            }
                        }
                        if exists|k2: int| 0 <= k2 < r@.len() && #[trigger] r@[k2].0 == x2 {
                            let k2 = choose|k2: int|
                                0 <= k2 < r@.len() && #[trigger] r@[k2].0 == x2;
                            if k2 == r@.len() - 1 {
                                assert(ids@.take(i as int + 1).contains(x));
                            } else {
                                assert(before[k2].0 == x2);
                                assert(ids@.take(i as int).contains(x2));
                            }
                        }
                    }
                }
            },
        }
        i = i + 1;
    }
    proof {
        assert(ids@.take(ids@.len() as int) =~= ids@);
    }
    r
}

/// Ranks tally entries by count, largest first: the result is a
/// reordering of the input (same multiset of entries), sorted descending
/// by count. Ties keep no promised order, as the ranking tolerates.
pub fn rank_desc<T>(counts: Vec<(T, u32)>) -> (r: Vec<(T, u32)>)
    ensures
        r@.to_multiset() == counts@.to_multiset(),
        r@.len() == counts@.len(),
        forall|a: int, b: int| 0 <= a < b < r@.len() ==> #[trigger] r@[a].1 >= #[trigger] r@[b].1,
{
    let mut rest = counts;
    let mut r: Vec<(T, u32)> = Vec::new();
    let ghost whole = rest@.to_multiset();
    while rest.len() > 0
        invariant
            r@.to_multiset().add(rest@.to_multiset()) =~= whole,
            forall|a: int, b: int|
                0 <= a < b < r@.len() ==> #[trigger] r@[a].1 >= #[trigger] r@[b].1,
            forall|a: int, j: int|
                0 <= a < r@.len() && 0 <= j < rest@.len() ==> #[trigger] r@[a].1
                    >= #[trigger] rest@[j].1,
        decreases rest@.len(),
    {
        let mut best: usize = 0;
        let mut j: usize = 1;
        while j < rest.len()
            invariant
                0 <= best < j <= rest@.len(),
                rest@.len() > 0,
                forall|k: int| 0 <= k < j ==> #[trigger] rest@[k].1 <= rest@[best as int].1,
            decreases rest@.len() - j,
        {
            if rest[j].1 > rest[best].1 {
                best = j;
            }
            j = j + 1;
        }
        let ghost rest0 = rest@;
        let ghost r0 = r@;
        let picked = rest.remove(best);
        r.push(picked);
        proof {
            assert(rest@ == rest0.remove(best as int));
            assert(rest@.to_multiset() =~= rest0.to_multiset().remove(picked));
            assert(r@.to_multiset() =~= r0.to_multiset().insert(picked));
            assert(rest0.to_multiset().contains(picked));
            assert(r@.to_multiset().add(rest@.to_multiset()) =~= whole);
            assert forall|a: int, jj: int|
                0 <= a < r@.len() && 0 <= jj < rest@.len() implies #[trigger] r@[a].1
                >= #[trigger] rest@[jj].1 by {
                if a < r@.len() - 1 {
                    assert(r@[a] == r0[a]);
                }
                if jj < best as int {
                    assert(rest@[jj] == rest0[jj]);
                } else {
                    assert(rest@[jj] == rest0[jj + 1]);
                }
            }
        }
    }
    proof {
        assert(rest@.to_multiset() =~= Multiset::<(T, u32)>::empty());
        assert(r@.to_multiset() =~= whole);
        assert(r@.len() == r@.to_multiset().len());
    }
    r
}

/// The token separators: ASCII blanks, tabs and line breaks. The split is
/// over these characters alone.
pub open spec fn is_ws(c: char) -> bool {
    c == ' ' || c == '\t' || c == '\n' || c == '\r' || c == '\u{b}' || c == '\u{c}'
}

fn is_ws_exec(c: char) -> (r: bool)
    ensures
        r == is_ws(c),
{
    c == ' ' || c == '\t' || c == '\n' || c == '\r' || c == '\u{b}' || c == '\u{c}'
}

/// Folding a text, left to right, into its finished tokens and the
/// unfinished trailing run of non-separator characters.
pub open spec fn tok_fold(s: Seq<char>) -> (Seq<Seq<char>>, Seq<char>)
    decreases s.len(),
{
    if s.len() == 0 {
        (Seq::empty(), Seq::empty())
    } else {
        let (ts, cur) = tok_fold(s.drop_last());
        if is_ws(s.last()) {
            if cur.len() > 0 {
                (ts.push(cur), Seq::empty())
            } else {
                (ts, Seq::empty())
            }
        } else {
            (ts, cur.push(s.last()))
        }
    }
}

/// The whitespace-separated tokens of a text, in order.
pub open spec fn tokens_of(s: Seq<char>) -> Seq<Seq<char>> {
    let (ts, cur) = tok_fold(s);
    if cur.len() > 0 {
        ts.push(cur)
    } else {
        ts
    }
}

fn chars_of(s: &str) -> (r: Vec<char>)
    ensures
        r@ == s@,
{
    let n = s.unicode_len();
    let mut r: Vec<char> = Vec::new();
    let mut i: usize = 0;
    while i < n
        invariant
            0 <= i <= n,
            n == s@.len(),
            r@ =~= s@.take(i as int),
        decreases n - i,
    {
        r.push(s.get_char(i));
        i = i + 1;
    }
    proof {
        assert(r@ =~= s@);
    }
    r
}

fn string_of_chars(v: &Vec<char>) -> (r: String)
    ensures
        r@ == v@,
{
    let mut r = String::new();
    let mut i: usize = 0;
    while i < v.len()
        invariant
            0 <= i <= v@.len(),
            r@ =~= v@.take(i as int),
        decreases v.len() - i,
    {
        r.push(v[i]);
        proof {
            assert(r@ =~= v@.take(i as int + 1));
        }
        i = i + 1;
    }
    proof {
        assert(r@ =~= v@);
    }
    r
}

/// Splits a text into its whitespace-separated tokens.
pub fn split_tokens(content: &str) -> (r: Vec<String>)
    ensures
        r@.map_values(|t: String| t@) == tokens_of(content@),
{
    let cs = chars_of(content);
    let mut toks: Vec<String> = Vec::new();
    let mut cur: Vec<char> = Vec::new();
    let mut i: usize = 0;
    while i < cs.len()
        invariant
            0 <= i <= cs@.len(),
            cs@ == content@,
            toks@.map_values(|t: String| t@) == tok_fold(cs@.take(i as int)).0,
            cur@ == tok_fold(cs@.take(i as int)).1,
        decreases cs.len() - i,
    {
        let c = cs[i];
        proof {
            assert(cs@.take(i as int + 1).drop_last() =~= cs@.take(i as int));
            assert(cs@.take(i as int + 1).last() == c);
        }
        let ghost tk0 = toks@.map_values(|t: String| t@);
        if is_ws_exec(c) {
            if cur.len() > 0 {
                let t = string_of_chars(&cur);
                toks.push(t);
                cur = Vec::new();
                proof {
                    assert(toks@.map_values(|t2: String| t2@) =~= tk0.push(
                        tok_fold(cs@.take(i as int)).1,
                    ));
                }
            }
        } else {
            cur.push(c);
        }
        i = i + 1;
    }
    proof {
        assert(cs@.take(cs@.len() as int) =~= cs@);
    }
    if cur.len() > 0 {
        let t = string_of_chars(&cur);
        let ghost tk0 = toks@.map_values(|t2: String| t2@);
        toks.push(t);
        proof {
            assert(toks@.map_values(|t2: String| t2@) =~= tk0.push(tok_fold(cs@).1));
        }
    }
    toks
}

/// What `str::to_lowercase` returns for a text: a function of the
/// characters alone.
pub uninterp spec fn lower_of(s: Seq<char>) -> Seq<char>;

/// Relies on `str::to_lowercase`: the result depends on the characters
/// alone.
#[verifier::external_body]
fn lowercase(s: &str) -> (r: String)
    ensures
        r@ == lower_of(s@),
{
    s.to_lowercase()
}

/// Whether a word is one of the stop words.
pub open spec fn is_stop(stop: Seq<String>, w: Seq<char>) -> bool {
    exists|j: int| 0 <= j < stop.len() && #[trigger] stop[j]@ == w
}

fn stop_contains(stop: &Vec<String>, w: &String) -> (r: bool)
    ensures
        r == is_stop(stop@, w@),
{
    let mut j: usize = 0;
    while j < stop.len()
        invariant
            0 <= j <= stop@.len(),
            forall|k: int| 0 <= k < j ==> #[trigger] stop@[k]@ != w@,
        decreases stop.len() - j,
    {
        if stop[j] == *w {
            return true;
        }
        j = j + 1;
    }
    false
}

/// How many times the word `w` occurs among the tokens `s`.
pub open spec fn wcount(s: Seq<Seq<char>>, w: Seq<char>) -> nat
    decreases s.len(),
{
    if s.len() == 0 {
        0
    } else {
        wcount(s.drop_last(), w) + (if s.last() == w {
            1nat
        } else {
            0nat
        })
    }
}

proof fn lemma_wcount_zero(s: Seq<Seq<char>>, w: Seq<char>)
    requires
        !s.contains(w),
    ensures
        wcount(s, w) == 0,
    decreases s.len(),
{
    if s.len() > 0 {
        assert(forall|k: int| 0 <= k < s.drop_last().len() ==> s.drop_last()[k] == s[k]);
        assert(!s.drop_last().contains(w)) by {
            if s.drop_last().contains(w) {
                let k = choose|k: int| 0 <= k < s.drop_last().len() && s.drop_last()[k] == w;
                assert(s[k] == w);
            }
        }
        lemma_wcount_zero(s.drop_last(), w);
        assert(s[s.len() - 1] != w);
    }
}

proof fn lemma_wcount_le_len(s: Seq<Seq<char>>, w: Seq<char>)
    ensures
        wcount(s, w) <= s.len(),
    decreases s.len(),
{
    if s.len() > 0 {
        lemma_wcount_le_len(s.drop_last(), w);
    }
}

/// All tokens of a run of texts, each lowered, in order.
pub open spec fn all_lowered(msgs: Seq<Seq<char>>) -> Seq<Seq<char>>
    decreases msgs.len(),
{
    if msgs.len() == 0 {
        Seq::empty()
    } else {
        all_lowered(msgs.drop_last()) + tokens_of(msgs.last()).map_values(|t: Seq<char>| lower_of(t))
    }
}

proof fn lemma_all_lowered_prefix(msgs: Seq<Seq<char>>, m: int)
    requires
        0 <= m < msgs.len(),
    ensures
        all_lowered(msgs).len() >= all_lowered(msgs.take(m)).len() + tokens_of(msgs[m]).len(),
    decreases msgs.len(),
{
    if m == msgs.len() - 1 {
        assert(msgs.take(m) =~= msgs.drop_last());
    } else {
        lemma_all_lowered_prefix(msgs.drop_last(), m);
        assert(msgs.take(m) =~= msgs.drop_last().take(m));
        assert(msgs.drop_last()[m] == msgs[m]);
    }
}

fn find_word(counts: &Vec<(String, u32)>, w: &String) -> (r: Option<usize>)
    ensures
        match r {
            Some(k) => k < counts@.len() && counts@[k as int].0@ == w@,
            None => forall|k: int| 0 <= k < counts@.len() ==> #[trigger] counts@[k].0@ != w@,
        },
{
    let mut k: usize = 0;
    while k < counts.len()
        invariant
            0 <= k <= counts@.len(),
            forall|j: int| 0 <= j < k ==> #[trigger] counts@[j].0@ != w@,
        decreases counts.len() - k,
    {
        if counts[k].0 == *w {
            return Some(k);
        }
        k = k + 1;
    }
    None
}

/// The character sequences of a run of texts.
pub open spec fn msg_views(msgs: Seq<String>) -> Seq<Seq<char>> {
    msgs.map_values(|m: String| m@)
}

/// Tallies the words of a run of texts: each text is split on whitespace,
/// each token lowered, stop words dropped, and the rest counted. One entry
/// per distinct surviving word, with exactly its number of occurrences
/// over all the texts.
pub fn tally_words(msgs: &Vec<String>, stop: &Vec<String>) -> (r: Vec<(String, u32)>)
    requires
        all_lowered(msg_views(msgs@)).len() <= u32::MAX,
    ensures
        forall|a: int, b: int|
            0 <= a < b < r@.len() ==> #[trigger] r@[a].0@ != #[trigger] r@[b].0@,
        forall|k: int| 0 <= k < r@.len() ==> !is_stop(stop@, #[trigger] r@[k].0@),
        forall|k: int|
            0 <= k < r@.len() ==> #[trigger] r@[k].1 == wcount(
                all_lowered(msg_views(msgs@)),
                r@[k].0@,
            ),
        forall|w: Seq<char>|
            #![trigger all_lowered(msg_views(msgs@)).contains(w)]
            (all_lowered(msg_views(msgs@)).contains(w) && !is_stop(stop@, w))
                <==> exists|k: int| 0 <= k < r@.len() && #[trigger] r@[k].0@ == w,
{
    let ghost mvs = msg_views(msgs@);
    let ghost full = all_lowered(mvs);
    let mut counts: Vec<(String, u32)> = Vec::new();
    let ghost mut seen: Seq<Seq<char>> = Seq::empty();
    let mut m: usize = 0;
    while m < msgs.len()
        invariant
            0 <= m <= msgs@.len(),
            mvs == msg_views(msgs@),
            full == all_lowered(mvs),
            full.len() <= u32::MAX,
            seen == all_lowered(mvs.take(m as int)),
            forall|a: int, b: int|
                0 <= a < b < counts@.len() ==> #[trigger] counts@[a].0@
                    != #[trigger] counts@[b].0@,
            forall|k: int| 0 <= k < counts@.len() ==> !is_stop(stop@, #[trigger] counts@[k].0@),
            forall|k: int|
                0 <= k < counts@.len() ==> #[trigger] counts@[k].1 == wcount(
                    seen,
                    counts@[k].0@,
                ),
            forall|w: Seq<char>|
                #![trigger seen.contains(w)]
                (seen.contains(w) && !is_stop(stop@, w)) <==> exists|k: int|
                    0 <= k < counts@.len() && #[trigger] counts@[k].0@ == w,
        decreases msgs.len() - m,
    {
        proof {
            assert(mvs.take(m as int + 1).drop_last() =~= mvs.take(m as int));
            assert(mvs.take(m as int + 1).last() == mvs[m as int]);
            assert(mvs[m as int] == msgs@[m as int]@);
            lemma_all_lowered_prefix(mvs, m as int);
        }
        let toks = split_tokens(msgs[m].as_str());
        let ghost lows = toks@.map_values(|t: String| lower_of(t@));
        proof {
            assert(toks@.map_values(|t: String| t@) == tokens_of(mvs[m as int]));
            assert(lows =~= tokens_of(mvs[m as int]).map_values(|t: Seq<char>| lower_of(t)))
                by {
                assert(forall|x: int|
                    0 <= x < toks@.len() ==> toks@.map_values(|t: String| t@)[x] == #[trigger] toks@[x]@);
            }
            assert(all_lowered(mvs.take(m as int + 1)) == all_lowered(mvs.take(m as int))
                + lows);
        }
        let mut j: usize = 0;
        while j < toks.len()
            invariant
                0 <= j <= toks@.len(),
                mvs == msg_views(msgs@),
                full == all_lowered(mvs),
                full.len() <= u32::MAX,
                lows == toks@.map_values(|t: String| lower_of(t@)),
                full.len() >= all_lowered(mvs.take(m as int)).len() + toks@.len(),
                seen =~= all_lowered(mvs.take(m as int)) + lows.take(j as int),
                seen.len() == all_lowered(mvs.take(m as int)).len() + j,
                forall|a: int, b: int|
                    0 <= a < b < counts@.len() ==> #[trigger] counts@[a].0@
                        != #[trigger] counts@[b].0@,
                forall|k: int|
                    0 <= k < counts@.len() ==> !is_stop(stop@, #[trigger] counts@[k].0@),
                forall|k: int|
                    0 <= k < counts@.len() ==> #[trigger] counts@[k].1 == wcount(
                        seen,
                        counts@[k].0@,
                    ),
                forall|w: Seq<char>|
                    #![trigger seen.contains(w)]
                    (seen.contains(w) && !is_stop(stop@, w)) <==> exists|k: int|
                        0 <= k < counts@.len() && #[trigger] counts@[k].0@ == w,
            decreases toks.len() - j,
        {
            let low = lowercase(toks[j].as_str());
            let ghost w = lower_of(toks@[j as int]@);
            let ghost seen0 = seen;
            proof {
                assert(low@ == w);
                assert(lows[j as int] == w);
                assert(lows.take(j as int + 1) =~= lows.take(j as int).push(w));
                seen = seen.push(w);
                assert(seen =~= all_lowered(mvs.take(m as int)) + lows.take(j as int + 1));
                assert(seen.drop_last() =~= seen0);
                assert(seen.last() == w);
            }
            let stopped = stop_contains(stop, &low);
            if stopped {
                proof {
                    assert forall|k: int|
                        0 <= k < counts@.len() implies #[trigger] counts@[k].1 == wcount(
                        seen,
                        counts@[k].0@,
                    ) by {
                        assert(counts@[k].0@ != w);
                    }
                    assert forall|w2: Seq<char>|
                        #![trigger seen.contains(w2)]
                        (seen.contains(w2) && !is_stop(stop@, w2)) <==> exists|k: int|
                            0 <= k < counts@.len() && #[trigger] counts@[k].0@ == w2 by {
                        assert(seen.contains(w2) <==> (w2 == w || seen0.contains(w2)));
                    }
                }
            } else {
                match find_word(&counts, &low) {
                    Some(k) => {
                        proof {
                            lemma_wcount_le_len(seen0, w);
                        }
                        let c = counts[k].1;
                        let ghost before = counts@;
                        counts.set(k, (low, c + 1));
                        proof {
                            assert forall|k2: int|
                                0 <= k2 < counts@.len() implies #[trigger] counts@[k2].1
                                == wcount(seen, counts@[k2].0@) by {
                                if k2 == k as int {
                                } else {
                                    assert(counts@[k2] == before[k2]);
                                    assert(before[k2].0@ != w);
                                }
                            }
                            assert forall|a: int, b: int|
                                0 <= a < b < counts@.len() implies #[trigger] counts@[a].0@
                                != #[trigger] counts@[b].0@ by {
                                assert(counts@[a].0@ == before[a].0@);
                                assert(counts@[b].0@ == before[b].0@);
                            }
                            assert forall|w2: Seq<char>|
                                #![trigger seen.contains(w2)]
                                (seen.contains(w2) && !is_stop(stop@, w2)) <==> exists|k2: int|
                                    0 <= k2 < counts@.len() && #[trigger] counts@[k2].0@
                                        == w2 by {
                                assert(seen.contains(w2) <==> (w2 == w || seen0.contains(w2)));
                                if seen.contains(w2) && !is_stop(stop@, w2) {
                                    if w2 == w {
                                        assert(counts@[k as int].0@ == w2);
                                    } else {
                                        let k2 = choose|k2: int|
                                            0 <= k2 < before.len() && #[trigger] before[k2].0@
                                                == w2;
                                        assert(counts@[k2].0@ == w2);
                                    }
                                }
                                if exists|k2: int|
                                    0 <= k2 < counts@.len() && #[trigger] counts@[k2].0@ == w2 {
                                    let k2 = choose|k2: int|
                                        0 <= k2 < counts@.len() && #[trigger] counts@[k2].0@
                                            == w2;
                                    if k2 == k as int {
                                        assert(seen.contains(w));
                                    } else {
                                        assert(before[k2].0@ == w2);
                                        assert(seen0.contains(w2));
                                    }
                                }
                            }
                        }
                    },
                    None => {
                        proof {
                            assert(!seen0.contains(w)) by {
                                if seen0.contains(w) {
                                    let k2 = choose|k2: int|
                                        0 <= k2 < counts@.len() && #[trigger] counts@[k2].0@
                                            == w;
                                }
                            }
                            lemma_wcount_zero(seen0, w);
                        }
                        let ghost before = counts@;
                        counts.push((low, 1));
                        proof {
                            assert(forall|k2: int|
                                0 <= k2 < before.len() ==> counts@[k2] == before[k2]);
                            assert(counts@[counts@.len() - 1].0@ == w);
                            assert forall|k2: int|
                                0 <= k2 < counts@.len() implies #[trigger] counts@[k2].1
                                == wcount(seen, counts@[k2].0@) by {
                                if k2 == counts@.len() - 1 {
                                } else {
                                    assert(before[k2].0@ != w);
                                }
                            }
                            assert forall|a: int, b: int|
                                0 <= a < b < counts@.len() implies #[trigger] counts@[a].0@
                                != #[trigger] counts@[b].0@ by {
                                if b == counts@.len() - 1 {
                                    assert(counts@[a].0@ == before[a].0@);
                                    assert(before[a].0@ != w);
                                }
                            }
                            assert forall|w2: Seq<char>|
                                #![trigger seen.contains(w2)]
                                (seen.contains(w2) && !is_stop(stop@, w2)) <==> exists|k2: int|
                                    0 <= k2 < counts@.len() && #[trigger] counts@[k2].0@
                                        == w2 by {
                                assert(seen.contains(w2) <==> (w2 == w || seen0.contains(w2)));
                                if seen.contains(w2) && !is_stop(stop@, w2) {
                                    if w2 == w {
                                        assert(counts@[counts@.len() - 1].0@ == w2);
                                    } else {
                                        let k2 = choose|k2: int|
                                            0 <= k2 < before.len() && #[trigger] before[k2].0@
                                                == w2;
                                        assert(counts@[k2].0@ == w2);
                                    }
                                }
                                if exists|k2: int|
                                    0 <= k2 < counts@.len() && #[trigger] counts@[k2].0@ == w2 {
                                    let k2 = choose|k2: int|
                                        0 <= k2 < counts@.len() && #[trigger] counts@[k2].0@
                                            == w2;
                                    if k2 == counts@.len() - 1 {
                                        assert(seen.contains(w));
                                    } else {
                                        assert(before[k2].0@ == w2);
                                        assert(seen0.contains(w2));
                                    }
                                }
                            }
                        }
                    },
                }
            }
            j = j + 1;
        }
        proof {
            assert(lows.take(lows.len() as int) =~= lows);
            assert(seen =~= all_lowered(mvs.take(m as int + 1)));
        }
        m = m + 1;
    }
    proof {
        assert(mvs.take(mvs.len() as int) =~= mvs);
        assert(seen =~= full);
    }
    counts
}

} // verus!
