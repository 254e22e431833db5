//! Word counting over text: the text is split on Unicode whitespace, each
//! word is lowercased, and the occurrences of each distinct lowercased word
//! are counted, in order of first occurrence.

use vstd::prelude::*;

verus! {

/// Names the result of `char::is_whitespace` for the character `c`.
pub uninterp spec fn is_unicode_ws(c: char) -> bool;

/// Relies on `char::is_whitespace`: whether the character has the Unicode
/// `White_Space` property, a function of the character alone.
#[verifier::external_body]
fn char_is_whitespace(c: char) -> (r: bool)
    ensures
        r == is_unicode_ws(c),
{
    c.is_whitespace()
}

/// Names the result of `str::to_lowercase` for a string with the characters
/// `s`.
pub uninterp spec fn lower_of(s: Seq<char>) -> Seq<char>;

/// Relies on `str::to_lowercase`: the Unicode lowercase mapping of the
/// string, a function of its characters alone.
#[verifier::external_body]
fn to_lowercase_string(s: &str) -> (r: String)
    ensures
        r@ == lower_of(s@),
{
    s.to_lowercase()
}

/// The words of `s` that follow the partial word `cur`: maximal runs of
/// non-whitespace characters, in order, each closed off by whitespace or by
/// the end of the text.
pub open spec fn split_ws_acc(s: Seq<char>, cur: Seq<char>) -> Seq<Seq<char>>
    decreases s.len(),
{
    if s.len() == 0 {
        if cur.len() == 0 {
            Seq::empty()
        } else {
            seq![cur]
        }
    } else if is_unicode_ws(s[0]) {
        if cur.len() == 0 {
            split_ws_acc(s.drop_first(), Seq::empty())
        } else {
            seq![cur] + split_ws_acc(s.drop_first(), Seq::empty())
        }
    } else {
        split_ws_acc(s.drop_first(), cur.push(s[0]))
    }
}

/// The whitespace-separated words of `s`, in order.
pub open spec fn split_whitespace_words(s: Seq<char>) -> Seq<Seq<char>> {
    split_ws_acc(s, Seq::empty())
}

/// The whitespace-separated words of `s`, each lowercased.
pub open spec fn lowered_words(s: Seq<char>) -> Seq<Seq<char>> {
    split_whitespace_words(s).map(|i: int, w: Seq<char>| lower_of(w))
}

/// Number of occurrences of the word `w` in the word list `ws`.
pub open spec fn count_word(ws: Seq<Seq<char>>, w: Seq<char>) -> nat
    decreases ws.len(),
{
    if ws.len() == 0 {
        0
    } else if ws.last() == w {
        count_word(ws.drop_last(), w) + 1
    } else {
        count_word(ws.drop_last(), w)
    }
}

/// The distinct words of `ws`, in order of first occurrence.
pub open spec fn first_occurrences(ws: Seq<Seq<char>>) -> Seq<Seq<char>>
    decreases ws.len(),
{
    if ws.len() == 0 {
        Seq::empty()
    } else {
        let f = first_occurrences(ws.drop_last());
        if ws.drop_last().contains(ws.last()) {
            f
        } else {
            f.push(ws.last())
        }
    }
}

/// An occurrence count clamped to its 32-bit counter: counts saturate at
/// `u32::MAX` rather than wrap.
pub open spec fn capped_count(c: nat) -> u32 {
    if c > u32::MAX {
        u32::MAX
    } else {
        c as u32
    }
}

/// What [`create_word_counts`] returns for a word list `ws`: one entry per
/// distinct word in order of first occurrence, carrying that word's
/// occurrence count.
pub open spec fn counts_post(ws: Seq<Seq<char>>, counts: Seq<(String, u32)>) -> bool {
    &&& counts.len() == first_occurrences(ws).len()
    &&& forall|t: int| 0 <= t < counts.len() ==> {
        &&& (#[trigger] counts[t]).0@ == first_occurrences(ws)[t]
        &&& counts[t].1 == capped_count(count_word(ws, counts[t].0@))
    }
}

/// Splits `text` on Unicode whitespace, lowercases each word, and counts
/// how often each distinct lowercased word occurs. The entries come in
/// order of each word's first occurrence; a count saturates at its 32-bit
/// counter's maximum instead of wrapping.
pub fn create_word_counts(text: &str) -> (counts: Vec<(String, u32)>)
    ensures
        counts_post(lowered_words(text@), counts@),
{
    let words = split_lowered_words(text);
    let counts = count_occurrences(&words);
    proof {
        assert(words@.map(|i: int, w: String| w@) =~= lowered_words(text@));
    }
    counts
}

/// Walks the text once, closing off a word at each transition from
/// non-whitespace to whitespace, and lowercases each word as it is found.
fn split_lowered_words(text: &str) -> (words: Vec<String>)
    ensures
        words@.len() == lowered_words(text@).len(),
        forall|k: int| 0 <= k < words@.len() ==> (#[trigger] words@[k])@ == lowered_words(text@)[k],
{
    let n: usize = text.unicode_len();
    let mut words: Vec<String> = Vec::new();
    let ghost mut raw: Seq<Seq<char>> = Seq::empty();
    let mut start: usize = 0;
    let mut in_word: bool = false;
    let mut i: usize = 0;
    proof {
        assert(text@.subrange(0, n as int) =~= text@);
    }
    while i < n
        invariant
            i <= n,
            n == text@.len(),
            in_word ==> start < i,
            words@.len() == raw.len(),
            forall|k: int| 0 <= k < raw.len() ==> (#[trigger] words@[k])@ == lower_of(raw[k]),
            raw + split_ws_acc(
                text@.subrange(i as int, n as int),
                if in_word {
                    text@.subrange(start as int, i as int)
                } else {
                    Seq::<char>::empty()
                },
            ) =~= split_whitespace_words(text@),
        decreases n - i,
    {
        let ghost rest = text@.subrange(i as int, n as int);
        let ghost cur = if in_word {
            text@.subrange(start as int, i as int)
        } else {
            Seq::<char>::empty()
        };
        proof {
            assert(rest[0] == text@[i as int]);
            assert(rest.drop_first() =~= text@.subrange(i + 1, n as int));
        }
        let c = text.get_char(i);
        if char_is_whitespace(c) {
            if in_word {
                let word = text.substring_char(start, i);
                words.push(to_lowercase_string(word));
                proof {
                    raw = raw.push(cur);
                    assert(raw + split_ws_acc(text@.subrange(i + 1, n as int), Seq::<char>::empty())
                        =~= split_whitespace_words(text@));
                }
                in_word = false;
            }
        } else {
            if !in_word {
                start = i;
                in_word = true;
            }
            proof {
                assert(cur.push(text@[i as int]) =~= text@.subrange(start as int, i + 1));
            }
        }
        i = i + 1;
    }
    if in_word {
        let word = text.substring_char(start, n);
        words.push(to_lowercase_string(word));
        proof {
            raw = raw.push(text@.subrange(start as int, n as int));
            assert(text@.subrange(n as int, n as int) =~= Seq::<char>::empty());
            assert(raw =~= split_whitespace_words(text@));
        }
    } else {
        proof {
            assert(text@.subrange(n as int, n as int) =~= Seq::<char>::empty());
            assert(raw =~= split_whitespace_words(text@));
        }
    }
    proof {
        lemma_map_lower(raw, words@);
    }
    words
}

/// Transfers the per-word lowering facts to the mapped word list.
proof fn lemma_map_lower(raw: Seq<Seq<char>>, words: Seq<String>)
    requires
        words.len() == raw.len(),
        forall|k: int| 0 <= k < raw.len() ==> (#[trigger] words[k])@ == lower_of(raw[k]),
    ensures
        forall|k: int| 0 <= k < raw.len() ==> (#[trigger] words[k])@ == raw.map(
            |i: int, w: Seq<char>| lower_of(w),
        )[k],
{
}

/// Index of the entry whose word equals `w`, if any.
fn find_key(counts: &Vec<(String, u32)>, w: &String) -> (r: Option<usize>)
    ensures
        match r {
            Some(t) => t < counts@.len() && counts@[t as int].0@ == w@,
            None => forall|t: int| 0 <= t < counts@.len() ==> (#[trigger] counts@[t]).0@ != w@,
        },
{
    let m: usize = counts.len();
    let mut t: usize = 0;
    while t < m
        invariant
            t <= m,
            m == counts@.len(),
            forall|u: int| 0 <= u < t ==> (#[trigger] counts@[u]).0@ != w@,
        decreases m - t,
    {
        let pair = &counts[t];
        if pair.0.eq(w) {
            return Some(t);
        }
        t = t + 1;
    }
    None
}

/// Counts each word of `words` into an association list keyed by the word,
/// one pass, first occurrence first.
fn count_occurrences(words: &Vec<String>) -> (counts: Vec<(String, u32)>)
    ensures
        counts_post(words@.map(|i: int, w: String| w@), counts@),
{
    let ghost ws = words@.map(|i: int, w: String| w@);
    let m: usize = words.len();
    let mut counts: Vec<(String, u32)> = Vec::new();
    let mut j: usize = 0;
    while j < m
        invariant
            j <= m,
            m == words@.len(),
            ws == words@.map(|i: int, w: String| w@),
            counts_post(ws.subrange(0, j as int), counts@),
        decreases m - j,
    {
        let ghost prefix = ws.subrange(0, j as int);
        let ghost word = ws[j as int];
        proof {
            assert(ws.subrange(0, j + 1) =~= prefix.push(word));
            lemma_first_occurrences_push(prefix, word);
            lemma_first_occurrences_contains(prefix, word);
            lemma_count_word_push(prefix, word);
            lemma_first_occurrences_distinct(prefix);
        }
        let w = &words[j];
        proof {
            assert(ws[j as int] == words@[j as int]@);
        }
        match find_key(&counts, w) {
            Some(t) => {
                proof {
                    assert(first_occurrences(prefix)[t as int] == word);
                    assert(first_occurrences(prefix).contains(word));
                    assert(prefix.contains(word));
                    assert(first_occurrences(prefix.push(word)) == first_occurrences(prefix));
                }
                let ghost before = counts@;
                let key = counts[t].0.clone();
                let c = counts[t].1;
                let bumped = if c < u32::MAX {
                    c + 1
                } else {
                    c
                };
                counts[t] = (key, bumped);
                proof {
                    assert forall|u: int| 0 <= u < counts@.len() implies {
                        &&& (#[trigger] counts@[u]).0@ == first_occurrences(prefix.push(word))[u]
                        &&& counts@[u].1 == capped_count(
                            count_word(prefix.push(word), counts@[u].0@),
                        )
                    } by {
                        if u == t {
                            assert(counts@[u].0@ == word);
                            assert(count_word(prefix.push(word), word) == count_word(prefix, word)
                                + 1);
                        } else {
                            assert(counts@[u] == before[u]);
                            assert(before[u].0@ == first_occurrences(prefix)[u]);
                            assert(first_occurrences(prefix)[u] != first_occurrences(prefix)[t as int]);
                            assert(count_word(prefix.push(word), counts@[u].0@) == count_word(
                                prefix,
                                counts@[u].0@,
                            ));
                        }
                    }
                }
            },
            None => {
                proof {
                    if prefix.contains(word) {
                        assert(first_occurrences(prefix).contains(word));
                        let u = choose|u: int|
                            0 <= u < first_occurrences(prefix).len() && first_occurrences(prefix)[u]
                                == word;
                        assert(counts@[u].0@ == first_occurrences(prefix)[u]);
                    }
                    assert(!prefix.contains(word));
                    lemma_count_word_absent(prefix, word);
                    assert(first_occurrences(prefix.push(word)) == first_occurrences(
                        prefix,
                    ).push(word));
                }
                let ghost before = counts@;
                words_push_entry(&mut counts, w);
                proof {
                    assert forall|u: int| 0 <= u < counts@.len() implies {
                        &&& (#[trigger] counts@[u]).0@ == first_occurrences(prefix.push(word))[u]
                        &&& counts@[u].1 == capped_count(
                            count_word(prefix.push(word), counts@[u].0@),
                        )
                    } by {
                        if u < before.len() {
                            assert(counts@[u] == before[u]);
                            assert(before[u].0@ != word);
                            assert(count_word(prefix.push(word), counts@[u].0@) == count_word(
                                prefix,
                                counts@[u].0@,
                            ));
                        } else {
                            assert(counts@[u].0@ == word);
                            assert(count_word(prefix.push(word), word) == 1);
                        }
                    }
                }
            },
        }
        j = j + 1;
    }
    proof {
        assert(ws.subrange(0, m as int) =~= ws);
    }
    counts
}

/// Appends a fresh entry for a word seen for the first time.
fn words_push_entry(counts: &mut Vec<(String, u32)>, w: &String)
    ensures
        final(counts)@.len() == old(counts)@.len() + 1,
        forall|u: int| 0 <= u < old(counts)@.len() ==> final(counts)@[u] == old(counts)@[u],
        final(counts)@[old(counts)@.len() as int].0@ == w@,
        final(counts)@[old(counts)@.len() as int].1 == 1u32,
{
    let key = w.clone();
    counts.push((key, 1));
}

/// Appending a word raises its own count by one and no other's.
proof fn lemma_count_word_push(ws: Seq<Seq<char>>, w: Seq<char>)
    ensures
        forall|v: Seq<char>| #[trigger] count_word(ws.push(w), v) == count_word(ws, v) + if v == w {
            1nat
        } else {
            0nat
        },
{
    assert forall|v: Seq<char>| #[trigger] count_word(ws.push(w), v) == count_word(ws, v) + if v
        == w {
        1nat
    } else {
        0nat
    } by {
        assert(ws.push(w).drop_last() =~= ws);
        assert(ws.push(w).last() == w);
    }
}

/// A word not present in the list has count zero.
proof fn lemma_count_word_absent(ws: Seq<Seq<char>>, w: Seq<char>)
    requires
        !ws.contains(w),
    ensures
        count_word(ws, w) == 0,
    decreases ws.len(),
{
    if ws.len() > 0 {
        assert(forall|i: int| 0 <= i < ws.len() - 1 ==> ws.drop_last()[i] == ws[i]);
        lemma_count_word_absent(ws.drop_last(), w);
    }
}

/// Appending a word extends the distinct-word list exactly when the word is
/// new.
proof fn lemma_first_occurrences_push(ws: Seq<Seq<char>>, w: Seq<char>)
    ensures
        first_occurrences(ws.push(w)) == if ws.contains(w) {
            first_occurrences(ws)
        } else {
            first_occurrences(ws).push(w)
        },
{
    assert(ws.push(w).drop_last() =~= ws);
    assert(ws.push(w).last() == w);
}

/// The distinct-word list holds exactly the words of the list.
proof fn lemma_first_occurrences_contains(ws: Seq<Seq<char>>, w: Seq<char>)
    ensures
        first_occurrences(ws).contains(w) <==> ws.contains(w),
    decreases ws.len(),
{
    if ws.len() > 0 {
        lemma_first_occurrences_contains(ws.drop_last(), w);
        assert(forall|i: int| 0 <= i < ws.len() - 1 ==> ws.drop_last()[i] == ws[i]);
        if ws.last() == w {
            assert(ws.contains(w)) by {
                assert(ws[ws.len() - 1] == w);
            }
            if !ws.drop_last().contains(w) {
                let f = first_occurrences(ws.drop_last());
                assert(first_occurrences(ws)[f.len() as int] == w);
            }
        } else {
            let d = ws.drop_last();
            let f = first_occurrences(d);
            if ws.contains(w) {
                let i = choose|i: int| 0 <= i < ws.len() && ws[i] == w;
                assert(d[i] == w);
                assert(d.contains(w));
            }
            if d.contains(w) {
                let i = choose|i: int| 0 <= i < d.len() && d[i] == w;
                assert(ws[i] == w);
                assert(ws.contains(w));
            }
            if first_occurrences(ws).contains(w) {
                if !d.contains(ws.last()) {
                    let i = choose|i: int|
                        0 <= i < first_occurrences(ws).len() && first_occurrences(ws)[i] == w;
                    assert(f.contains(w)) by {
                        assert(i < f.len());
                        assert(f[i] == w);
                    }
                }
            }
            if f.contains(w) {
                let i = choose|i: int| 0 <= i < f.len() && f[i] == w;
                assert(first_occurrences(ws)[i] == w);
                assert(first_occurrences(ws).contains(w));
            }
        }
    }
}

/// Every word of the distinct-word list occurs in the word list.
proof fn lemma_first_occurrences_cover(ws: Seq<Seq<char>>)
    ensures
        forall|t: int| 0 <= t < first_occurrences(ws).len() ==> ws.contains(
            #[trigger] first_occurrences(ws)[t],
        ),
{
    assert forall|t: int| 0 <= t < first_occurrences(ws).len() implies ws.contains(
        first_occurrences(ws)[t],
    ) by {
        lemma_first_occurrences_contains(ws, first_occurrences(ws)[t]);
        assert(first_occurrences(ws).contains(first_occurrences(ws)[t]));
    }
}

/// No word appears twice in the distinct-word list.
proof fn lemma_first_occurrences_distinct(ws: Seq<Seq<char>>)
    ensures
        forall|t1: int, t2: int|
            0 <= t1 < t2 < first_occurrences(ws).len() ==> #[trigger] first_occurrences(ws)[t1]
                != #[trigger] first_occurrences(ws)[t2],
    decreases ws.len(),
{
    if ws.len() > 0 {
        lemma_first_occurrences_distinct(ws.drop_last());
        lemma_first_occurrences_cover(ws.drop_last());
        lemma_first_occurrences_contains(ws.drop_last(), ws.last());
    }
}

} // verus!
