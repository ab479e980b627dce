//! The record tokenizer: splits one line of `Key=Value` text into an
//! ordered sequence of key/value pairs, and splits a whole report into
//! lines.
//!
//! A line is split on runs of whitespace into words; each word is split
//! at its first `=` only, and words without `=` are dropped.
use vstd::prelude::*;

use crate::text::chars_of;
use crate::text::find_char;
use crate::text::find_first;
use crate::text::lemma_find_first;
use crate::text::seq_views;
use crate::text::split_char;
use crate::text::split_on;
use crate::text::string_of;
use crate::text::subrange_chars;

verus! {

/// Whether `c` has the Unicode `White_Space` property, the separator
/// set that `str::split_whitespace` splits on.
pub open spec fn is_space(c: char) -> bool {
    let u = c as u32;
    (9 <= u && u <= 13) || u == 32 || u == 0x85 || u == 0xA0 || u == 0x1680 || (0x2000 <= u && u
        <= 0x200A) || u == 0x2028 || u == 0x2029 || u == 0x202F || u == 0x205F || u == 0x3000
}

fn is_space_char(c: char) -> (r: bool)
    ensures
        r == is_space(c),
{
    let u = c as u32;
    (9 <= u && u <= 13) || u == 32 || u == 0x85 || u == 0xA0 || u == 0x1680 || (0x2000 <= u && u
        <= 0x200A) || u == 0x2028 || u == 0x2029 || u == 0x202F || u == 0x205F || u == 0x3000
}

/// Length of the maximal whitespace-free prefix of `s`.
pub open spec fn word_len(s: Seq<char>) -> int
    decreases s.len(),
{
    if s.len() == 0 || is_space(s[0]) {
        0
    } else {
        1 + word_len(s.drop_first())
    }
}

/// `word_len` is the position of the first whitespace character, or the
/// whole length when there is none.
pub proof fn lemma_word_len(s: Seq<char>)
    ensures
        0 <= word_len(s) <= s.len(),
        forall|j: int| 0 <= j < word_len(s) ==> !is_space(#[trigger] s[j]),
        word_len(s) < s.len() ==> is_space(s[word_len(s)]),
    decreases s.len(),
{
    if s.len() > 0 && !is_space(s[0]) {
        lemma_word_len(s.drop_first());
        assert forall|j: int| 0 <= j < word_len(s) implies !is_space(s[j]) by {
            if j >= 1 {
                assert(s.drop_first()[j - 1] == s[j]);
            }
        }
        if word_len(s) < s.len() {
            assert(s.drop_first()[word_len(s) - 1] == s[word_len(s)]);
        }
    }
}

/// The whitespace-separated words of `s`, in order.
pub open spec fn words_of(s: Seq<char>) -> Seq<Seq<char>>
    decreases s.len(),
    via words_of_dec
{
    if s.len() == 0 {
        Seq::empty()
    } else if is_space(s[0]) {
        words_of(s.drop_first())
    } else {
        seq![s.take(word_len(s))] + words_of(s.skip(word_len(s)))
    }
}

#[via_fn]
proof fn words_of_dec(s: Seq<char>) {
    lemma_word_len(s);
}

/// The key/value pair a word denotes: split at the first `=`, keeping
/// any further `=` in the value; a word without `=` denotes none.
pub open spec fn token_of(w: Seq<char>) -> Option<(Seq<char>, Seq<char>)> {
    match find_first(w, '=') {
        None => None,
        Some(i) => Some((w.take(i), w.skip(i + 1))),
    }
}

/// The pairs the given words denote, in order, dropping words without `=`.
pub open spec fn tokens_of_words(ws: Seq<Seq<char>>) -> Seq<(Seq<char>, Seq<char>)>
    decreases ws.len(),
{
    if ws.len() == 0 {
        Seq::empty()
    } else {
        match token_of(ws[0]) {
            None => tokens_of_words(ws.drop_first()),
            Some(t) => seq![t] + tokens_of_words(ws.drop_first()),
        }
    }
}

/// The ordered key/value pairs of one line: its whitespace-separated
/// words, each split at its first `=`, words without `=` dropped.
pub open spec fn tokenize_spec(s: Seq<char>) -> Seq<(Seq<char>, Seq<char>)> {
    tokens_of_words(words_of(s))
}

/// The views of a vector of string pairs, elementwise.
pub open spec fn token_views(s: Seq<(String, String)>) -> Seq<(Seq<char>, Seq<char>)> {
    Seq::new(s.len(), |i: int| (s[i].0@, s[i].1@))
}

/// The views of a sequence of borrowed key/value pairs, elementwise.
pub open spec fn field_views(s: Seq<(&str, &str)>) -> Seq<(Seq<char>, Seq<char>)> {
    Seq::new(s.len(), |i: int| (s[i].0@, s[i].1@))
}

/// A line without any `=` character yields no pairs at all.
pub proof fn lemma_tokenize_no_equals(s: Seq<char>)
    requires
        forall|i: int| 0 <= i < s.len() ==> s[i] != '=',
    ensures
        tokenize_spec(s) == Seq::<(Seq<char>, Seq<char>)>::empty(),
    decreases s.len(),
{
    if s.len() == 0 {
    } else if is_space(s[0]) {
        assert forall|i: int| 0 <= i < s.drop_first().len() implies s.drop_first()[i] != '=' by {
            assert(s.drop_first()[i] == s[i + 1]);
        }
        lemma_tokenize_no_equals(s.drop_first());
    } else {
        lemma_word_len(s);
        let wl = word_len(s);
        let w = s.take(wl);
        lemma_find_first(w, '=');
        match find_first(w, '=') {
            Some(i) => {
                assert(w[i] == s[i]);
                assert(false);
            },
            None => {},
        }
        assert(token_of(w) is None);
        assert forall|i: int| 0 <= i < s.skip(wl).len() implies s.skip(wl)[i] != '=' by {
            assert(s.skip(wl)[i] == s[wl + i]);
        }
        lemma_tokenize_no_equals(s.skip(wl));
        assert((seq![w] + words_of(s.skip(wl))).drop_first() =~= words_of(s.skip(wl)));
        assert((seq![w] + words_of(s.skip(wl)))[0] == w);
    }
}

/// A single word with an `=` yields exactly one pair, split at the
/// first `=`: everything before it is the key, everything after it,
/// further `=` included, is the value.
pub proof fn lemma_tokenize_single_word(s: Seq<char>, p: int)
    requires
        s.len() > 0,
        forall|i: int| 0 <= i < s.len() ==> !is_space(#[trigger] s[i]),
        find_first(s, '=') == Some(p),
    ensures
        tokenize_spec(s) == seq![(s.take(p), s.skip(p + 1))],
{
    lemma_word_len(s);
    let wl = word_len(s);
    assert(wl == s.len());
    assert(s.take(wl) =~= s);
    assert(s.skip(wl) =~= Seq::<char>::empty());
    let ws = words_of(s);
    assert(ws == seq![s] + words_of(Seq::<char>::empty()));
    assert(ws =~= seq![s]);
    assert(ws[0] == s);
    assert(ws.drop_first() =~= Seq::<Seq<char>>::empty());
    assert(token_of(s) == Some((s.take(p), s.skip(p + 1))));
    assert(tokens_of_words(ws.drop_first()) =~= Seq::<(Seq<char>, Seq<char>)>::empty());
    assert(tokens_of_words(ws) == seq![(s.take(p), s.skip(p + 1))] + tokens_of_words(
        ws.drop_first(),
    ));
    assert(tokens_of_words(ws) =~= seq![(s.take(p), s.skip(p + 1))]);
}

/// Splits one line into its ordered `Key=Value` pairs: words are
/// separated by runs of whitespace, each word is split at its first
/// `=`, and words without `=` are dropped.
pub fn tokenize(line: &str) -> (r: Vec<(String, String)>)
    ensures
        token_views(r@) == tokenize_spec(line@),
{
    let chars = chars_of(line);
    let n = chars.len();
    let mut out: Vec<(String, String)> = Vec::new();
    let mut i: usize = 0;
    proof {
        assert(chars@.skip(0) =~= chars@);
        assert(token_views(out@) + tokens_of_words(words_of(chars@.skip(0))) =~= tokenize_spec(
            line@,
        ));
    }
    while i < n
        invariant
            i <= n,
            n == chars@.len(),
            chars@ == line@,
            tokenize_spec(line@) == token_views(out@) + tokens_of_words(
                words_of(chars@.skip(i as int)),
            ),
        decreases n - i,
    {
        if is_space_char(chars[i]) {
            proof {
                assert(chars@.skip(i as int).drop_first() =~= chars@.skip(i as int + 1));
            }
            i = i + 1;
        } else {
            let ghost u = chars@.skip(i as int);
            let mut j: usize = i + 1;
            while j < n && !is_space_char(chars[j])
                invariant
                    i < j <= n,
                    n == chars@.len(),
                    forall|t: int| i <= t < j ==> !is_space(#[trigger] chars@[t]),
                decreases n - j,
            {
                j = j + 1;
            }
            proof {
                lemma_word_len(u);
                assert forall|t: int| 0 <= t < j - i implies !is_space(u[t]) by {
                    assert(u[t] == chars@[i + t]);
                }
                if word_len(u) < j - i {
                    assert(u[word_len(u)] == chars@[i + word_len(u)]);
                    assert(false);
                }
                if word_len(u) > j - i {
                    assert(j < n);
                    assert(is_space(chars@[j as int]));
                    assert(u[j - i] == chars@[j as int]);
                    assert(false);
                }
                assert(word_len(u) == j - i);
            }
            let word = subrange_chars(&chars, i, j);
            proof {
                assert(word@ =~= u.take(j - i));
                assert(u.skip(j - i) =~= chars@.skip(j as int));
                assert(words_of(u) == seq![word@] + words_of(chars@.skip(j as int)));
                assert((seq![word@] + words_of(chars@.skip(j as int)))[0] == word@);
                assert((seq![word@] + words_of(chars@.skip(j as int))).drop_first() =~= words_of(
                    chars@.skip(j as int),
                ));
                lemma_find_first(word@, '=');
            }
            match find_char(&word, '=') {
                None => {
                    proof {
                        assert(token_of(word@) is None);
                    }
                },
                Some(p) => {
                    let wn = word.len();
                    proof {
                        assert((p as int) < word@.len());
                    }
                    let key = subrange_chars(&word, 0, p);
                    let val = subrange_chars(&word, p + 1, wn);
                    proof {
                        assert(key@ =~= word@.take(p as int));
                        assert(val@ =~= word@.skip(p as int + 1));
                    }
                    let ghost out_before = out@;
                    out.push((string_of(&key), string_of(&val)));
                    proof {
                        assert(token_of(word@) == Some((word@.take(p as int), word@.skip(
                            p as int + 1,
                        ))));
                        assert(token_views(out@) =~= token_views(out_before) + seq![
                            (word@.take(p as int), word@.skip(p as int + 1)),
                        ]);
                        assert(token_views(out_before) + seq![
                            (word@.take(p as int), word@.skip(p as int + 1)),
                        ] + tokens_of_words(words_of(chars@.skip(j as int))) =~= token_views(
                            out_before,
                        ) + (seq![(word@.take(p as int), word@.skip(p as int + 1))]
                            + tokens_of_words(words_of(chars@.skip(j as int)))));
                    }
                },
            }
            i = j;
        }
    }
    proof {
        assert(chars@.skip(n as int) =~= Seq::<char>::empty());
        assert(token_views(out@) + tokens_of_words(words_of(Seq::<char>::empty())) =~= token_views(
            out@,
        ));
    }
    out
}

/// `p` with one trailing carriage return removed, as the line splitter
/// strips a `\r\n` ending.
pub open spec fn strip_cr(p: Seq<char>) -> Seq<char> {
    if p.len() > 0 && p.last() == '\r' {
        p.drop_last()
    } else {
        p
    }
}

/// The lines of `s` as `str::lines` yields them: split on `\n`, a
/// carriage return before each `\n` stripped, and no final empty line
/// after a trailing `\n`.
pub open spec fn lines_spec(s: Seq<char>) -> Seq<Seq<char>> {
    let parts = split_on(s, '\n');
    let stripped = Seq::new((parts.len() - 1) as nat, |i: int| strip_cr(parts[i]));
    if parts.last().len() == 0 {
        stripped
    } else {
        stripped.push(parts.last())
    }
}

/// Splits a whole report into lines, as `str::lines` does.
pub fn lines_of(text: &str) -> (r: Vec<String>)
    ensures
        seq_views(r@) == lines_spec(text@),
{
    let chars = chars_of(text);
    let parts = split_char(&chars, '\n');
    let m = parts.len();
    let ghost spec_parts = split_on(text@, '\n');
    let mut out: Vec<String> = Vec::new();
    let mut i: usize = 0;
    while i + 1 < m
        invariant
            m == parts@.len(),
            m >= 1,
            i < m,
            seq_views(parts@) == spec_parts,
            out@.len() == i,
            forall|j: int| 0 <= j < i ==> #[trigger] out@[j]@ == strip_cr(spec_parts[j]),
        decreases m - i,
    {
        let piece = &parts[i];
        let pl = piece.len();
        let line = if pl > 0 && piece[pl - 1] == '\r' {
            subrange_chars(piece, 0, pl - 1)
        } else {
            subrange_chars(piece, 0, pl)
        };
        proof {
            assert(line@ =~= strip_cr(spec_parts[i as int]));
        }
        out.push(string_of(&line));
        i = i + 1;
    }
    let last = &parts[m - 1];
    if last.len() > 0 {
        let whole = subrange_chars(last, 0, last.len());
        proof {
            assert(whole@ =~= spec_parts.last());
        }
        out.push(string_of(&whole));
    }
    proof {
        assert(seq_views(out@) =~= lines_spec(text@));
    }
    out
}

} // verus!
