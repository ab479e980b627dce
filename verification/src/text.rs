//! Low-level text utilities: conversions between `str`/`String` and
//! character vectors, searching, slicing and splitting on a separator.
//!
//! All spec-level reasoning about text in this crate is phrased over
//! `Seq<char>`, the view of both `str` and `String`.
use vstd::prelude::*;
use vstd::string::StrSliceExecFns;

verus! {

/// The characters of `s`, in order, as a vector.
pub fn chars_of(s: &str) -> (v: Vec<char>)
    ensures
        v@ == s@,
{
    let n = s.unicode_len();
    let mut v: Vec<char> = Vec::new();
    let mut i: usize = 0;
    proof {
        assert(v@ =~= s@.take(0int));
    }
    while i < n
        invariant
            n == s@.len(),
            i <= n,
            v@ == s@.take(i as int),
        decreases n - i,
    {
        let c = s.get_char(i);
        v.push(c);
        i = i + 1;
        proof {
            assert(s@.take(i as int) =~= s@.take(i as int - 1).push(s@[i as int - 1]));
        }
    }
    proof {
        assert(s@.take(n as int) =~= s@);
    }
    v
}

/// Relies on `String::push`: appends exactly the given character at the end.
#[verifier::external_body]
fn push_char(s: &mut String, c: char)
    ensures
        final(s)@ == old(s)@.push(c),
{
    s.push(c);
}

/// A `String` holding exactly the characters of `v`, in order.
pub fn string_of(v: &Vec<char>) -> (s: String)
    ensures
        s@ == v@,
{
    let mut s = String::new();
    let mut i: usize = 0;
    proof {
        assert(s@ =~= v@.take(0int));
    }
    while i < v.len()
        invariant
            i <= v@.len(),
            s@ == v@.take(i as int),
        decreases v@.len() - i,
    {
        push_char(&mut s, v[i]);
        i = i + 1;
        proof {
            assert(v@.take(i as int) =~= v@.take(i as int - 1).push(v@[i as int - 1]));
        }
    }
    proof {
        assert(v@.take(v@.len() as int) =~= v@);
    }
    s
}

/// Whether two string slices hold the same characters.
pub fn str_eq(a: &str, b: &str) -> (r: bool)
    ensures
        r == (a@ == b@),
{
    let na = a.unicode_len();
    let nb = b.unicode_len();
    if na != nb {
        return false;
    }
    let mut i: usize = 0;
    while i < na
        invariant
            na == a@.len(),
            na == b@.len(),
            i <= na,
            forall|j: int| 0 <= j < i ==> a@[j] == b@[j],
        decreases na - i,
    {
        if a.get_char(i) != b.get_char(i) {
            return false;
        }
        i = i + 1;
    }
    proof {
        assert(a@ =~= b@);
    }
    true
}

/// Strict lexicographic order on character sequences, by code point —
/// the order in which `BTreeMap<String, _>` keys iterate (UTF-8 bytes
/// compare the same way as code points).
pub open spec fn lex_lt(a: Seq<char>, b: Seq<char>) -> bool
    decreases a.len(),
{
    if b.len() == 0 {
        false
    } else if a.len() == 0 {
        true
    } else if a[0] != b[0] {
        (a[0] as int) < (b[0] as int)
    } else {
        lex_lt(a.drop_first(), b.drop_first())
    }
}

/// Nothing orders strictly before itself.
pub proof fn lemma_lex_lt_irreflexive(a: Seq<char>)
    ensures
        !lex_lt(a, a),
    decreases a.len(),
{
    if a.len() > 0 {
        lemma_lex_lt_irreflexive(a.drop_first());
    }
}

/// Two different sequences are strictly ordered one way or the other.
pub proof fn lemma_lex_lt_total(a: Seq<char>, b: Seq<char>)
    requires
        a != b,
    ensures
        lex_lt(a, b) || lex_lt(b, a),
    decreases a.len(),
{
    if a.len() == 0 && b.len() == 0 {
        assert(a =~= b);
    }
    if a.len() > 0 && b.len() > 0 && a[0] != b[0] && (a[0] as int) == (b[0] as int) {
        assert(a[0] == b[0]);
    }
    if a.len() > 0 && b.len() > 0 && a[0] == b[0] {
        if a.drop_first() == b.drop_first() {
            assert(a.drop_first().len() == b.drop_first().len());
            assert(a.len() == b.len());
            assert forall|i: int| 0 <= i < a.len() implies a[i] == b[i] by {
                if i >= 1 {
                    assert(a.drop_first()[i - 1] == a[i]);
                    assert(b.drop_first()[i - 1] == b[i]);
                }
            }
            assert(a =~= b);
        } else {
            lemma_lex_lt_total(a.drop_first(), b.drop_first());
        }
    }
}

/// Strict lexicographic order is transitive.
pub proof fn lemma_lex_lt_trans(a: Seq<char>, b: Seq<char>, c: Seq<char>)
    requires
        lex_lt(a, b),
        lex_lt(b, c),
    ensures
        lex_lt(a, c),
    decreases a.len(),
{
    if a.len() > 0 && b.len() > 0 && c.len() > 0 && a[0] == b[0] && b[0] == c[0] {
        lemma_lex_lt_trans(a.drop_first(), b.drop_first(), c.drop_first());
    }
}

/// Whether `a` orders strictly before `b` (see `lex_lt`).
pub fn str_lt(a: &str, b: &str) -> (r: bool)
    ensures
        r == lex_lt(a@, b@),
{
    let na = a.unicode_len();
    let nb = b.unicode_len();
    let mut i: usize = 0;
    proof {
        assert(a@.skip(0) =~= a@);
        assert(b@.skip(0) =~= b@);
    }
    while i < na && i < nb
        invariant
            na == a@.len(),
            nb == b@.len(),
            i <= na,
            i <= nb,
            lex_lt(a@, b@) == lex_lt(a@.skip(i as int), b@.skip(i as int)),
        decreases na - i,
    {
        let ca = a.get_char(i) as u32;
        let cb = b.get_char(i) as u32;
        if ca != cb {
            proof {
                assert(a@[i as int] != b@[i as int]);
                assert((a@[i as int] as u32) == (a@[i as int] as int));
                assert((b@[i as int] as u32) == (b@[i as int] as int));
            }
            return ca < cb;
        }
        proof {
            assert((a@[i as int] as u32) == (a@[i as int] as int));
            assert((b@[i as int] as u32) == (b@[i as int] as int));
            assert(a@[i as int] == b@[i as int]);
        }
        proof {
            assert(a@.skip(i as int).drop_first() =~= a@.skip(i as int + 1));
            assert(b@.skip(i as int).drop_first() =~= b@.skip(i as int + 1));
        }
        i = i + 1;
    }
    proof {
        if i == nb {
            assert(b@.skip(i as int).len() == 0);
        } else {
            assert(a@.skip(i as int).len() == 0);
            assert(b@.skip(i as int).len() > 0);
        }
    }
    i == na && i < nb
}

/// The views of the elements of `s`, elementwise.
pub open spec fn seq_views<T: View>(s: Seq<T>) -> Seq<<T as View>::V> {
    Seq::new(s.len(), |i: int| s[i]@)
}

/// Index of the first occurrence of `c` in `s`, if any.
pub open spec fn find_first(s: Seq<char>, c: char) -> Option<int>
    decreases s.len(),
{
    if s.len() == 0 {
        None
    } else if s[0] == c {
        Some(0int)
    } else {
        match find_first(s.drop_first(), c) {
            None => None,
            Some(i) => Some(i + 1),
        }
    }
}

/// `find_first` returns the position of the first occurrence, or `None`
/// exactly when the character does not occur at all.
pub proof fn lemma_find_first(s: Seq<char>, c: char)
    ensures
        match find_first(s, c) {
            Some(i) => 0 <= i < s.len() && s[i] == c && forall|j: int| 0 <= j < i ==> s[j] != c,
            None => forall|j: int| 0 <= j < s.len() ==> s[j] != c,
        },
    decreases s.len(),
{
    if s.len() > 0 && s[0] != c {
        lemma_find_first(s.drop_first(), c);
        match find_first(s.drop_first(), c) {
            None => {
                assert forall|j: int| 0 <= j < s.len() implies s[j] != c by {
                    if j >= 1 {
                        assert(s.drop_first()[j - 1] == s[j]);
                    }
                }
            },
            Some(i) => {
                assert(s.drop_first()[i] == s[i + 1]);
                assert forall|j: int| 0 <= j < i + 1 implies s[j] != c by {
                    if j >= 1 {
                        assert(s.drop_first()[j - 1] == s[j]);
                    }
                }
            },
        }
    }
}

/// First position of `c` in `v`, scanning left to right.
pub fn find_char(v: &Vec<char>, c: char) -> (r: Option<usize>)
    ensures
        match r {
            Some(i) => find_first(v@, c) == Some(i as int),
            None => find_first(v@, c) is None,
        },
{
    proof {
        lemma_find_first(v@, c);
    }
    let mut i: usize = 0;
    while i < v.len()
        invariant
            i <= v@.len(),
            forall|j: int| 0 <= j < i ==> v@[j] != c,
            match find_first(v@, c) {
                Some(k) => 0 <= k < v@.len() && v@[k] == c && forall|j: int| 0 <= j < k ==> v@[j] != c,
                None => forall|j: int| 0 <= j < v@.len() ==> v@[j] != c,
            },
        decreases v@.len() - i,
    {
        if v[i] == c {
            return Some(i);
        }
        i = i + 1;
    }
    None
}

/// The characters of `v` from position `from` (inclusive) to `to` (exclusive).
pub fn subrange_chars(v: &Vec<char>, from: usize, to: usize) -> (r: Vec<char>)
    requires
        from <= to <= v@.len(),
    ensures
        r@ == v@.subrange(from as int, to as int),
{
    let mut r: Vec<char> = Vec::new();
    let mut i: usize = from;
    proof {
        assert(r@ =~= v@.subrange(from as int, from as int));
    }
    while i < to
        invariant
            from <= i <= to <= v@.len(),
            r@ == v@.subrange(from as int, i as int),
        decreases to - i,
    {
        r.push(v[i]);
        i = i + 1;
        proof {
            assert(v@.subrange(from as int, i as int) =~= v@.subrange(from as int, i as int - 1).push(
                v@[i as int - 1],
            ));
        }
    }
    r
}

/// Appends the characters of `src` to `dst`.
pub fn append_chars(dst: &mut Vec<char>, src: &Vec<char>)
    ensures
        final(dst)@ == old(dst)@ + src@,
{
    let mut i: usize = 0;
    proof {
        assert(dst@ =~= old(dst)@ + src@.take(0int));
    }
    while i < src.len()
        invariant
            i <= src@.len(),
            dst@ == old(dst)@ + src@.take(i as int),
        decreases src@.len() - i,
    {
        dst.push(src[i]);
        i = i + 1;
        proof {
            assert(old(dst)@ + src@.take(i as int) =~= (old(dst)@ + src@.take(i as int - 1)).push(
                src@[i as int - 1],
            ));
        }
    }
    proof {
        assert(old(dst)@ + src@.take(src@.len() as int) =~= old(dst)@ + src@);
    }
}

/// The pieces of `s` between occurrences of the separator `c`, in order.
/// Empty pieces are kept; a string without the separator is one piece,
/// so the result is never empty.
pub open spec fn split_on(s: Seq<char>, c: char) -> Seq<Seq<char>>
    decreases s.len(),
    via split_on_dec
{
    match find_first(s, c) {
        None => seq![s],
        Some(i) => seq![s.take(i)] + split_on(s.skip(i + 1), c),
    }
}

#[via_fn]
proof fn split_on_dec(s: Seq<char>, c: char) {
    lemma_find_first(s, c);
}

/// No piece of a split contains the separator, so splitting any piece
/// again yields just that piece: one round of splitting is idempotent.
pub proof fn lemma_split_on_pieces(s: Seq<char>, c: char)
    ensures
        forall|i: int|
            0 <= i < split_on(s, c).len() ==> split_on(#[trigger] split_on(s, c)[i], c) == seq![
                split_on(s, c)[i],
            ],
    decreases s.len(),
{
    lemma_find_first(s, c);
    match find_first(s, c) {
        None => {
            assert(split_on(s, c) == seq![s]);
        },
        Some(idx) => {
            let head = s.take(idx);
            lemma_find_first(head, c);
            match find_first(head, c) {
                Some(k) => {
                    assert(head[k] == s[k]);
                    assert(false);
                },
                None => {},
            }
            assert(split_on(head, c) == seq![head]);
            let rest = split_on(s.skip(idx + 1), c);
            lemma_split_on_pieces(s.skip(idx + 1), c);
            assert forall|i: int|
                0 <= i < split_on(s, c).len() implies split_on(
                #[trigger] split_on(s, c)[i],
                c,
            ) == seq![split_on(s, c)[i]] by {
                if i == 0 {
                    assert(split_on(s, c)[0] == head);
                } else {
                    assert(split_on(s, c)[i] == rest[i - 1]);
                }
            }
        },
    }
}

/// Splits `v` at every occurrence of the separator `c`, keeping empty pieces.
pub fn split_char(v: &Vec<char>, c: char) -> (r: Vec<Vec<char>>)
    ensures
        seq_views(r@) == split_on(v@, c),
        r@.len() >= 1,
    decreases v@.len(),
{
    proof {
        lemma_find_first(v@, c);
    }
    match find_char(v, c) {
        None => {
            let whole = subrange_chars(v, 0, v.len());
            proof {
                assert(whole@ =~= v@);
            }
            let mut r: Vec<Vec<char>> = Vec::new();
            r.push(whole);
            proof {
                assert(seq_views(r@) =~= split_on(v@, c));
            }
            r
        },
        Some(i) => {
            let n = v.len();
            proof {
                assert((i as int) < v@.len());
            }
            let head = subrange_chars(v, 0, i);
            let tail = subrange_chars(v, i + 1, n);
            proof {
                assert(head@ =~= v@.take(i as int));
                assert(tail@ =~= v@.skip(i as int + 1));
            }
            let rest = split_char(&tail, c);
            let mut r: Vec<Vec<char>> = Vec::new();
            r.push(head);
            let mut k: usize = 0;
            while k < rest.len()
                invariant
                    k <= rest@.len(),
                    r@.len() == 1 + k,
                    r@[0]@ == head@,
                    forall|j: int| 0 <= j < k ==> r@[j + 1]@ == #[trigger] rest@[j]@,
                decreases rest@.len() - k,
            {
                let piece = subrange_chars(&rest[k], 0, rest[k].len());
                proof {
                    assert(piece@ =~= rest@[k as int]@);
                }
                r.push(piece);
                k = k + 1;
            }
            proof {
                assert(seq_views(r@) =~= split_on(v@, c)) by {
                    assert(split_on(v@, c) == seq![v@.take(i as int)] + split_on(
                        v@.skip(i as int + 1),
                        c,
                    ));
                    assert(seq_views(rest@) == split_on(v@.skip(i as int + 1), c));
                    assert(forall|j: int|
                        0 <= j < rest@.len() ==> #[trigger] seq_views(rest@)[j] == rest@[j]@);
                }
            }
            r
        },
    }
}

/// Each piece of `pieces`, as a `String`, in order.
pub fn strings_of(pieces: &Vec<Vec<char>>) -> (r: Vec<String>)
    ensures
        seq_views(r@) == seq_views(pieces@),
{
    let mut r: Vec<String> = Vec::new();
    let mut i: usize = 0;
    while i < pieces.len()
        invariant
            i <= pieces@.len(),
            r@.len() == i,
            forall|j: int| 0 <= j < i ==> r@[j]@ == #[trigger] pieces@[j]@,
        decreases pieces@.len() - i,
    {
        r.push(string_of(&pieces[i]));
        i = i + 1;
    }
    proof {
        assert(seq_views(r@) =~= seq_views(pieces@));
    }
    r
}

/// The comma-separated pieces of `s`, as strings, in order, keeping
/// empty pieces.
pub fn split_commas(s: &str) -> (r: Vec<String>)
    ensures
        seq_views(r@) == split_on(s@, ','),
{
    let chars = chars_of(s);
    let pieces = split_char(&chars, ',');
    strings_of(&pieces)
}

} // verus!
