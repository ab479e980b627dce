//! The hostlist expander: decodes a compressed node-name expression such
//! as `node[39-40,42-43]` into the explicit, ordered list of names it
//! denotes.
//!
//! Only the first `[`/`]` pair is ever interpreted; a second bracket
//! group is carried along as literal suffix text. A bracketed range
//! whose bound is not an unsigned integer is a hard error carrying the
//! offending segment, never a silent omission.
use vstd::prelude::*;

use crate::num::dec_digits;
use crate::num::parse_u32_chars;
use crate::num::parse_u32_spec;
use crate::num::push_decimal;
use crate::text::append_chars;
use crate::text::chars_of;
use crate::text::find_char;
use crate::text::find_first;
use crate::text::lemma_find_first;
use crate::text::seq_views;
use crate::text::split_char;
use crate::text::split_on;
use crate::text::string_of;
use crate::text::strings_of;
use crate::text::subrange_chars;

verus! {

/// A bracketed range segment whose bound is not an unsigned integer;
/// `segment` is the offending piece, verbatim.
#[derive(Debug, Clone, PartialEq, Eq)]
pub struct ExpandError {
    pub segment: String,
}

/// The names `prefix` glued to the decimal form of each integer in
/// `[a, b]`, in ascending order; empty when `a > b`.
pub open spec fn range_names(prefix: Seq<char>, a: u32, b: u32) -> Seq<Seq<char>> {
    if a > b {
        Seq::empty()
    } else {
        Seq::new((b - a + 1) as nat, |i: int| prefix + dec_digits((a + i) as nat))
    }
}

/// One bracket segment: `start-end` denotes the ascending range glued to
/// `prefix`; anything without `-` is glued to `prefix` verbatim. A bound
/// that is not an unsigned integer is the error, carrying the segment.
pub open spec fn expand_piece(prefix: Seq<char>, piece: Seq<char>) -> Result<
    Seq<Seq<char>>,
    Seq<char>,
> {
    match find_first(piece, '-') {
        None => Ok(seq![prefix + piece]),
        Some(d) => {
            let a = parse_u32_spec(piece.take(d));
            let b = parse_u32_spec(piece.skip(d + 1));
            if a is None || b is None {
                Err(piece)
            } else {
                Ok(range_names(prefix, a->0, b->0))
            }
        },
    }
}

/// All bracket segments in order; the first unparsable segment aborts
/// the whole expansion.
pub open spec fn expand_pieces(prefix: Seq<char>, pieces: Seq<Seq<char>>) -> Result<
    Seq<Seq<char>>,
    Seq<char>,
>
    decreases pieces.len(),
{
    if pieces.len() == 0 {
        Ok(Seq::empty())
    } else {
        match expand_piece(prefix, pieces[0]) {
            Err(seg) => Err(seg),
            Ok(names) => match expand_pieces(prefix, pieces.drop_first()) {
                Err(seg) => Err(seg),
                Ok(rest) => Ok(names + rest),
            },
        }
    }
}

/// The literal names the text after `]` denotes: nothing when empty;
/// otherwise its first character (the comma after the bracket) is
/// dropped and the rest is split on commas, with no further bracket
/// interpretation.
pub open spec fn suffix_names(suffix: Seq<char>) -> Seq<Seq<char>> {
    if suffix.len() == 0 {
        Seq::empty()
    } else {
        split_on(suffix.drop_first(), ',')
    }
}

/// When both brackets occur, the first `[` must come before the first
/// `]` for the expression to be readable as prefix, range and suffix.
pub open spec fn bracket_ok(s: Seq<char>) -> bool {
    match (find_first(s, '['), find_first(s, ']')) {
        (Some(o), Some(c)) => o < c,
        _ => true,
    }
}

/// The ordered names a hostlist expression denotes: without `[` a plain
/// comma-split; with an unmatched `[` nothing; otherwise the literal
/// prefix names, then the bracket expansion glued to the effective
/// prefix, then the literal suffix names.
pub open spec fn expand_spec(s: Seq<char>) -> Result<Seq<Seq<char>>, Seq<char>>
    recommends
        bracket_ok(s),
{
    match find_first(s, '[') {
        None => Ok(split_on(s, ',')),
        Some(o) => match find_first(s, ']') {
            None => Ok(Seq::empty()),
            Some(c) => {
                let prefix_parts = split_on(s.take(o), ',');
                let eff = prefix_parts.last();
                let leading = prefix_parts.drop_last();
                match expand_pieces(eff, split_on(s.subrange(o + 1, c), ',')) {
                    Err(seg) => Err(seg),
                    Ok(body) => Ok(leading + body + suffix_names(s.skip(c + 1))),
                }
            },
        },
    }
}

/// Expanding an expression without any bracket is exactly a plain
/// comma-split of the whole expression.
pub proof fn lemma_expand_no_bracket(s: Seq<char>)
    requires
        forall|i: int| 0 <= i < s.len() ==> s[i] != '[',
    ensures
        expand_spec(s) == Ok::<Seq<Seq<char>>, Seq<char>>(split_on(s, ',')),
{
    lemma_find_first(s, '[');
}

/// Whether `expand_node_range` accepts `s` (see `bracket_ok`).
pub fn hostlist_wf(value: &str) -> (r: bool)
    ensures
        r == bracket_ok(value@),
{
    let chars = chars_of(value);
    let open_pos = find_char(&chars, '[');
    let close_pos = find_char(&chars, ']');
    match (open_pos, close_pos) {
        (Some(o), Some(c)) => o < c,
        _ => true,
    }
}

fn expand_piece_exec(prefix: &Vec<char>, piece: &Vec<char>, out: &mut Vec<String>) -> (r: Result<
    (),
    ExpandError,
>)
    ensures
        match expand_piece(prefix@, piece@) {
            Ok(names) => r is Ok && seq_views(final(out)@) == seq_views(old(out)@) + names,
            Err(seg) => (r matches Err(e) && e.segment@ == seg) && *final(out) == *old(out),
        },
{
    proof {
        lemma_find_first(piece@, '-');
    }
    match find_char(piece, '-') {
        None => {
            let mut name = subrange_chars(prefix, 0, prefix.len());
            proof {
                assert(name@ =~= prefix@);
            }
            append_chars(&mut name, piece);
            out.push(string_of(&name));
            proof {
                assert(seq_views(out@) =~= seq_views(old(out)@) + seq![prefix@ + piece@]);
            }
            Ok(())
        },
        Some(d) => {
            let pn = piece.len();
            proof {
                assert((d as int) < piece@.len());
            }
            let left = subrange_chars(piece, 0, d);
            let right = subrange_chars(piece, d + 1, pn);
            proof {
                assert(left@ =~= piece@.take(d as int));
                assert(right@ =~= piece@.skip(d as int + 1));
            }
            let a_opt = parse_u32_chars(&left);
            let b_opt = parse_u32_chars(&right);
            match (a_opt, b_opt) {
                (Some(a), Some(b)) => {
                    if a > b {
                        proof {
                            assert(seq_views(out@) =~= seq_views(old(out)@) + range_names(
                                prefix@,
                                a,
                                b,
                            ));
                        }
                        return Ok(());
                    }
                    let ghost base = out@;
                    let mut i: u64 = a as u64;
                    while i <= b as u64
                        invariant
                            a <= b,
                            a as u64 <= i <= b as u64 + 1,
                            out@.len() == base.len() + (i - a),
                            forall|j: int| 0 <= j < base.len() ==> out@[j] == base[j],
                            forall|j: int|
                                0 <= j < i - a ==> #[trigger] out@[base.len() + j]@ == prefix@
                                    + dec_digits((a + j) as nat),
                        decreases b as u64 + 1 - i,
                    {
                        let mut name = subrange_chars(prefix, 0, prefix.len());
                        proof {
                            assert(name@ =~= prefix@);
                        }
                        push_decimal(i as u32, &mut name);
                        proof {
                            assert((i as u32) as nat == i as nat);
                            assert(name@ == prefix@ + dec_digits(i as nat));
                        }
                        out.push(string_of(&name));
                        i = i + 1;
                    }
                    proof {
                        assert(base == old(out)@);
                        let ghost combined = seq_views(old(out)@) + range_names(prefix@, a, b);
                        assert forall|p: int| 0 <= p < out@.len() implies seq_views(out@)[p]
                            == combined[p] by {
                            if p >= base.len() {
                                assert(out@[base.len() + (p - base.len())]@ == prefix@
                                    + dec_digits((a + (p - base.len())) as nat));
                            }
                        }
                        assert(seq_views(out@) =~= combined);
                    }
                    Ok(())
                },
                _ => {
                    proof {
                        assert(expand_piece(prefix@, piece@) is Err);
                    }
                    Err(ExpandError { segment: string_of(piece) })
                },
            }
        },
    }
}

fn expand_pieces_exec(prefix: &Vec<char>, pieces: &Vec<Vec<char>>, out: &mut Vec<String>) -> (r:
    Result<(), ExpandError>)
    ensures
        match expand_pieces(prefix@, seq_views(pieces@)) {
            Ok(names) => r is Ok && seq_views(final(out)@) == seq_views(old(out)@) + names,
            Err(seg) => r matches Err(e) && e.segment@ == seg,
        },
{
    let ghost all = seq_views(pieces@);
    let ghost mut done: Seq<Seq<char>> = Seq::empty();
    let mut k: usize = 0;
    proof {
        assert(all.skip(0) =~= all);
        assert(seq_views(out@) =~= seq_views(old(out)@) + done);
    }
    while k < pieces.len()
        invariant
            k <= pieces@.len(),
            all == seq_views(pieces@),
            seq_views(out@) == seq_views(old(out)@) + done,
            expand_pieces(prefix@, all) == (match expand_pieces(prefix@, all.skip(k as int)) {
                Err(seg) => Err::<Seq<Seq<char>>, Seq<char>>(seg),
                Ok(rest) => Ok(done + rest),
            }),
        decreases pieces@.len() - k,
    {
        proof {
            assert(all.skip(k as int)[0] == pieces@[k as int]@);
            assert(all.skip(k as int).drop_first() =~= all.skip(k as int + 1));
        }
        let ghost out_before = out@;
        match expand_piece_exec(prefix, &pieces[k], out) {
            Err(e) => {
                proof {
                    assert(expand_pieces(prefix@, all) is Err);
                }
                return Err(e);
            },
            Ok(()) => {
                let ghost names = (match expand_piece(prefix@, pieces@[k as int]@) {
                    Ok(n) => n,
                    Err(_) => Seq::empty(),
                });
                proof {
                    assert(seq_views(out@) == seq_views(out_before) + names);
                    assert(seq_views(out@) =~= seq_views(old(out)@) + (done + names));
                    assert forall|rest: Seq<Seq<char>>| (done + names) + rest =~= done + (names
                        + rest) by {}
                    done = done + names;
                }
                k = k + 1;
            },
        }
    }
    proof {
        assert(all.skip(pieces@.len() as int) =~= Seq::<Seq<char>>::empty());
        assert(done + Seq::<Seq<char>>::empty() =~= done);
    }
    Ok(())
}

/// Decodes one hostlist expression into the explicit list of names, in
/// the order the grammar produces them: literal prefix names, then the
/// bracket expansion, then literal suffix names. A range bound that is
/// not an unsigned integer aborts the whole expansion with the
/// offending segment.
pub fn expand_node_range(value: &str) -> (r: Result<Vec<String>, ExpandError>)
    requires
        bracket_ok(value@),
    ensures
        match (r, expand_spec(value@)) {
            (Ok(names), Ok(spec_names)) => seq_views(names@) == spec_names,
            (Err(e), Err(seg)) => e.segment@ == seg,
            _ => false,
        },
{
    let chars = chars_of(value);
    proof {
        lemma_find_first(chars@, '[');
        lemma_find_first(chars@, ']');
    }
    match find_char(&chars, '[') {
        None => {
            let pieces = split_char(&chars, ',');
            let names = strings_of(&pieces);
            Ok(names)
        },
        Some(o) => {
            match find_char(&chars, ']') {
                None => Ok(Vec::new()),
                Some(cb) => {
                    proof {
                        assert((o as int) < (cb as int));
                    }
                    let n = chars.len();
                    let prefix_all = subrange_chars(&chars, 0, o);
                    let content = subrange_chars(&chars, o + 1, cb);
                    let suffix = subrange_chars(&chars, cb + 1, n);
                    let prefix_parts = split_char(&prefix_all, ',');
                    proof {
                        assert(seq_views(prefix_parts@) == split_on(value@.take(o as int), ','));
                    }
                    let ghost leading = split_on(value@.take(o as int), ',').drop_last();
                    let mut out: Vec<String> = Vec::new();
                    let np = prefix_parts.len();
                    let mut k: usize = 0;
                    while k + 1 < np
                        invariant
                            np == prefix_parts@.len(),
                            1 <= np,
                            k < np,
                            out@.len() == k,
                            forall|j: int|
                                0 <= j < k ==> #[trigger] out@[j]@ == prefix_parts@[j]@,
                        decreases np - k,
                    {
                        out.push(string_of(&prefix_parts[k]));
                        k = k + 1;
                    }
                    proof {
                        assert(k == prefix_parts@.len() - 1);
                        assert(seq_views(out@) =~= leading);
                    }
                    let eff = &prefix_parts[prefix_parts.len() - 1];
                    proof {
                        assert(eff@ == split_on(value@.take(o as int), ',').last());
                    }
                    let content_parts = split_char(&content, ',');
                    let ghost out_before = out@;
                    match expand_pieces_exec(eff, &content_parts, &mut out) {
                        Err(e) => {
                            proof {
                                assert(seq_views(content_parts@) == split_on(
                                    value@.subrange(o as int + 1, cb as int),
                                    ',',
                                ));
                                assert(expand_spec(value@) is Err);
                            }
                            Err(e)
                        },
                        Ok(()) => {
                            let ghost body = (match expand_pieces(
                                eff@,
                                seq_views(content_parts@),
                            ) {
                                Ok(b) => b,
                                Err(_) => Seq::empty(),
                            });
                            proof {
                                assert(seq_views(out@) == leading + body);
                            }
                            if suffix.len() > 0 {
                                let sfx_rest = subrange_chars(&suffix, 1, suffix.len());
                                proof {
                                    assert(sfx_rest@ =~= suffix@.drop_first());
                                }
                                let sfx_parts = split_char(&sfx_rest, ',');
                                let ghost base = out@;
                                let mut k2: usize = 0;
                                while k2 < sfx_parts.len()
                                    invariant
                                        k2 <= sfx_parts@.len(),
                                        out@.len() == base.len() + k2,
                                        forall|j: int| 0 <= j < base.len() ==> out@[j] == base[j],
                                        forall|j: int|
                                            0 <= j < k2 ==> #[trigger] out@[base.len() + j]@
                                                == sfx_parts@[j]@,
                                    decreases sfx_parts@.len() - k2,
                                {
                                    out.push(string_of(&sfx_parts[k2]));
                                    k2 = k2 + 1;
                                }
                                proof {
                                    let ghost combined = seq_views(base) + seq_views(sfx_parts@);
                                    assert forall|p: int|
                                        0 <= p < out@.len() implies seq_views(out@)[p]
                                        == combined[p] by {
                                        if p >= base.len() {
                                            assert(out@[base.len() + (p - base.len())]@
                                                == sfx_parts@[p - base.len()]@);
                                        }
                                    }
                                    assert(seq_views(out@) =~= seq_views(base) + seq_views(
                                        sfx_parts@,
                                    ));
                                    assert(suffix_names(value@.skip(cb as int + 1)) == seq_views(
                                        sfx_parts@,
                                    ));
                                    assert(seq_views(out@) =~= leading + body + suffix_names(
                                        value@.skip(cb as int + 1),
                                    ));
                                }
                            } else {
                                proof {
                                    assert(suffix_names(value@.skip(cb as int + 1))
                                        =~= Seq::<Seq<char>>::empty());
                                    assert(seq_views(out@) =~= leading + body + suffix_names(
                                        value@.skip(cb as int + 1),
                                    ));
                                }
                            }
                            Ok(out)
                        },
                    }
                },
            }
        },
    }
}

} // verus!
