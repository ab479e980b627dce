//! Numeric text: parsing unsigned integers as `str::parse::<u32>` does,
//! rendering integers in decimal, and recognising the literals that
//! `str::parse::<f64>` accepts.
use vstd::prelude::*;

use crate::text::chars_of;
use crate::text::find_first;
use crate::text::lemma_find_first;
use crate::text::subrange_chars;

verus! {

/// Whether `c` is an ASCII decimal digit.
pub open spec fn is_digit(c: char) -> bool {
    48 <= (c as u32) && (c as u32) <= 57
}

/// The numeric value of the digit `c`.
pub open spec fn digit_val(c: char) -> nat
    recommends
        is_digit(c),
{
    ((c as u32) - 48) as nat
}

/// The value of a digit string, most significant digit first.
pub open spec fn digits_val(s: Seq<char>) -> nat
    decreases s.len(),
{
    if s.len() == 0 {
        0
    } else {
        digits_val(s.drop_last()) * 10 + digit_val(s.last())
    }
}

/// Whether every character of `s` is an ASCII decimal digit.
pub open spec fn all_digits(s: Seq<char>) -> bool {
    forall|i: int| 0 <= i < s.len() ==> is_digit(#[trigger] s[i])
}

/// What `str::parse::<u32>` accepts: an optional leading `+`, then at
/// least one ASCII digit, denoting a value that fits in `u32`.
pub open spec fn parse_u32_spec(s: Seq<char>) -> Option<u32> {
    let digits = if s.len() > 0 && s[0] == '+' {
        s.drop_first()
    } else {
        s
    };
    if digits.len() > 0 && all_digits(digits) && digits_val(digits) <= u32::MAX {
        Some(digits_val(digits) as u32)
    } else {
        None
    }
}

/// A longer digit string never has a smaller value.
proof fn lemma_digits_val_monotone(s: Seq<char>, k: int)
    requires
        0 <= k <= s.len(),
    ensures
        digits_val(s.take(k)) <= digits_val(s),
    decreases s.len() - k,
{
    if k == s.len() {
        assert(s.take(k) =~= s);
    } else {
        assert(s.take(k + 1).drop_last() =~= s.take(k));
        assert(s.take(k + 1).last() == s[k]);
        assert(digits_val(s.take(k)) * 10 >= digits_val(s.take(k)) * 1) by (nonlinear_arith);
        lemma_digits_val_monotone(s, k + 1);
    }
}

/// Parses `v` as `str::parse::<u32>` would.
pub fn parse_u32_chars(v: &Vec<char>) -> (r: Option<u32>)
    ensures
        r == parse_u32_spec(v@),
{
    let n = v.len();
    let start: usize = if n > 0 && v[0] == '+' {
        1
    } else {
        0
    };
    let ghost digits: Seq<char> = if v@.len() > 0 && v@[0] == '+' {
        v@.drop_first()
    } else {
        v@
    };
    proof {
        assert(digits =~= v@.skip(start as int));
    }
    if start == n {
        return None;
    }
    let mut acc: u32 = 0;
    let mut i: usize = start;
    proof {
        assert(v@.subrange(start as int, start as int) =~= Seq::<char>::empty());
    }
    while i < n
        invariant
            start <= i <= n,
            n == v@.len(),
            digits == v@.skip(start as int),
            digits == (if v@.len() > 0 && v@[0] == '+' {
                v@.drop_first()
            } else {
                v@
            }),
            all_digits(v@.subrange(start as int, i as int)),
            acc as nat == digits_val(v@.subrange(start as int, i as int)),
        decreases n - i,
    {
        let c = v[i];
        let u = c as u32;
        if u < 48 || u > 57 {
            proof {
                assert(digits[i as int - start as int] == v@[i as int]);
                assert(!is_digit(digits[i as int - start as int]));
                assert(!all_digits(digits));
                assert(parse_u32_spec(v@) is None);
            }
            return None;
        }
        let d = u - 48;
        let ghost prev = v@.subrange(start as int, i as int);
        let ghost cur = v@.subrange(start as int, i as int + 1);
        proof {
            assert(cur.drop_last() =~= prev);
            assert(cur.last() == v@[i as int]);
            assert(digits_val(cur) == (acc as nat) * 10 + d as nat);
        }
        let overflowed: bool = match acc.checked_mul(10) {
            None => true,
            Some(m) => match m.checked_add(d) {
                None => true,
                Some(s2) => {
                    acc = s2;
                    false
                },
            },
        };
        if overflowed {
            proof {
                assert(digits_val(cur) > u32::MAX);
                assert(cur =~= digits.take(i as int + 1 - start as int));
                lemma_digits_val_monotone(digits, i as int + 1 - start as int);
                assert(digits_val(digits) > u32::MAX);
                assert(parse_u32_spec(v@) is None);
            }
            return None;
        }
        i = i + 1;
    }
    proof {
        assert(v@.subrange(start as int, n as int) =~= digits);
    }
    Some(acc)
}

/// Parses `s` as `str::parse::<u32>` would.
pub fn parse_u32_field(s: &str) -> (r: Option<u32>)
    ensures
        r == parse_u32_spec(s@),
{
    let v = chars_of(s);
    parse_u32_chars(&v)
}

/// The character for the decimal digit `d`.
pub open spec fn digit_char(d: nat) -> char
    recommends
        d < 10,
{
    ((48 + d) as u8) as char
}

/// The decimal digits of `n`, most significant first, without leading
/// zeros (a single `0` for zero).
pub open spec fn dec_digits(n: nat) -> Seq<char>
    decreases n,
{
    if n < 10 {
        seq![digit_char(n)]
    } else {
        dec_digits(n / 10).push(digit_char(n % 10))
    }
}

/// Appends the decimal representation of `n` to `out`.
pub fn push_decimal(n: u32, out: &mut Vec<char>)
    ensures
        final(out)@ == old(out)@ + dec_digits(n as nat),
    decreases n,
{
    if n < 10 {
        let c = ((48u8 + (n as u8)) as char);
        proof {
            assert(c == digit_char(n as nat));
        }
        out.push(c);
        proof {
            assert(out@ =~= old(out)@ + dec_digits(n as nat));
        }
    } else {
        push_decimal(n / 10, out);
        let d = n % 10;
        let c = ((48u8 + (d as u8)) as char);
        proof {
            assert(c == digit_char((n % 10) as nat));
        }
        out.push(c);
        proof {
            assert(out@ =~= old(out)@ + dec_digits(n as nat));
        }
    }
}

/// Index of the first occurrence of `c1` or `c2` in `s`, if any.
pub open spec fn find_first_either(s: Seq<char>, c1: char, c2: char) -> Option<int>
    decreases s.len(),
{
    if s.len() == 0 {
        None
    } else if s[0] == c1 || s[0] == c2 {
        Some(0int)
    } else {
        match find_first_either(s.drop_first(), c1, c2) {
            None => None,
            Some(i) => Some(i + 1),
        }
    }
}

proof fn lemma_find_first_either(s: Seq<char>, c1: char, c2: char)
    ensures
        match find_first_either(s, c1, c2) {
            Some(i) => 0 <= i < s.len() && (s[i] == c1 || s[i] == c2) && forall|j: int|
                0 <= j < i ==> s[j] != c1 && s[j] != c2,
            None => forall|j: int| 0 <= j < s.len() ==> s[j] != c1 && s[j] != c2,
        },
    decreases s.len(),
{
    if s.len() > 0 && s[0] != c1 && s[0] != c2 {
        lemma_find_first_either(s.drop_first(), c1, c2);
        match find_first_either(s.drop_first(), c1, c2) {
            None => {
                assert forall|j: int| 0 <= j < s.len() implies s[j] != c1 && s[j] != c2 by {
                    if j >= 1 {
                        assert(s.drop_first()[j - 1] == s[j]);
                    }
                }
            },
            Some(i) => {
                assert(s.drop_first()[i] == s[i + 1]);
                assert forall|j: int| 0 <= j < i + 1 implies s[j] != c1 && s[j] != c2 by {
                    if j >= 1 {
                        assert(s.drop_first()[j - 1] == s[j]);
                    }
                }
            },
        }
    }
}

fn find_char_either(v: &Vec<char>, c1: char, c2: char) -> (r: Option<usize>)
    ensures
        match r {
            Some(i) => find_first_either(v@, c1, c2) == Some(i as int),
            None => find_first_either(v@, c1, c2) is None,
        },
{
    proof {
        lemma_find_first_either(v@, c1, c2);
    }
    let mut i: usize = 0;
    while i < v.len()
        invariant
            i <= v@.len(),
            forall|j: int| 0 <= j < i ==> v@[j] != c1 && v@[j] != c2,
            match find_first_either(v@, c1, c2) {
                Some(k) => 0 <= k < v@.len() && (v@[k] == c1 || v@[k] == c2) && forall|j: int|
                    0 <= j < k ==> v@[j] != c1 && v@[j] != c2,
                None => forall|j: int| 0 <= j < v@.len() ==> v@[j] != c1 && v@[j] != c2,
            },
        decreases v@.len() - i,
    {
        if v[i] == c1 || v[i] == c2 {
            return Some(i);
        }
        i = i + 1;
    }
    None
}

/// `c` with an ASCII upper-case letter folded to lower case.
pub open spec fn ascii_lower(c: char) -> char {
    if 65 <= (c as u32) && (c as u32) <= 90 {
        (((c as u32) + 32) as u8) as char
    } else {
        c
    }
}

/// Whether `s` and `t` are equal up to ASCII case.
pub open spec fn eq_ignore_ascii_case(s: Seq<char>, t: Seq<char>) -> bool {
    s.len() == t.len() && forall|i: int|
        0 <= i < s.len() ==> ascii_lower(#[trigger] s[i]) == ascii_lower(t[i])
}

/// Whether `s` reads `inf`, `infinity` or `nan`, ignoring ASCII case.
pub open spec fn is_special_float(s: Seq<char>) -> bool {
    eq_ignore_ascii_case(s, seq!['i', 'n', 'f']) || eq_ignore_ascii_case(
        s,
        seq!['i', 'n', 'f', 'i', 'n', 'i', 't', 'y'],
    ) || eq_ignore_ascii_case(s, seq!['n', 'a', 'n'])
}

/// Whether `s` is a digit run with an optional decimal point: digits on
/// either side of the point, at least one digit in all.
pub open spec fn is_mantissa(s: Seq<char>) -> bool {
    match find_first(s, '.') {
        None => s.len() > 0 && all_digits(s),
        Some(i) => s.len() > 1 && all_digits(s.take(i)) && all_digits(s.skip(i + 1)),
    }
}

/// Whether `s` is an exponent tail: an optional sign, then at least one digit.
pub open spec fn is_exp_tail(s: Seq<char>) -> bool {
    let d = if s.len() > 0 && (s[0] == '+' || s[0] == '-') {
        s.drop_first()
    } else {
        s
    };
    d.len() > 0 && all_digits(d)
}

/// Whether `s` is an unsigned floating-point number: a mantissa with an
/// optional `e`/`E` exponent part.
pub open spec fn is_float_number(s: Seq<char>) -> bool {
    match find_first_either(s, 'e', 'E') {
        None => is_mantissa(s),
        Some(i) => is_mantissa(s.take(i)) && is_exp_tail(s.skip(i + 1)),
    }
}

/// What `str::parse::<f64>` accepts: an optional sign, then `inf`,
/// `infinity` or `nan` ignoring ASCII case, or a number with an optional
/// exponent.
pub open spec fn is_float_literal_spec(s: Seq<char>) -> bool {
    let body = if s.len() > 0 && (s[0] == '+' || s[0] == '-') {
        s.drop_first()
    } else {
        s
    };
    is_special_float(body) || is_float_number(body)
}

fn ascii_lower_exec(c: char) -> (r: char)
    ensures
        r == ascii_lower(c),
{
    let u = c as u32;
    if 65 <= u && u <= 90 {
        ((u + 32) as u8) as char
    } else {
        c
    }
}

fn is_special_exec(v: &Vec<char>) -> (r: bool)
    ensures
        r == is_special_float(v@),
{
    if v.len() == 3 {
        let c0 = ascii_lower_exec(v[0]);
        let c1 = ascii_lower_exec(v[1]);
        let c2 = ascii_lower_exec(v[2]);
        let inf = c0 == 'i' && c1 == 'n' && c2 == 'f';
        let nan = c0 == 'n' && c1 == 'a' && c2 == 'n';
        proof {
            assert(inf == eq_ignore_ascii_case(v@, seq!['i', 'n', 'f']));
            assert(nan == eq_ignore_ascii_case(v@, seq!['n', 'a', 'n']));
            assert(!eq_ignore_ascii_case(v@, seq!['i', 'n', 'f', 'i', 'n', 'i', 't', 'y']));
        }
        inf || nan
    } else if v.len() == 8 {
        let r = ascii_lower_exec(v[0]) == 'i' && ascii_lower_exec(v[1]) == 'n'
            && ascii_lower_exec(v[2]) == 'f' && ascii_lower_exec(v[3]) == 'i'
            && ascii_lower_exec(v[4]) == 'n' && ascii_lower_exec(v[5]) == 'i'
            && ascii_lower_exec(v[6]) == 't' && ascii_lower_exec(v[7]) == 'y';
        proof {
            assert(r == eq_ignore_ascii_case(v@, seq!['i', 'n', 'f', 'i', 'n', 'i', 't', 'y']));
            assert(!eq_ignore_ascii_case(v@, seq!['i', 'n', 'f']));
            assert(!eq_ignore_ascii_case(v@, seq!['n', 'a', 'n']));
        }
        r
    } else {
        false
    }
}

fn all_digits_exec(v: &Vec<char>) -> (r: bool)
    ensures
        r == all_digits(v@),
{
    let mut i: usize = 0;
    while i < v.len()
        invariant
            i <= v@.len(),
            forall|j: int| 0 <= j < i ==> is_digit(#[trigger] v@[j]),
        decreases v@.len() - i,
    {
        let u = v[i] as u32;
        if u < 48 || u > 57 {
            return false;
        }
        i = i + 1;
    }
    true
}

fn is_mantissa_exec(v: &Vec<char>) -> (r: bool)
    ensures
        r == is_mantissa(v@),
{
    proof {
        lemma_find_first(v@, '.');
    }
    match crate::text::find_char(v, '.') {
        None => {
            if v.len() == 0 {
                false
            } else {
                all_digits_exec(v)
            }
        },
        Some(i) => {
            if v.len() <= 1 {
                return false;
            }
            let before = subrange_chars(v, 0, i);
            let after = subrange_chars(v, i + 1, v.len());
            proof {
                assert(before@ =~= v@.take(i as int));
                assert(after@ =~= v@.skip(i as int + 1));
            }
            all_digits_exec(&before) && all_digits_exec(&after)
        },
    }
}

fn is_exp_tail_exec(v: &Vec<char>) -> (r: bool)
    ensures
        r == is_exp_tail(v@),
{
    let n = v.len();
    let start: usize = if n > 0 && (v[0] == '+' || v[0] == '-') {
        1
    } else {
        0
    };
    let d = subrange_chars(v, start, n);
    proof {
        let dd = if v@.len() > 0 && (v@[0] == '+' || v@[0] == '-') {
            v@.drop_first()
        } else {
            v@
        };
        assert(d@ =~= dd);
    }
    if d.len() == 0 {
        false
    } else {
        all_digits_exec(&d)
    }
}

/// Whether `str::parse::<f64>` would accept `s`.
pub fn is_float_literal(s: &str) -> (r: bool)
    ensures
        r == is_float_literal_spec(s@),
{
    let v = chars_of(s);
    let n = v.len();
    let start: usize = if n > 0 && (v[0] == '+' || v[0] == '-') {
        1
    } else {
        0
    };
    let body = subrange_chars(&v, start, n);
    proof {
        let bb = if s@.len() > 0 && (s@[0] == '+' || s@[0] == '-') {
            s@.drop_first()
        } else {
            s@
        };
        assert(body@ =~= bb);
    }
    if is_special_exec(&body) {
        return true;
    }
    proof {
        lemma_find_first_either(body@, 'e', 'E');
    }
    match find_char_either(&body, 'e', 'E') {
        None => is_mantissa_exec(&body),
        Some(i) => {
            let mant = subrange_chars(&body, 0, i);
            let tail = subrange_chars(&body, i + 1, body.len());
            proof {
                assert(mant@ =~= body@.take(i as int));
                assert(tail@ =~= body@.skip(i as int + 1));
            }
            is_mantissa_exec(&mant) && is_exp_tail_exec(&tail)
        },
    }
}

} // verus!
