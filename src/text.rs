//! Token classification: case folding, punctuation, and numeric literals.
use vstd::prelude::*;
use crate::distance::slice_of;

verus! {

/// What `str::to_lowercase` makes of a string.
pub uninterp spec fn lower_of(s: Seq<char>) -> Seq<char>;

/// Relies on `str::to_lowercase`: the lowercase form depends on the characters alone.
#[verifier::external_body]
fn lowercase(s: &str) -> (r: String)
    ensures
        r@ == lower_of(s@),
{
    s.to_lowercase()
}

/// A token as the dictionary stores and compares it.
pub open spec fn normalized(word: Seq<char>, case_sensitive: bool) -> Seq<char> {
    if case_sensitive {
        word
    } else {
        lower_of(word)
    }
}

/// Lowercases `word` unless `case_sensitive` is set.
pub fn normalize(word: &str, case_sensitive: bool) -> (r: String)
    ensures
        r@ == normalized(word@, case_sensitive),
{
    if case_sensitive {
        word.to_owned()
    } else {
        lowercase(word)
    }
}

/// The characters that a one-character token is rejected for.
pub open spec fn is_punctuation(c: char) -> bool {
    c == '!' || c == '"' || c == '$' || c == '%' || c == '&' || c == '\'' || c == '(' || c
        == ')' || c == '*' || c == '+' || c == ',' || c == '-' || c == '.' || c == '/' || c
        == ':' || c == ';' || c == '<' || c == '=' || c == '>' || c == '?' || c == '@' || c
        == '[' || c == '\\' || c == ']' || c == '^' || c == '_' || c == '`' || c == '{' || c
        == '|' || c == '}' || c == '~' || c == '#'
}

pub fn punctuation(c: char) -> (r: bool)
    ensures
        r == is_punctuation(c),
{
    match c {
        '!' | '"' | '$' | '%' | '&' | '\'' | '(' | ')' | '*' | '+' | ',' | '-' | '.' | '/' | ':'
        | ';' | '<' | '=' | '>' | '?' | '@' | '[' | '\\' | ']' | '^' | '_' | '`' | '{' | '|'
        | '}' | '~' | '#' => true,
        _ => false,
    }
}

pub open spec fn is_digit(c: char) -> bool {
    '0' <= c && c <= '9'
}

pub open spec fn all_digits(s: Seq<char>) -> bool {
    forall|i: int| 0 <= i < s.len() ==> is_digit(#[trigger] s[i])
}

pub open spec fn is_sign(c: char) -> bool {
    c == '+' || c == '-'
}

/// `c` is the lowercase ASCII letter `l`, in either case.
pub open spec fn ascii_ci(c: char, l: char) -> bool {
    c == l || c as u32 + 32 == l as u32
}

/// `s` spells the lowercase ASCII word `lit`, ignoring ASCII case.
pub open spec fn ci_equal(s: Seq<char>, lit: Seq<char>) -> bool {
    s.len() == lit.len() && forall|i: int| 0 <= i < s.len() ==> ascii_ci(#[trigger] s[i], lit[i])
}

/// Digits with at most one decimal point, and at least one digit.
pub open spec fn mantissa(m: Seq<char>) -> bool {
    ||| m.len() > 0 && all_digits(m)
    ||| exists|d: int|
        0 <= d < m.len() && m.len() >= 2 && #[trigger] m[d] == '.' && all_digits(m.subrange(0, d))
            && all_digits(m.subrange(d + 1, m.len() as int))
}

/// An `e` or `E`, an optional sign, then at least one digit.
pub open spec fn exponent(e: Seq<char>) -> bool {
    &&& e.len() >= 2
    &&& ascii_ci(e[0], 'e')
    &&& {
        let r = e.drop_first();
        ||| all_digits(r)
        ||| r.len() >= 2 && is_sign(r[0]) && all_digits(r.drop_first())
    }
}

pub open spec fn decimal(t: Seq<char>) -> bool {
    exists|k: int|
        0 <= k <= t.len() && #[trigger] mantissa(t.subrange(0, k)) && (k == t.len() || exponent(
            t.subrange(k, t.len() as int),
        ))
}

/// `s` is a floating-point literal in the syntax that std's `f64::from_str` accepts:
/// an optional sign, then `inf`, `infinity`, `nan` (in any ASCII case) or a decimal
/// number with an optional exponent.
pub open spec fn float_syntax(s: Seq<char>) -> bool {
    let t = if s.len() > 0 && is_sign(s[0]) {
        s.drop_first()
    } else {
        s
    };
    ||| ci_equal(t, seq!['i', 'n', 'f'])
    ||| ci_equal(t, seq!['i', 'n', 'f', 'i', 'n', 'i', 't', 'y'])
    ||| ci_equal(t, seq!['n', 'a', 'n'])
    ||| decimal(t)
}

fn char_ci(c: char, l: char) -> (r: bool)
    ensures
        r == ascii_ci(c, l),
{
    c == l || (c as u32) + 32 == (l as u32)
}

fn digit(c: char) -> (r: bool)
    ensures
        r == is_digit(c),
{
    '0' <= c && c <= '9'
}

/// `t` is `nan` in any ASCII case.
pub fn is_nan_word(t: &Vec<char>) -> (r: bool)
    ensures
        r == ci_equal(t@, seq!['n', 'a', 'n']),
{
    let r = t.len() == 3 && char_ci(t[0], 'n') && char_ci(t[1], 'a') && char_ci(t[2], 'n');
    proof {
        if r {
            assert forall|i: int| 0 <= i < 3 implies ascii_ci(
                #[trigger] t@[i],
                seq!['n', 'a', 'n'][i],
            ) by {}
        }
    }
    r
}

fn is_inf_word(t: &Vec<char>) -> (r: bool)
    ensures
        r == ci_equal(t@, seq!['i', 'n', 'f']),
{
    let r = t.len() == 3 && char_ci(t[0], 'i') && char_ci(t[1], 'n') && char_ci(t[2], 'f');
    proof {
        if r {
            assert forall|i: int| 0 <= i < 3 implies ascii_ci(
                #[trigger] t@[i],
                seq!['i', 'n', 'f'][i],
            ) by {}
        }
    }
    r
}

fn is_infinity_word(t: &Vec<char>) -> (r: bool)
    ensures
        r == ci_equal(t@, seq!['i', 'n', 'f', 'i', 'n', 'i', 't', 'y']),
{
    let r = t.len() == 8 && char_ci(t[0], 'i') && char_ci(t[1], 'n') && char_ci(t[2], 'f')
        && char_ci(t[3], 'i') && char_ci(t[4], 'n') && char_ci(t[5], 'i') && char_ci(t[6], 't')
        && char_ci(t[7], 'y');
    proof {
        if r {
            assert forall|i: int| 0 <= i < 8 implies ascii_ci(
                #[trigger] t@[i],
                seq!['i', 'n', 'f', 'i', 'n', 'i', 't', 'y'][i],
            ) by {}
        }
    }
    r
}

/// The end of the run of digits in `t` that starts at `from`.
fn digits_end(t: &Vec<char>, from: usize) -> (r: usize)
    requires
        from <= t.len(),
    ensures
        from <= r <= t.len(),
        all_digits(t@.subrange(from as int, r as int)),
        r < t.len() ==> !is_digit(t@[r as int]),
{
    let mut i: usize = from;
    while i < t.len() && digit(t[i])
        invariant
            from <= i <= t.len(),
            all_digits(t@.subrange(from as int, i as int)),
        decreases t.len() - i,
    {
        proof {
            assert(t@.subrange(from as int, i + 1) =~= t@.subrange(from as int, i as int).push(
                t@[i as int],
            ));
        }
        i += 1;
    }
    i
}

/// Where a decimal's mantissa can end: the first character that is neither a
/// digit nor the first decimal point.
proof fn lemma_mantissa_split(t: Seq<char>, d1: int, d2: int, has_dot: bool, k: int, k2: int)
    requires
        0 <= d1 <= t.len(),
        all_digits(t.subrange(0, d1)),
        d1 < t.len() ==> !is_digit(t[d1]),
        has_dot ==> d1 < t.len() && t[d1] == '.' && d1 < d2 <= t.len() && all_digits(
            t.subrange(d1 + 1, d2),
        ) && (d2 < t.len() ==> !is_digit(t[d2])) && k == d2,
        !has_dot ==> (d1 < t.len() ==> t[d1] != '.') && k == d1,
        0 <= k2 <= t.len(),
        mantissa(t.subrange(0, k2)),
        k2 == t.len() || exponent(t.subrange(k2, t.len() as int)),
    ensures
        k2 == k,
{
    let m = t.subrange(0, k2);
    // Every character of the mantissa is a digit or its single decimal point.
    assert(forall|q: int| 0 <= q < k2 ==> is_digit(#[trigger] t[q]) || t[q] == '.') by {
        assert forall|q: int| 0 <= q < k2 implies is_digit(#[trigger] t[q]) || t[q] == '.' by {
            assert(m[q] == t[q]);
            if !all_digits(m) {
                let d = choose|d: int|
                    0 <= d < m.len() && m.len() >= 2 && #[trigger] m[d] == '.' && all_digits(
                        m.subrange(0, d),
                    ) && all_digits(m.subrange(d + 1, m.len() as int));
                if q < d {
                    assert(m.subrange(0, d)[q] == m[q]);
                } else if q > d {
                    assert(m.subrange(d + 1, m.len() as int)[q - d - 1] == m[q]);
                }
            }
        }
    }
    if k2 < t.len() {
        let e = t.subrange(k2, t.len() as int);
        assert(e[0] == t[k2]);
        assert(!is_digit(t[k2]) && t[k2] != '.');
    }
    if k2 < k {
        // The scan passed position k2 over a digit or the decimal point.
        assert(k2 < t.len());
        if k2 < d1 {
            assert(t.subrange(0, d1)[k2] == t[k2]);
        } else if k2 > d1 {
            assert(t.subrange(d1 + 1, d2)[k2 - d1 - 1] == t[k2]);
        }
    }
    if k2 > k {
        // The scan stopped at k on a character that the mantissa would hold.
        assert(t[k] == '.');
        assert(has_dot);
        assert(m[d1] == '.' && m[d2] == '.');
        if all_digits(m) {
            assert(is_digit(m[d1]));
        } else {
            let d = choose|d: int|
                0 <= d < m.len() && m.len() >= 2 && #[trigger] m[d] == '.' && all_digits(
                    m.subrange(0, d),
                ) && all_digits(m.subrange(d + 1, m.len() as int));
            if d1 < d {
                assert(m.subrange(0, d)[d1] == m[d1]);
            } else if d1 > d {
                assert(m.subrange(d + 1, m.len() as int)[d1 - d - 1] == m[d1]);
            } else {
                assert(m.subrange(d + 1, m.len() as int)[d2 - d - 1] == m[d2]);
            }
        }
    }
}

/// Whether `t` is a decimal number with an optional exponent.
fn is_decimal(t: &Vec<char>) -> (r: bool)
    ensures
        r == decimal(t@),
{
    let len = t.len();
    let d1 = digits_end(t, 0);
    let mut has_dot = false;
    let mut d2: usize = d1;
    if d1 < len && t[d1] == '.' {
        has_dot = true;
        d2 = digits_end(t, d1 + 1);
    }
    let k: usize = if has_dot {
        d2
    } else {
        d1
    };
    let ghost m = t@.subrange(0, k as int);
    let mantissa_ok = if has_dot {
        d2 >= 2
    } else {
        d1 >= 1
    };
    proof {
        if has_dot {
            assert(m[d1 as int] == '.');
            assert(!all_digits(m));
            assert(m.subrange(0, d1 as int) =~= t@.subrange(0, d1 as int));
            assert(m.subrange(d1 + 1, m.len() as int) =~= t@.subrange(d1 + 1, d2 as int));
            if mantissa_ok {
                assert(m[d1 as int] == '.');
            } else {
                assert(m.len() < 2);
            }
        } else {
            assert(m =~= t@.subrange(0, d1 as int));
            if !mantissa_ok {
                assert(m.len() == 0);
            }
        }
        assert(mantissa_ok == mantissa(m));
        assert forall|k2: int|
            0 <= k2 <= t@.len() && #[trigger] mantissa(t@.subrange(0, k2)) && (k2 == t@.len()
                || exponent(t@.subrange(k2, t@.len() as int))) implies k2 == k by {
            lemma_mantissa_split(t@, d1 as int, d2 as int, has_dot, k as int, k2);
        }
    }
    if !mantissa_ok {
        return false;
    }
    if k == len {
        return true;
    }
    if !char_ci(t[k], 'e') || k + 1 == len {
        return false;
    }
    let mut j: usize = k + 1;
    let signed = t[j] == '+' || t[j] == '-';
    if signed {
        j += 1;
    }
    let e_end = digits_end(t, j);
    let r = e_end == len && e_end > j;
    proof {
        let e = t@.subrange(k as int, len as int);
        let rest = e.drop_first();
        assert(rest =~= t@.subrange(k + 1, len as int));
        if signed {
            assert(rest.drop_first() =~= t@.subrange(j as int, len as int));
            assert(!is_digit(rest[0]));
            if !r && rest.len() >= 2 && e_end < len {
                assert(rest.drop_first()[e_end - j] == t@[e_end as int]);
            }
        } else {
            assert(rest =~= t@.subrange(j as int, len as int));
            if !r && e_end < len {
                assert(rest[e_end - j] == t@[e_end as int]);
            }
        }
        assert(r == exponent(e));
    }
    r
}

/// Whether `s` is a floating-point literal (see `float_syntax`).
pub fn is_float_literal(s: &Vec<char>) -> (r: bool)
    ensures
        r == float_syntax(s@),
{
    let start: usize = if s.len() > 0 && (s[0] == '+' || s[0] == '-') {
        1
    } else {
        0
    };
    let t = slice_of(s, start, s.len());
    proof {
        if start == 1 {
            assert(t@ =~= s@.drop_first());
        } else {
            assert(t@ =~= s@);
        }
    }
    is_inf_word(&t) || is_infinity_word(&t) || is_nan_word(&t) || is_decimal(&t)
}

} // verus!
