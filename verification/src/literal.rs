//! The textual form of a floating-point number that the standard library's
//! `f32`/`f64` parsers accept, as a grammar over characters:
//!
//! ```text
//! Float  ::= Sign? ( 'inf' | 'infinity' | 'nan' | Number )
//! Number ::= ( Digit+ | Digit+ '.' Digit* | Digit* '.' Digit+ ) Exp?
//! Exp    ::= 'e' Sign? Digit+
//! Sign   ::= [+-]
//! Digit  ::= [0-9]
//! ```
//!
//! Letters match in either case. Both float types accept exactly the same
//! strings (a value out of range becomes an infinity, not an error).
use vstd::prelude::*;

verus! {

pub open spec fn is_dec_digit(c: char) -> bool {
    '0' <= c <= '9'
}

pub open spec fn is_sign(c: char) -> bool {
    c == '+' || c == '-'
}

pub open spec fn is_exp_mark(c: char) -> bool {
    c == 'e' || c == 'E'
}

/// `s` without one leading sign, if it has one.
pub open spec fn strip_sign(s: Seq<char>) -> Seq<char> {
    if s.len() > 0 && is_sign(s[0]) {
        s.drop_first()
    } else {
        s
    }
}

pub open spec fn all_digits(s: Seq<char>) -> bool {
    forall|i: int| 0 <= i < s.len() ==> is_dec_digit(#[trigger] s[i])
}

/// `Digit+ | Digit+ '.' Digit* | Digit* '.' Digit+`: digits with at most
/// one point, and at least one digit.
pub open spec fn is_mantissa(m: Seq<char>) -> bool {
    &&& exists|i: int| 0 <= i < m.len() && is_dec_digit(#[trigger] m[i])
    &&& forall|i: int| 0 <= i < m.len() ==> is_dec_digit(#[trigger] m[i]) || m[i] == '.'
    &&& forall|i: int, j: int| 0 <= i < j < m.len() && #[trigger] m[i] == '.' ==> #[trigger] m[j] != '.'
}

/// What follows the exponent mark: `Sign? Digit+`.
pub open spec fn is_exponent_digits(x: Seq<char>) -> bool {
    strip_sign(x).len() > 0 && all_digits(strip_sign(x))
}

/// `Number`: a mantissa, optionally followed by an exponent.
pub open spec fn is_decimal(b: Seq<char>) -> bool {
    ||| (forall|i: int| 0 <= i < b.len() ==> !is_exp_mark(#[trigger] b[i])) && is_mantissa(b)
    ||| exists|k: int|
        0 <= k < b.len() && is_exp_mark(#[trigger] b[k]) && is_mantissa(b.take(k))
            && is_exponent_digits(b.skip(k + 1))
}

/// `b` spells the word given in lower and in upper case, letter by letter in
/// either case.
pub open spec fn matches_word(b: Seq<char>, lower: Seq<char>, upper: Seq<char>) -> bool {
    b.len() == lower.len() && forall|i: int|
        0 <= i < b.len() ==> #[trigger] b[i] == lower[i] || b[i] == upper[i]
}

pub open spec fn is_special(b: Seq<char>) -> bool {
    ||| matches_word(b, seq!['i', 'n', 'f'], seq!['I', 'N', 'F'])
    ||| matches_word(
        b,
        seq!['i', 'n', 'f', 'i', 'n', 'i', 't', 'y'],
        seq!['I', 'N', 'F', 'I', 'N', 'I', 'T', 'Y'],
    )
    ||| matches_word(b, seq!['n', 'a', 'n'], seq!['N', 'A', 'N'])
}

/// The strings that parse as a floating-point number.
pub open spec fn is_float_literal(s: Seq<char>) -> bool {
    is_special(strip_sign(s)) || is_decimal(strip_sign(s))
}

proof fn lemma_mantissa_of_parts(a: Seq<char>, b: Seq<char>)
    requires
        all_digits(a),
        all_digits(b),
        a.len() + b.len() >= 1,
    ensures
        is_mantissa(a + seq!['.'] + b),
        !(exists|i: int| 0 <= i < (a + seq!['.'] + b).len() && is_exp_mark(#[trigger] (a + seq!['.'] + b)[i])),
{
    let m = a + seq!['.'] + b;
    assert forall|i: int| 0 <= i < m.len() implies is_dec_digit(#[trigger] m[i]) || m[i] == '.' by {
        if i < a.len() {
            assert(m[i] == a[i]);
        } else if i > a.len() {
            assert(m[i] == b[i - a.len() - 1]);
        }
    }
    if a.len() > 0 {
        assert(m[0] == a[0] && is_dec_digit(m[0]));
    } else {
        assert(m[1] == b[0] && is_dec_digit(m[1]));
    }
    assert forall|i: int, j: int| 0 <= i < j < m.len() && #[trigger] m[i] == '.' implies #[trigger] m[j]
        != '.' by {
        if i < a.len() {
            assert(m[i] == a[i]);
        }
        if i > a.len() {
            assert(m[i] == b[i - a.len() - 1]);
        }
        assert(j > a.len());
        assert(m[j] == b[j - a.len() - 1]);
    }
    if exists|i: int| 0 <= i < m.len() && is_exp_mark(#[trigger] m[i]) {
        let i = choose|i: int| 0 <= i < m.len() && is_exp_mark(#[trigger] m[i]);
        assert(is_dec_digit(m[i]) || m[i] == '.');
    }
}

/// Digits with a point among them, or without one, optionally after a sign,
/// are numbers: `d`, `d.`, `.d`, `d.d`, each with `+` or `-` in front or not.
pub proof fn decimals_are_literals(sign: Seq<char>, a: Seq<char>, b: Seq<char>)
    requires
        sign.len() == 0 || (sign.len() == 1 && is_sign(sign[0])),
        all_digits(a),
        all_digits(b),
        a.len() + b.len() >= 1,
    ensures
        is_float_literal(sign + a + seq!['.'] + b),
        a.len() >= 1 ==> is_float_literal(sign + a),
{
    lemma_mantissa_of_parts(a, b);
    let m = a + seq!['.'] + b;
    let s1 = sign + a + seq!['.'] + b;
    assert(strip_sign(s1) =~= m);
    if a.len() >= 1 {
        let s2 = sign + a;
        assert(strip_sign(s2) =~= a);
        assert(is_dec_digit(a[0]));
        assert forall|i: int, j: int| 0 <= i < j < a.len() && #[trigger] a[i] == '.' implies #[trigger] a[j]
            != '.' by {
            assert(is_dec_digit(a[i]));
        }
        assert(is_mantissa(a));
        assert forall|i: int| 0 <= i < a.len() implies !is_exp_mark(#[trigger] a[i]) by {
            assert(is_dec_digit(a[i]));
        }
    }
}

/// The characters of a string slice, in order.
pub fn chars_of(s: &str) -> (v: Vec<char>)
    ensures
        v@ == s@,
{
    broadcast use vstd::string::group_string_axioms;

    let mut v: Vec<char> = Vec::new();
    for c in it: s.chars()
        invariant
            it.seq() == s@,
            v@ == it.seq().take(it.index() as int),
    {
        v.push(c);
    }
    v
}

fn is_digit_char(c: char) -> (r: bool)
    ensures
        r == is_dec_digit(c),
{
    '0' <= c && c <= '9'
}

/// Whether `v[lo..hi]` spells the word, in either case per letter.
fn matches_word_at(v: &Vec<char>, lo: usize, hi: usize, lower: &[char], upper: &[char]) -> (r:
    bool)
    requires
        lo <= hi <= v@.len(),
        lower@.len() == upper@.len(),
    ensures
        r == matches_word(v@.subrange(lo as int, hi as int), lower@, upper@),
{
    if hi - lo != lower.len() {
        return false;
    }
    let mut i: usize = 0;
    while i < lower.len()
        invariant
            lo <= hi <= v@.len(),
            lower@.len() == upper@.len(),
            hi - lo == lower@.len(),
            0 <= i <= lower@.len(),
            forall|k: int|
                0 <= k < i ==> #[trigger] v@[lo + k] == lower@[k] || v@[lo + k] == upper@[k],
        decreases lower@.len() - i,
    {
        let c = v[lo + i];
        if c != lower[i] && c != upper[i] {
            assert(v@.subrange(lo as int, hi as int)[i as int] == c);
            return false;
        }
        i = i + 1;
    }
    assert forall|k: int| 0 <= k < hi - lo implies #[trigger] v@.subrange(
        lo as int,
        hi as int,
    )[k] == lower@[k] || v@.subrange(lo as int, hi as int)[k] == upper@[k] by {
        assert(v@.subrange(lo as int, hi as int)[k] == v@[lo + k]);
    }
    true
}

/// Whether `v[lo..hi]` is a mantissa: digits with at most one point, at
/// least one digit.
fn is_mantissa_at(v: &Vec<char>, lo: usize, hi: usize) -> (r: bool)
    requires
        lo <= hi <= v@.len(),
    ensures
        r == is_mantissa(v@.subrange(lo as int, hi as int)),
{
    let ghost m = v@.subrange(lo as int, hi as int);
    let mut seen_digit = false;
    let mut seen_dot = false;
    let ghost mut dot_at: int = 0;
    let mut i: usize = lo;
    while i < hi
        invariant
            lo <= i <= hi <= v@.len(),
            m == v@.subrange(lo as int, hi as int),
            seen_digit <==> exists|k: int| 0 <= k < i - lo && is_dec_digit(#[trigger] m[k]),
            forall|k: int| 0 <= k < i - lo ==> is_dec_digit(#[trigger] m[k]) || m[k] == '.',
            forall|k: int, j: int|
                0 <= k < j < i - lo && #[trigger] m[k] == '.' ==> #[trigger] m[j] != '.',
            seen_dot ==> 0 <= dot_at < i - lo && m[dot_at] == '.',
            !seen_dot ==> forall|k: int| 0 <= k < i - lo ==> #[trigger] m[k] != '.',
        decreases hi - i,
    {
        let c = v[i];
        assert(m[i - lo] == c);
        if is_digit_char(c) {
            seen_digit = true;
        } else if c == '.' {
            if seen_dot {
                assert(m[dot_at] == '.' && m[i - lo] == '.');
                return false;
            }
            seen_dot = true;
            proof {
                dot_at = i - lo;
            }
        } else {
            assert(!(is_dec_digit(m[i - lo]) || m[i - lo] == '.'));
            return false;
        }
        i = i + 1;
    }
    seen_digit
}

/// Whether `v[lo..hi]` is `Sign? Digit+`.
fn is_exponent_digits_at(v: &Vec<char>, lo: usize, hi: usize) -> (r: bool)
    requires
        lo <= hi <= v@.len(),
    ensures
        r == is_exponent_digits(v@.subrange(lo as int, hi as int)),
{
    let ghost x = v@.subrange(lo as int, hi as int);
    let mut start = lo;
    if lo < hi && (v[lo] == '+' || v[lo] == '-') {
        start = lo + 1;
    }
    assert(strip_sign(x) == v@.subrange(start as int, hi as int));
    if start == hi {
        return false;
    }
    let mut i = start;
    while i < hi
        invariant
            start <= i <= hi <= v@.len(),
            x == v@.subrange(lo as int, hi as int),
            strip_sign(x) == v@.subrange(start as int, hi as int),
            forall|k: int| start <= k < i ==> is_dec_digit(#[trigger] v@[k]),
        decreases hi - i,
    {
        if !is_digit_char(v[i]) {
            assert(v@.subrange(start as int, hi as int)[i - start] == v@[i as int]);
            assert(!is_dec_digit(strip_sign(x)[i - start]));
            return false;
        }
        i = i + 1;
    }
    assert forall|k: int| 0 <= k < hi - start implies is_dec_digit(
        #[trigger] v@.subrange(start as int, hi as int)[k],
    ) by {
        assert(v@.subrange(start as int, hi as int)[k] == v@[start + k]);
    }
    true
}

/// Whether `v[lo..]` is a `Number` (mantissa and optional exponent).
fn is_decimal_at(v: &Vec<char>, lo: usize) -> (r: bool)
    requires
        lo <= v@.len(),
    ensures
        r == is_decimal(v@.skip(lo as int)),
{
    let hi = v.len();
    let ghost b = v@.skip(lo as int);
    let mut k = lo;
    while k < hi && v[k] != 'e' && v[k] != 'E'
        invariant
            lo <= k <= hi == v@.len(),
            b == v@.skip(lo as int),
            forall|j: int| 0 <= j < k - lo ==> !is_exp_mark(#[trigger] b[j]),
        decreases hi - k,
    {
        assert(b[k - lo] == v@[k as int]);
        k = k + 1;
    }
    if k == hi {
        assert(b =~= v@.subrange(lo as int, hi as int));
        let r = is_mantissa_at(v, lo, hi);
        proof {
            if exists|j: int|
                0 <= j < b.len() && is_exp_mark(#[trigger] b[j]) && is_mantissa(b.take(j))
                    && is_exponent_digits(b.skip(j + 1)) {
                let j = choose|j: int|
                    0 <= j < b.len() && is_exp_mark(#[trigger] b[j]) && is_mantissa(b.take(j))
                        && is_exponent_digits(b.skip(j + 1));
                assert(!is_exp_mark(b[j]));
            }
        }
        return r;
    }
    let ghost kk: int = k - lo;
    assert(b[kk] == v@[k as int]);
    assert(is_exp_mark(b[kk]));
    assert(b.take(kk) =~= v@.subrange(lo as int, k as int));
    assert(b.skip(kk + 1) =~= v@.subrange(k + 1, hi as int));
    let m = is_mantissa_at(v, lo, k);
    let e = is_exponent_digits_at(v, k + 1, hi);
    proof {
        if is_decimal(b) {
            if exists|j: int|
                0 <= j < b.len() && is_exp_mark(#[trigger] b[j]) && is_mantissa(b.take(j))
                    && is_exponent_digits(b.skip(j + 1)) {
                let j = choose|j: int|
                    0 <= j < b.len() && is_exp_mark(#[trigger] b[j]) && is_mantissa(b.take(j))
                        && is_exponent_digits(b.skip(j + 1));
                if j > kk {
                    assert(b.take(j)[kk] == b[kk]);
                    assert(!(is_dec_digit(b.take(j)[kk]) || b.take(j)[kk] == '.'));
                }
                assert(j == kk);
            }
        }
    }
    m && e
}

/// Whether the characters form a number that the standard float parsers
/// accept.
pub fn is_float_literal_chars(v: &Vec<char>) -> (r: bool)
    ensures
        r == is_float_literal(v@),
{
    let mut lo: usize = 0;
    if v.len() > 0 && (v[0] == '+' || v[0] == '-') {
        lo = 1;
    }
    let ghost body = strip_sign(v@);
    assert(body =~= v@.skip(lo as int));
    assert(body =~= v@.subrange(lo as int, v@.len() as int));
    let hi = v.len();
    let inf = matches_word_at(v, lo, hi, &['i', 'n', 'f'], &['I', 'N', 'F']);
    let infinity = matches_word_at(
        v,
        lo,
        hi,
        &['i', 'n', 'f', 'i', 'n', 'i', 't', 'y'],
        &['I', 'N', 'F', 'I', 'N', 'I', 'T', 'Y'],
    );
    let nan = matches_word_at(v, lo, hi, &['n', 'a', 'n'], &['N', 'A', 'N']);
    if inf || infinity || nan {
        return true;
    }
    is_decimal_at(v, lo)
}

} // verus!
