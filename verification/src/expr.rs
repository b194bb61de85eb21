//! Expression trees and the precedence parser that builds them from tokens.
//!
//! A token list of odd length is parsed by splitting it at the operator of
//! least precedence that is not inside parentheses; among operators of equal
//! precedence the last one is taken, so every operator groups to the left.
//! A list wrapped whole in one pair of parentheses is parsed without them.
//! Subtraction and division are written with the other operators:
//! `a - b` is `a + (-1.0 * b)` and `a / b` is `a * b ^ -1.0`.
use vstd::prelude::*;
use crate::literal::{chars_of, is_float_literal, is_float_literal_chars};
use vstd::utf8::is_ascii_chars;
use crate::segment::{
    is_numeric_char, lemma_ascii_text_never_fails, lemma_step_progress, segments, segments_from, state_rank,
    Segmentor,
};
use crate::utils::{is_digit, is_even, last_index};

verus! {

/// Whether the byte may continue a number: an ASCII digit or a point.
pub(crate) fn is_numeric(input: u8) -> (r: bool)
    ensures
        r == ((48 <= input <= 57) || input == 46),
{
    is_digit(input) || input == '.' as u8
}

/// Whether the text is a number in the form the standard double-precision
/// float parser accepts.
fn is_number(s: &str) -> (r: bool)
    ensures
        r == is_float_literal(s@),
{
    is_float_literal_chars(&chars_of(s))
}

// ---------------------------------------------------------------------------
// The model: tokens as character sequences, trees as terms.
/// The characters of each token.
pub open spec fn views(segs: Seq<&str>) -> Seq<Seq<char>> {
    Seq::new(segs.len(), |i: int| segs[i]@)
}

pub open spec fn is_open(t: Seq<char>) -> bool {
    t == seq!['(']
}

pub open spec fn is_close(t: Seq<char>) -> bool {
    t == seq![')']
}

/// How tightly an operator binds: `+ -` 1, `* /` 2, `^` 3; `None` for any
/// other token.
pub open spec fn precedence_of(t: Seq<char>) -> Option<u8> {
    if t == seq!['+'] || t == seq!['-'] {
        Some(1)
    } else if t == seq!['*'] || t == seq!['/'] {
        Some(2)
    } else if t == seq!['^'] {
        Some(3)
    } else {
        None
    }
}

/// The message for a token that stands where an operator must be but is
/// none.
pub open spec fn unknown_op_message(op: Seq<char>) -> Seq<char> {
    seq!['o', 'p', 'e', 'r', 'a', 't', 'i', 'o', 'n', ' ', '"'] + op + seq![
        '"',
        ' ',
        'u',
        'n',
        'r',
        'e',
        'c',
        'o',
        'g',
        'n',
        'i',
        'z',
        'e',
        'd',
    ]
}

/// An expression tree over number literals.
pub enum Term {
    Num(Seq<char>),
    Add(Box<Term>, Box<Term>),
    Mul(Box<Term>, Box<Term>),
    Pow(Box<Term>, Box<Term>),
}

/// The literal `-1.0`, used to write subtraction and division.
pub open spec fn minus_one() -> Seq<char> {
    seq!['-', '1', '.', '0']
}

/// The result of parsing a token list: a tree; a rejection; or a token that
/// stands where an operator must be but is no operator.
pub enum Outcome {
    Parsed(Term),
    Rejected,
    UnknownOperator(Seq<char>),
}

/// Searching from index `j` with `depth` parentheses open, the index of the
/// `)` that closes them all.
pub open spec fn close_scan(s: Seq<Seq<char>>, j: int, depth: int) -> Option<int>
    decreases s.len() - j,
{
    if !(0 <= j < s.len()) {
        None
    } else if is_open(s[j]) {
        close_scan(s, j + 1, depth + 1)
    } else if is_close(s[j]) {
        if depth == 1 {
            Some(j)
        } else {
            close_scan(s, j + 1, depth - 1)
        }
    } else {
        close_scan(s, j + 1, depth)
    }
}

/// The index of the `)` that closes the `(` at index 0.
pub open spec fn matching_close(s: Seq<Seq<char>>) -> Option<int> {
    close_scan(s, 1, 1)
}

pub proof fn lemma_close_scan_range(s: Seq<Seq<char>>, j: int, depth: int)
    ensures
        close_scan(s, j, depth) matches Some(c) ==> j <= c < s.len() && is_close(s[c]),
    decreases s.len() - j,
{
    if 0 <= j < s.len() {
        lemma_close_scan_range(s, j + 1, if is_open(s[j]) {
            depth + 1
        } else if is_close(s[j]) {
            depth - 1
        } else {
            depth
        });
    }
}

/// Searching a suffix is searching the whole list from further on.
pub proof fn lemma_close_scan_shift(s: Seq<Seq<char>>, i: int, j: int, depth: int)
    requires
        0 <= i <= s.len(),
        0 <= j,
    ensures
        close_scan(s.skip(i), j, depth) == (match close_scan(s, i + j, depth) {
            Some(c) => Some(c - i),
            None => None,
        }),
    decreases s.len() - i - j,
{
    if j < s.len() - i {
        assert(s.skip(i)[j] == s[i + j]);
        lemma_close_scan_shift(s, i, j + 1, if is_open(s[i + j]) {
            depth + 1
        } else if is_close(s[i + j]) {
            depth - 1
        } else {
            depth
        });
    }
}

/// Whether a token may stand as an operand while scanning: a number the
/// float parsers accept (`strict`), or a token that merely starts with a
/// digit or a point.
pub open spec fn operand_ok(t: Seq<char>, strict: bool) -> bool {
    if strict {
        is_float_literal(t)
    } else {
        t.len() > 0 && is_numeric_char(t[0])
    }
}

/// Scanning from index `i` for the operator of least precedence outside
/// parentheses, with the best so far at `best` of precedence `best_prec`:
/// its index, or `None` where a parenthesis is unclosed or a token that is
/// neither an operator nor a parenthesis is no operand.
pub open spec fn scan_ops(s: Seq<Seq<char>>, i: int, best: int, best_prec: u8, strict: bool) -> Option<
    int,
>
    decreases s.len() - i,
{
    if !(0 <= i < s.len()) {
        Some(best)
    } else if precedence_of(s[i]) is Some {
        let p = precedence_of(s[i])->0;
        if p <= best_prec {
            scan_ops(s, i + 1, i, p, strict)
        } else {
            scan_ops(s, i + 1, best, best_prec, strict)
        }
    } else if is_open(s[i]) {
        match close_scan(s, i + 1, 1) {
            None => None,
            Some(c) => {
                proof {
                    lemma_close_scan_range(s, i + 1, 1);
                }
                scan_ops(s, c + 1, best, best_prec, strict)
            },
        }
    } else if operand_ok(s[i], strict) {
        scan_ops(s, i + 1, best, best_prec, strict)
    } else {
        None
    }
}

pub proof fn lemma_scan_ops_range(s: Seq<Seq<char>>, i: int, best: int, best_prec: u8, strict: bool)
    ensures
        scan_ops(s, i, best, best_prec, strict) matches Some(b) ==> b == best || (0 <= i <= b < s.len()),
    decreases s.len() - i,
{
    if 0 <= i < s.len() {
        if precedence_of(s[i]) is Some {
            let p = precedence_of(s[i])->0;
            if p <= best_prec {
                lemma_scan_ops_range(s, i + 1, i, p, strict);
            } else {
                lemma_scan_ops_range(s, i + 1, best, best_prec, strict);
            }
        } else if is_open(s[i]) {
            lemma_close_scan_range(s, i + 1, 1);
            if let Some(c) = close_scan(s, i + 1, 1) {
                lemma_scan_ops_range(s, c + 1, best, best_prec, strict);
            }
        } else if operand_ok(s[i], strict) {
            lemma_scan_ops_range(s, i + 1, best, best_prec, strict);
        }
    }
}

/// Where a token list of three or more tokens is split.
pub enum Split {
    At(int),
    Rejected,
    UnknownOperator(Seq<char>),
}

/// Splitting with the first candidate operator at `k`.
pub open spec fn split_from(s: Seq<Seq<char>>, k: int) -> Split {
    match precedence_of(s[k]) {
        None => Split::UnknownOperator(s[k]),
        Some(p) => match scan_ops(s, k + 1, k, p, true) {
            None => Split::Rejected,
            Some(b) => Split::At(b),
        },
    }
}

/// The operator at which a token list is split, or the length of the list
/// where the list is one parenthesised group.
pub open spec fn split_point(s: Seq<Seq<char>>) -> Split {
    if is_open(s[0]) {
        match close_scan(s, 1, 1) {
            None => Split::Rejected,
            Some(c) => if c + 1 < s.len() {
                split_from(s, c + 1)
            } else {
                Split::At(c + 1)
            },
        }
    } else {
        split_from(s, 1)
    }
}

pub proof fn lemma_split_point_range(s: Seq<Seq<char>>)
    requires
        s.len() >= 2,
    ensures
        split_point(s) matches Split::At(k) ==> 1 <= k <= s.len(),
{
    lemma_close_scan_range(s, 1, 1);
    if is_open(s[0]) {
        if let Some(c) = close_scan(s, 1, 1) {
            if c + 1 < s.len() {
                if let Some(p) = precedence_of(s[c + 1]) {
                    lemma_scan_ops_range(s, c + 2, c + 1, p, true);
                }
            }
        }
    } else {
        if let Some(p) = precedence_of(s[1]) {
            lemma_scan_ops_range(s, 2, 1, p, true);
        }
    }
}

/// The tree for `left op right`, with `-` and `/` written by the other
/// operators; any other token is rejected.
pub open spec fn combine(left: Term, op: Seq<char>, right: Term) -> Outcome {
    if op == seq!['^'] {
        Outcome::Parsed(Term::Pow(Box::new(left), Box::new(right)))
    } else if op == seq!['*'] {
        Outcome::Parsed(Term::Mul(Box::new(left), Box::new(right)))
    } else if op == seq!['/'] {
        Outcome::Parsed(
            Term::Mul(
                Box::new(left),
                Box::new(Term::Pow(Box::new(right), Box::new(Term::Num(minus_one())))),
            ),
        )
    } else if op == seq!['+'] {
        Outcome::Parsed(Term::Add(Box::new(left), Box::new(right)))
    } else if op == seq!['-'] {
        Outcome::Parsed(
            Term::Add(
                Box::new(left),
                Box::new(Term::Mul(Box::new(Term::Num(minus_one())), Box::new(right))),
            ),
        )
    } else {
        Outcome::Rejected
    }
}

/// Parsing a token list.
pub open spec fn parse_outcome(s: Seq<Seq<char>>) -> Outcome
    decreases s.len(),
{
    if s.len() % 2 == 0 {
        Outcome::Rejected
    } else if s.len() == 1 {
        if is_float_literal(s[0]) {
            Outcome::Parsed(Term::Num(s[0]))
        } else {
            Outcome::Rejected
        }
    } else {
        proof {
            lemma_split_point_range(s);
        }
        match split_point(s) {
            Split::UnknownOperator(t) => Outcome::UnknownOperator(t),
            Split::Rejected => Outcome::Rejected,
            Split::At(k) => if k < s.len() {
                match parse_outcome(s.take(k)) {
                    Outcome::Parsed(left) => match parse_outcome(s.skip(k + 1)) {
                        Outcome::Parsed(right) => combine(left, s[k], right),
                        other => other,
                    },
                    other => other,
                }
            } else {
                parse_outcome(s.subrange(1, s.len() - 1))
            },
        }
    }
}

/// Parsing `left op right` where the list splits at index `k`.
pub open spec fn split_outcome(s: Seq<Seq<char>>, k: int) -> Outcome {
    match parse_outcome(s.take(k)) {
        Outcome::Parsed(left) => match parse_outcome(s.skip(k + 1)) {
            Outcome::Parsed(right) => combine(left, s[k], right),
            other => other,
        },
        other => other,
    }
}

/// Parsing a list that starts with `(`, split right after the group it
/// opens: the group alone where it closes at the end, else the group, the
/// operator after it and the rest.
pub open spec fn left_parens_outcome(s: Seq<Seq<char>>) -> Outcome {
    match close_scan(s, 1, 1) {
        None => Outcome::Rejected,
        Some(c) => if c == s.len() - 1 {
            parse_outcome(s.subrange(1, c))
        } else {
            match parse_outcome(s.subrange(1, c)) {
                Outcome::Parsed(left) => match parse_outcome(s.skip(c + 2)) {
                    Outcome::Parsed(right) => combine(left, s[c + 1], right),
                    other => other,
                },
                other => other,
            }
        },
    }
}

/// Parsing a list by a scan from its first token, where an operand need only
/// start with a digit or a point, split at the operator found.
pub open spec fn no_left_parens_outcome(s: Seq<Seq<char>>) -> Outcome {
    match precedence_of(s[1]) {
        None => Outcome::UnknownOperator(s[1]),
        Some(p) => match scan_ops(s, 0, 1, p, false) {
            None => Outcome::Rejected,
            Some(k) => split_outcome(s, k),
        },
    }
}

/// Parsing a text: its tokens are parsed.
pub open spec fn text_outcome(s: Seq<char>) -> Outcome {
    if s.len() == 0 {
        Outcome::Rejected
    } else {
        parse_outcome(segments(s))
    }
}

proof fn lemma_len_parity(n: usize)
    ensures
        ((n as i64) % 2 == 0) == (n % 2 == 0),
{
    assert(((n as i64) % 2 == 0) == (n % 2 == 0)) by (bit_vector);
}

// ---------------------------------------------------------------------------
// The executable side.
/// An expression tree; each leaf holds the text of a number.
#[derive(Debug)]
pub enum Expr {
    Num(String),
    Add(Box<Expr>, Box<Expr>),
    Mul(Box<Expr>, Box<Expr>),
    Pow(Box<Expr>, Box<Expr>),
}

impl Expr {
    /// The tree as a term over character sequences.
    pub open spec fn term(&self) -> Term
        decreases self,
    {
        match self {
            Expr::Num(s) => Term::Num(s@),
            Expr::Add(l, r) => Term::Add(Box::new(l.term()), Box::new(r.term())),
            Expr::Mul(l, r) => Term::Mul(Box::new(l.term()), Box::new(r.term())),
            Expr::Pow(l, r) => Term::Pow(Box::new(l.term()), Box::new(r.term())),
        }
    }
}

impl View for Expr {
    type V = Term;

    open spec fn view(&self) -> Term {
        self.term()
    }
}

/// Whether an executable parse result reports the outcome: the tree, `None`
/// for a rejection, or the message for a token that is no operator.
pub open spec fn reports(r: Result<Option<Expr>, String>, o: Outcome) -> bool {
    match o {
        Outcome::Parsed(t) => r matches Ok(Some(e)) && e@ == t,
        Outcome::Rejected => r matches Ok(None),
        Outcome::UnknownOperator(op) => r matches Err(m) && m@ == unknown_op_message(op),
    }
}

/// Whether the token's first character is a digit or a point.
fn starts_numeric(t: &str) -> (r: bool)
    requires
        t@.len() > 0,
    ensures
        r == is_numeric_char(t@[0]),
{
    let c = t.get_char(0);
    ('0' <= c && c <= '9') || c == '.'
}

/// Whether the token is exactly the one character `c`.
fn token_is(t: &str, c: char) -> (r: bool)
    ensures
        r == (t@ == seq![c]),
{
    if t.unicode_len() == 1 {
        let d = t.get_char(0);
        assert(d == c ==> t@ =~= seq![c]);
        d == c
    } else {
        false
    }
}

/// The precedence of an operator, or the message naming a token that is no
/// operator.
fn precedence(op: &str) -> (r: Result<u8, String>)
    ensures
        match r {
            Ok(p) => precedence_of(op@) == Some(p),
            Err(m) => precedence_of(op@) is None && m@ == unknown_op_message(op@),
        },
{
    if token_is(op, '+') || token_is(op, '-') {
        Ok(1)
    } else if token_is(op, '*') || token_is(op, '/') {
        Ok(2)
    } else if token_is(op, '^') {
        Ok(3)
    } else {
        let mut msg = "operation \"".to_owned();
        msg.append(op);
        msg.append("\" unrecognized");
        proof {
            reveal_strlit("operation \"");
            reveal_strlit("\" unrecognized");
        }
        assert(msg@ =~= unknown_op_message(op@));
        Err(msg)
    }
}

impl Expr {
    /// Whether the token is an operator.
    fn is_op(s: &str) -> (r: bool)
        ensures
            r == precedence_of(s@) is Some,
    {
        token_is(s, '+') || token_is(s, '-') || token_is(s, '*') || token_is(s, '/') || token_is(
            s,
            '^',
        )
    }

    /// Splits the text into tokens (see `segments`).
    pub fn segment(input: &str) -> (r: Vec<&str>)
        requires
            vstd::string::is_ascii(input),
            input@.len() == 0 || input@.last() != ' ',
        ensures
            views(r@) == segments(input@),
    {
        let ghost s = input@;
        let mut ans: Vec<&str> = Vec::new();
        let mut segmentor = Segmentor::init(input);
        loop
            invariant
                segmentor.text() == s,
                segmentor.wf(),
                is_ascii_chars(s),
                s.len() == 0 || s.last() != ' ',
                0 <= segmentor.pos() <= s.len(),
                views(ans@) + segments_from(s, segmentor.pos(), segmentor.expects()) == segments(s),
            ensures
                views(ans@) == segments(s),
            decreases s.len() - segmentor.pos(), state_rank(segmentor.expects()),
        {
            proof {
                lemma_ascii_text_never_fails(s, segmentor.pos(), segmentor.expects());
                lemma_step_progress(s, segmentor.pos(), segmentor.expects());
            }
            let ghost before = views(ans@);
            let ghost rest = segments_from(s, segmentor.pos(), segmentor.expects());
            match segmentor.next() {
                Some(thing) => {
                    ans.push(thing);
                    assert(views(ans@) =~= before + seq![thing@]);
                    assert(rest =~= seq![thing@] + segments_from(s, segmentor.pos(), segmentor.expects()));
                    assert(views(ans@) + segments_from(s, segmentor.pos(), segmentor.expects()) =~= before + rest);
                },
                None => {
                    assert(views(ans@) =~= before + rest);
                    break ;
                },
            }
        }
        ans
    }

    /// A single token: a number leaf, or `None` where it is no number.
    fn parse_single(segs: &[&str]) -> (r: Option<Self>)
        requires
            segs@.len() == 1,
        ensures
            match parse_outcome(views(segs@)) {
                Outcome::Parsed(t) => r matches Some(e) && e@ == t,
                _ => r is None,
            },
    {
        if is_number(segs[0]) {
            Some(Expr::Num(segs[0].to_owned()))
        } else {
            None
        }
    }

    /// The tree for `left op right` (see `combine`).
    fn simple_op(left: Self, op: &str, right: Self) -> (r: Option<Self>)
        ensures
            match combine(left@, op@, right@) {
                Outcome::Parsed(t) => r matches Some(e) && e@ == t,
                _ => r is None,
            },
    {
        let ghost (l, o, rr) = (left@, op@, right@);
        proof {
            reveal_strlit("-1.0");
        }
        if token_is(op, '^') {
            Some(Expr::Pow(Box::new(left), Box::new(right)))
        } else if token_is(op, '*') {
            Some(Expr::Mul(Box::new(left), Box::new(right)))
        } else if token_is(op, '/') {
            let lit = "-1.0";
            assert(lit@ =~= minus_one());
            let minus_one_leaf = Expr::Num(lit.to_owned());
            assert(minus_one_leaf@ == Term::Num(minus_one()));
            let inner = Expr::Pow(Box::new(right), Box::new(minus_one_leaf));
            assert(inner@ == Term::Pow(Box::new(rr), Box::new(Term::Num(minus_one()))));
            let e = Expr::Mul(Box::new(left), Box::new(inner));
            Some(e)
        } else if token_is(op, '+') {
            Some(Expr::Add(Box::new(left), Box::new(right)))
        } else if token_is(op, '-') {
            let lit = "-1.0";
            assert(lit@ =~= minus_one());
            let minus_one_leaf = Expr::Num(lit.to_owned());
            assert(minus_one_leaf@ == Term::Num(minus_one()));
            let inner = Expr::Mul(Box::new(minus_one_leaf), Box::new(right));
            assert(inner@ == Term::Mul(Box::new(Term::Num(minus_one())), Box::new(rr)));
            let e = Expr::Add(Box::new(left), Box::new(inner));
            Some(e)
        } else {
            None
        }
    }

    /// Parses tokens of odd length three or more by splitting them.
    fn parse_multiple(segs: &[&str]) -> (r: Result<Option<Self>, String>)
        requires
            segs@.len() >= 3,
            segs@.len() % 2 == 1,
        ensures
            reports(r, parse_outcome(views(segs@))),
        decreases segs@.len(), 0int,
    {
        let ghost s = views(segs@);
        let least_prec_index = match Expr::get_least_prec_index(segs) {
            Ok(Some(num)) => num,
            Ok(None) => return Ok(None),
            Err(msg) => return Err(msg),
        };
        proof {
            lemma_split_point_range(s);
        }
        if least_prec_index < segs.len() {
            let op = segs[least_prec_index];
            let front = vstd::slice::slice_subrange(segs, 0, least_prec_index);
            assert(views(front@) =~= s.take(least_prec_index as int));
            let left = match Expr::try_from_segments(front) {
                Ok(Some(e)) => e,
                other => return other,
            };
            let back = vstd::slice::slice_subrange(segs, least_prec_index + 1, segs.len());
            assert(views(back@) =~= s.skip(least_prec_index + 1));
            let right = match Expr::try_from_segments(back) {
                Ok(Some(e)) => e,
                other => return other,
            };
            Ok(Self::simple_op(left, op, right))
        } else {
            let inner = vstd::slice::slice_subrange(segs, 1, segs.len() - 1);
            assert(views(inner@) =~= s.subrange(1, s.len() - 1));
            Expr::try_from_segments(inner)
        }
    }

    /// Parses a list that starts with `(` (see `left_parens_outcome`).
    fn _handle_left_parens(segs: &[&str]) -> (r: Result<Option<Self>, String>)
        requires
            segs@.len() >= 1,
            is_open(segs@[0]@),
        ensures
            reports(r, left_parens_outcome(views(segs@))),
    {
        let ghost s = views(segs@);
        let close_index = match Expr::find_close(segs) {
            Ok(num) => num,
            Err(_) => return Ok(None),
        };
        proof {
            lemma_close_scan_range(s, 1, 1);
        }
        let inner = vstd::slice::slice_subrange(segs, 1, close_index);
        assert(views(inner@) =~= s.subrange(1, close_index as int));
        if close_index == last_index(segs) {
            Self::try_from_segments(inner)
        } else {
            let left = match Self::try_from_segments(inner) {
                Ok(Some(e)) => e,
                other => return other,
            };
            let op = segs[close_index + 1];
            let back = vstd::slice::slice_subrange(segs, close_index + 2, segs.len());
            assert(views(back@) =~= s.skip(close_index + 2));
            let right = match Self::try_from_segments(back) {
                Ok(Some(e)) => e,
                other => return other,
            };
            Ok(Self::simple_op(left, op, right))
        }
    }

    /// Parses a list by a scan from its first token (see
    /// `no_left_parens_outcome`).
    fn _handle_no_left_parens(segs: &[&str]) -> (r: Result<Option<Self>, String>)
        requires
            segs@.len() >= 2,
        ensures
            reports(r, no_left_parens_outcome(views(segs@))),
    {
        let ghost s = views(segs@);
        let mut least_prec_index: usize = 1;
        let mut least_prec = match precedence(segs[least_prec_index]) {
            Ok(num) => num,
            Err(msg) => return Err(msg),
        };
        let ghost target = scan_ops(s, 0, 1, least_prec, false);
        let mut i: usize = 0;
        while i < segs.len()
            invariant
                s == views(segs@),
                i <= segs@.len(),
                least_prec_index < segs@.len(),
                scan_ops(s, i as int, least_prec_index as int, least_prec, false) == target,
                target == scan_ops(s, 0, 1, precedence_of(s[1])->0, false),
                precedence_of(s[1]) is Some,
            decreases segs@.len() - i,
        {
            let curr = segs[i];
            if Expr::is_op(curr) {
                let prec_i = match precedence(curr) {
                    Ok(num) => num,
                    Err(msg) => return Err(msg),
                };
                if prec_i <= least_prec {
                    least_prec_index = i;
                    least_prec = prec_i;
                }
            } else if token_is(curr, '(') {
                let rest = vstd::slice::slice_subrange(segs, i, segs.len());
                assert(views(rest@) =~= s.skip(i as int));
                proof {
                    lemma_close_scan_shift(s, i as int, 1, 1);
                    lemma_close_scan_range(s, i + 1, 1);
                }
                i += match Expr::find_close(rest) {
                    Ok(num) => num,
                    Err(_) => return Ok(None),
                };
            } else {
                if curr.is_empty() || !starts_numeric(curr) {
                    return Ok(None);
                }
            }
            i += 1;
        }
        let op = segs[least_prec_index];
        let front = vstd::slice::slice_subrange(segs, 0, least_prec_index);
        assert(views(front@) =~= s.take(least_prec_index as int));
        let left = match Expr::try_from_segments(front) {
            Ok(Some(e)) => e,
            other => return other,
        };
        let back = vstd::slice::slice_subrange(segs, least_prec_index + 1, segs.len());
        assert(views(back@) =~= s.skip(least_prec_index + 1));
        let right = match Expr::try_from_segments(back) {
            Ok(Some(e)) => e,
            other => return other,
        };
        Ok(Self::simple_op(left, op, right))
    }

    /// Parses tokens of odd length.
    fn from_segs(segs: &[&str]) -> (r: Result<Option<Self>, String>)
        requires
            segs@.len() % 2 == 1,
        ensures
            reports(r, parse_outcome(views(segs@))),
        decreases segs@.len(), 1int,
    {
        if segs.len() == 1 {
            Ok(Self::parse_single(segs))
        } else {
            Self::parse_multiple(segs)
        }
    }

    /// Parses tokens: the tree, `Ok(None)` where they are rejected, or `Err`
    /// with the message naming a token that stands for an operator but is
    /// none.
    pub fn try_from_segments(segs: &[&str]) -> (r: Result<Option<Self>, String>)
        ensures
            reports(r, parse_outcome(views(segs@))),
        decreases segs@.len(), 2int,
    {
        proof {
            lemma_len_parity(segs@.len() as usize);
        }
        if is_even(segs.len() as i64) {
            Ok(None)
        } else {
            Self::from_segs(segs)
        }
    }

    /// Parses tokens (see `parse_outcome`); tokens that are rejected, or
    /// that hold a token standing for an operator but being none, give
    /// `None`.
    pub fn from_segments(segs: &[&str]) -> (r: Option<Self>)
        ensures
            match parse_outcome(views(segs@)) {
                Outcome::Parsed(t) => r matches Some(e) && e@ == t,
                _ => r is None,
            },
    {
        match Self::try_from_segments(segs) {
            Ok(r) => r,
            Err(_) => None,
        }
    }

    /// Parses a text (see `text_outcome`); a text that is rejected, or that
    /// holds a token standing for an operator but being none, gives `None`.
    pub fn from_str(input: &str) -> (r: Option<Self>)
        requires
            vstd::string::is_ascii(input),
            input@.len() == 0 || input@.last() != ' ',
        ensures
            match text_outcome(input@) {
                Outcome::Parsed(t) => r matches Some(e) && e@ == t,
                _ => r is None,
            },
    {
        if input.is_empty() {
            None
        } else {
            let v: Vec<&str> = Expr::segment(input);
            Self::from_segments(v.as_slice())
        }
    }

    /// The index of the operator at which the tokens are split (see
    /// `split_point`); `Ok(None)` where they are rejected, `Err` with the
    /// message where a token stands for an operator but is none.
    fn get_least_prec_index(segs: &[&str]) -> (r: Result<Option<usize>, String>)
        requires
            segs@.len() >= 2,
        ensures
            match split_point(views(segs@)) {
                Split::At(k) => r matches Ok(Some(i)) && i == k,
                Split::Rejected => r matches Ok(None),
                Split::UnknownOperator(t) => r matches Err(m) && m@ == unknown_op_message(t),
            },
    {
        let ghost s = views(segs@);
        let n = segs.len();
        proof {
            lemma_close_scan_range(s, 1, 1);
        }
        let mut least_prec_index: usize = if token_is(segs[0], '(') {
            let close_index = match Expr::find_close(segs) {
                Ok(num) => num + 1,
                Err(_) => return Ok(None),
            };
            proof {
                lemma_close_scan_range(s, 1, 1);
            }
            if close_index < segs.len() {
                close_index
            } else {
                return Ok(Some(close_index));
            }
        } else {
            1
        };
        assert(split_point(s) == split_from(s, least_prec_index as int));
        let mut least_prec = match precedence(segs[least_prec_index]) {
            Ok(num) => num,
            Err(msg) => return Err(msg),
        };
        let ghost target = scan_ops(s, least_prec_index + 1, least_prec_index as int, least_prec, true);
        let mut i = least_prec_index + 1;
        while i < segs.len()
            invariant
                s == views(segs@),
                least_prec_index < i <= segs@.len(),
                split_point(s) matches Split::At(k) ==> target == Some(k),
                split_point(s) is Rejected ==> target is None,
                !(split_point(s) is UnknownOperator),
                scan_ops(s, i as int, least_prec_index as int, least_prec, true) == target,
            decreases segs@.len() - i,
        {
            let curr = segs[i];
            if Expr::is_op(curr) {
                let prec_i = match precedence(curr) {
                    Ok(num) => num,
                    Err(msg) => return Err(msg),
                };
                if prec_i <= least_prec {
                    least_prec_index = i;
                    least_prec = prec_i;
                }
            } else if token_is(curr, '(') {
                let rest = vstd::slice::slice_subrange(segs, i, segs.len());
                assert(views(rest@) =~= s.skip(i as int));
                proof {
                    lemma_close_scan_shift(s, i as int, 1, 1);
                    lemma_close_scan_range(s, i + 1, 1);
                }
                i += match Expr::find_close(rest) {
                    Ok(num) => num,
                    Err(_) => return Ok(None),
                };
            } else {
                if curr.is_empty() || !is_number(curr) {
                    return Ok(None);
                }
            }
            i += 1;
        }
        Ok(Some(least_prec_index))
    }

    /// The index of the `)` that closes the `(` at the start of the tokens.
    fn find_close(segs: &[&str]) -> (r: Result<usize, &'static str>)
        requires
            segs@.len() >= 1,
            is_open(segs@[0]@),
        ensures
            match matching_close(views(segs@)) {
                Some(c) => r matches Ok(i) && i == c,
                None => r is Err,
            },
    {
        let ghost s = views(segs@);
        let mut parens_open: usize = 1;
        for i in 1..segs.len()
            invariant
                s == views(segs@),
                1 <= parens_open <= i,
                close_scan(s, i as int, parens_open as int) == close_scan(s, 1, 1),
        {
            if token_is(segs[i], '(') {
                parens_open += 1;
            } else if token_is(segs[i], ')') {
                parens_open -= 1;
                if parens_open == 0 {
                    return Ok(i);
                }
            }
        }
        Err("could not find a matching closeing parenthesis")
    }
}

} // verus!
