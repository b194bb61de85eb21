//! Properties of the parser that hold across all inputs.
use vstd::prelude::*;
use crate::expr::{close_scan, lemma_close_scan_range, lemma_scan_ops_range, operand_ok, combine, is_close, is_open, matching_close, precedence_of, scan_ops, lemma_split_point_range, minus_one, parse_outcome, split_point, Outcome, Split, Term};
use crate::literal::{
    is_dec_digit, is_decimal, is_exp_mark, is_float_literal, is_mantissa, is_sign, strip_sign,
};

verus! {

/// Every leaf of the tree holds a number in the form the float parsers
/// accept.
pub open spec fn leaves_are_literals(t: Term) -> bool
    decreases t,
{
    match t {
        Term::Num(s) => is_float_literal(s),
        Term::Add(l, r) => leaves_are_literals(*l) && leaves_are_literals(*r),
        Term::Mul(l, r) => leaves_are_literals(*l) && leaves_are_literals(*r),
        Term::Pow(l, r) => leaves_are_literals(*l) && leaves_are_literals(*r),
    }
}

proof fn lemma_minus_one_is_literal()
    ensures
        is_float_literal(minus_one()),
{
    let b = strip_sign(minus_one());
    assert(b =~= seq!['1', '.', '0']);
    assert(is_dec_digit(b[0]));
    assert(forall|i: int| 0 <= i < b.len() ==> !is_exp_mark(#[trigger] b[i]));
    assert(is_mantissa(b));
}

proof fn lemma_combine_keeps_literals(l: Term, op: Seq<char>, r: Term)
    requires
        leaves_are_literals(l),
        leaves_are_literals(r),
    ensures
        combine(l, op, r) matches Outcome::Parsed(t) ==> leaves_are_literals(t),
{
    lemma_minus_one_is_literal();
    let m = Term::Num(minus_one());
    assert(leaves_are_literals(m));
    assert(leaves_are_literals(Term::Pow(Box::new(r), Box::new(m))));
    assert(leaves_are_literals(Term::Mul(Box::new(m), Box::new(r))));
}

/// A parsed tree holds only numbers that the float parsers accept, so every
/// leaf of a parsed expression can be turned into a number.
pub proof fn parsed_leaves_are_literals(s: Seq<Seq<char>>)
    ensures
        parse_outcome(s) matches Outcome::Parsed(t) ==> leaves_are_literals(t),
    decreases s.len(),
{
    if s.len() % 2 == 1 && s.len() > 1 {
        lemma_split_point_range(s);
        if let Split::At(k) = split_point(s) {
            if k < s.len() {
                parsed_leaves_are_literals(s.take(k));
                parsed_leaves_are_literals(s.skip(k + 1));
                if let Outcome::Parsed(l) = parse_outcome(s.take(k)) {
                    if let Outcome::Parsed(r) = parse_outcome(s.skip(k + 1)) {
                        lemma_combine_keeps_literals(l, s[k], r);
                    }
                }
            } else {
                parsed_leaves_are_literals(s.subrange(1, s.len() - 1));
            }
        }
    }
}

/// How many `(` tokens the first `k` tokens hold.
pub open spec fn count_open(s: Seq<Seq<char>>, k: int) -> int
    decreases k,
{
    if k <= 0 {
        0
    } else {
        count_open(s, k - 1) + if is_open(s[k - 1]) {
            1int
        } else {
            0int
        }
    }
}

/// How many `)` tokens the first `k` tokens hold.
pub open spec fn count_close(s: Seq<Seq<char>>, k: int) -> int
    decreases k,
{
    if k <= 0 {
        0
    } else {
        count_close(s, k - 1) + if is_close(s[k - 1]) {
            1int
        } else {
            0int
        }
    }
}

/// No prefix of the tokens closes more parentheses than it opens, and the
/// whole list closes all it opens.
pub open spec fn balanced(s: Seq<Seq<char>>) -> bool {
    &&& forall|k: int| 0 <= k <= s.len() ==> #[trigger] count_close(s, k) <= count_open(s, k)
    &&& count_open(s, s.len() as int) == count_close(s, s.len() as int)
}

/// The tokens wrapped in one more pair of parentheses.
pub open spec fn wrapped(s: Seq<Seq<char>>) -> Seq<Seq<char>> {
    seq![seq!['(']] + s + seq![seq![')']]
}

proof fn lemma_wrapped_close(s: Seq<Seq<char>>, j: int)
    requires
        balanced(s),
        1 <= j <= s.len() + 1,
    ensures
        close_scan(wrapped(s), j, 1 + count_open(s, j - 1) - count_close(s, j - 1)) == Some(
            s.len() + 1int,
        ),
    decreases s.len() + 1 - j,
{
    let w = wrapped(s);
    assert(seq!['('][0] != seq![')'][0]);
    assert(seq!['('] != seq![')']);
    if j == s.len() + 1 {
        assert(w[j] == seq![')']);
    } else {
        assert(w[j] == s[j - 1]);
        assert(count_close(s, j) <= count_open(s, j));
        lemma_wrapped_close(s, j + 1);
    }
}

/// Wrapping a token list whose parentheses are balanced in one more pair of
/// parentheses does not change how it parses.
pub proof fn redundant_parens_do_not_matter(s: Seq<Seq<char>>)
    requires
        balanced(s),
    ensures
        parse_outcome(wrapped(s)) == parse_outcome(s),
{
    let w = wrapped(s);
    if s.len() % 2 == 1 {
        lemma_wrapped_close(s, 1);
        assert(w[0] == seq!['(']);
        assert(split_point(w) == Split::At(w.len() as int));
        assert(w.subrange(1, w.len() - 1) =~= s);
    }
}

/// A number is neither an operator nor a parenthesis.
proof fn lemma_literal_is_no_operator(t: Seq<char>)
    requires
        is_float_literal(t),
    ensures
        precedence_of(t) is None,
        !is_open(t),
        !is_close(t),
{
    let b = strip_sign(t);
    if t.len() == 1 && (t[0] == '+' || t[0] == '-' || t[0] == '*' || t[0] == '/' || t[0] == '^'
        || t[0] == '(' || t[0] == ')') {
        if is_sign(t[0]) {
            assert(b.len() == 0);
        } else {
            assert(b == t);
            assert(!is_dec_digit(b[0]) && b[0] != '.' && !is_exp_mark(b[0]));
            if is_decimal(b) {
                if !(forall|i: int| 0 <= i < b.len() ==> !is_exp_mark(#[trigger] b[i])) {
                    assert(is_exp_mark(b[0]));
                }
            }
        }
    }
}

/// The tree that joining two trees with a valid operator gives.
pub open spec fn joined(left: Term, op: Seq<char>, right: Term) -> Term {
    match combine(left, op, right) {
        Outcome::Parsed(t) => t,
        _ => left,
    }
}

/// Two operators between three numbers: the tighter operator is applied
/// first, and of two equally tight ones the left one, as in ordinary
/// arithmetic.
pub proof fn operators_follow_precedence(
    a: Seq<char>,
    op1: Seq<char>,
    b: Seq<char>,
    op2: Seq<char>,
    c: Seq<char>,
)
    requires
        is_float_literal(a),
        is_float_literal(b),
        is_float_literal(c),
        precedence_of(op1) is Some,
        precedence_of(op2) is Some,
    ensures
        parse_outcome(seq![a, op1, b, op2, c]) == if precedence_of(op2)->0 <= precedence_of(
            op1,
        )->0 {
            Outcome::Parsed(
                joined(joined(Term::Num(a), op1, Term::Num(b)), op2, Term::Num(c)),
            )
        } else {
            Outcome::Parsed(
                joined(Term::Num(a), op1, joined(Term::Num(b), op2, Term::Num(c))),
            )
        },
{
    lemma_literal_is_no_operator(a);
    lemma_literal_is_no_operator(b);
    lemma_literal_is_no_operator(c);
    let s = seq![a, op1, b, op2, c];
    let p1 = precedence_of(op1)->0;
    let p2 = precedence_of(op2)->0;
    assert(precedence_of(seq!['(']) is None) by {
        let o = seq!['('];
        assert(o[0] == '(');
        assert(o != seq!['+'] && o != seq!['-'] && o != seq!['*'] && o != seq!['/'] && o != seq!['^']);
    }
    assert(s[0] == a && s[1] == op1 && s[2] == b && s[3] == op2 && s[4] == c);
    let na = Term::Num(a);
    let nb = Term::Num(b);
    let nc = Term::Num(c);
    assert(parse_outcome(seq![a]) == Outcome::Parsed(na));
    assert(parse_outcome(seq![b]) == Outcome::Parsed(nb));
    assert(parse_outcome(seq![c]) == Outcome::Parsed(nc));
    assert(combine(na, op1, nb) == Outcome::Parsed(joined(na, op1, nb)));
    assert(combine(nb, op2, nc) == Outcome::Parsed(joined(nb, op2, nc)));
    if p2 <= p1 {
        assert(scan_ops(s, 5, 3, p2, true) == Some(3int));
        assert(scan_ops(s, 4, 3, p2, true) == Some(3int));
        assert(scan_ops(s, 3, 1, p1, true) == Some(3int));
        assert(scan_ops(s, 2, 1, p1, true) == Some(3int));
        assert(split_point(s) == Split::At(3));
        let front = s.take(3);
        assert(front =~= seq![a, op1, b]);
        assert(scan_ops(front, 3, 1, p1, true) == Some(1int));
        assert(scan_ops(front, 2, 1, p1, true) == Some(1int));
        assert(split_point(front) == Split::At(1));
        assert(front.take(1) =~= seq![a]);
        assert(front.skip(2) =~= seq![b]);
        assert(parse_outcome(front) == Outcome::Parsed(joined(na, op1, nb)));
        assert(s.skip(4) =~= seq![c]);
        let l = joined(na, op1, nb);
        assert(combine(l, op2, nc) == Outcome::Parsed(joined(l, op2, nc)));
    } else {
        assert(scan_ops(s, 5, 1, p1, true) == Some(1int));
        assert(scan_ops(s, 4, 1, p1, true) == Some(1int));
        assert(scan_ops(s, 3, 1, p1, true) == Some(1int));
        assert(scan_ops(s, 2, 1, p1, true) == Some(1int));
        assert(split_point(s) == Split::At(1));
        let back = s.skip(2);
        assert(back =~= seq![b, op2, c]);
        assert(s.take(1) =~= seq![a]);
        assert(scan_ops(back, 3, 1, p2, true) == Some(1int));
        assert(scan_ops(back, 2, 1, p2, true) == Some(1int));
        assert(split_point(back) == Split::At(1));
        assert(back.take(1) =~= seq![b]);
        assert(back.skip(2) =~= seq![c]);
        assert(parse_outcome(back) == Outcome::Parsed(joined(nb, op2, nc)));
        let r = joined(nb, op2, nc);
        assert(combine(na, op1, r) == Outcome::Parsed(joined(na, op1, r)));
    }
}

/// Joining two trees succeeds exactly for the five operators `+ - * / ^`:
/// any other token is rejected.
pub proof fn combine_rejects_exactly_non_operators(left: Term, op: Seq<char>, right: Term)
    ensures
        (combine(left, op, right) is Rejected) <==> precedence_of(op) is None,
{
}

/// A token list wrapped whole in one pair of parentheses, the `(` at its
/// start matched by the `)` at its end, parses as what is inside them.
pub proof fn outer_parens_are_stripped(s: Seq<Seq<char>>)
    requires
        s.len() >= 2,
        is_open(s[0]),
        matching_close(s) == Some((s.len() - 1) as int),
    ensures
        parse_outcome(s) == parse_outcome(s.subrange(1, s.len() - 1)),
{
    if s.len() % 2 == 1 {
        assert(split_point(s) == Split::At(s.len() as int));
    }
}

/// The precedence table: `+` and `-` bind loosest, `*` and `/` tighter, `^`
/// tightest, and no other token is an operator.
pub proof fn precedence_table()
    ensures
        precedence_of(seq!['+']) == Some(1u8),
        precedence_of(seq!['-']) == Some(1u8),
        precedence_of(seq!['*']) == Some(2u8),
        precedence_of(seq!['/']) == Some(2u8),
        precedence_of(seq!['^']) == Some(3u8),
        forall|t: Seq<char>|
            #[trigger] precedence_of(t) is Some ==> t == seq!['+'] || t == seq!['-'] || t
                == seq!['*'] || t == seq!['/'] || t == seq!['^'],
{
    let (a, b, c, d, e) = (seq!['+'], seq!['-'], seq!['*'], seq!['/'], seq!['^']);
    assert(a[0] == '+' && b[0] == '-' && c[0] == '*' && d[0] == '/' && e[0] == '^');
    assert(a != b && a != c && a != d && a != e && b != c && b != d && b != e && c != d && c
        != e && d != e);
}

/// The trees that joining two trees builds, whatever their shapes: `+`, `*`
/// and `^` make a node of the two; `a - b` is `a + (-1.0 * b)` and `a / b` is
/// `a * (b ^ -1.0)`, applied to the whole right-hand tree.
pub proof fn joining_builds_fixed_shapes(left: Term, right: Term)
    ensures
        combine(left, seq!['+'], right) == Outcome::Parsed(
            Term::Add(Box::new(left), Box::new(right)),
        ),
        combine(left, seq!['*'], right) == Outcome::Parsed(
            Term::Mul(Box::new(left), Box::new(right)),
        ),
        combine(left, seq!['^'], right) == Outcome::Parsed(
            Term::Pow(Box::new(left), Box::new(right)),
        ),
        combine(left, seq!['-'], right) == Outcome::Parsed(
            Term::Add(
                Box::new(left),
                Box::new(
                    Term::Mul(Box::new(Term::Num(seq!['-', '1', '.', '0'])), Box::new(right)),
                ),
            ),
        ),
        combine(left, seq!['/'], right) == Outcome::Parsed(
            Term::Mul(
                Box::new(left),
                Box::new(
                    Term::Pow(Box::new(right), Box::new(Term::Num(seq!['-', '1', '.', '0']))),
                ),
            ),
        ),
{
    precedence_table();
    let m1 = Term::Num(seq!['-', '1', '.', '0']);
    assert(minus_one() =~= seq!['-', '1', '.', '0']);
    assert(Term::Num(minus_one()) == m1);
    let (a, b, c, d, e) = (seq!['+'], seq!['-'], seq!['*'], seq!['/'], seq!['^']);
    assert(a[0] == '+' && b[0] == '-' && c[0] == '*' && d[0] == '/' && e[0] == '^');
    assert(b != e && b != c && b != d && b != a && d != e && d != c);
}

/// `a - b / c` subtracts the quotient: the division binds tighter.
pub proof fn division_binds_tighter_than_subtraction(a: Seq<char>, b: Seq<char>, c: Seq<char>)
    requires
        is_float_literal(a),
        is_float_literal(b),
        is_float_literal(c),
    ensures
        parse_outcome(seq![a, seq!['-'], b, seq!['/'], c]) == Outcome::Parsed(
            Term::Add(
                Box::new(Term::Num(a)),
                Box::new(
                    Term::Mul(
                        Box::new(Term::Num(seq!['-', '1', '.', '0'])),
                        Box::new(
                            Term::Mul(
                                Box::new(Term::Num(b)),
                                Box::new(
                                    Term::Pow(
                                        Box::new(Term::Num(c)),
                                        Box::new(Term::Num(seq!['-', '1', '.', '0'])),
                                    ),
                                ),
                            ),
                        ),
                    ),
                ),
            ),
        ),
{
    precedence_table();
    operators_follow_precedence(a, seq!['-'], b, seq!['/'], c);
    joining_builds_fixed_shapes(Term::Num(b), Term::Num(c));
    let bc = joined(Term::Num(b), seq!['/'], Term::Num(c));
    joining_builds_fixed_shapes(Term::Num(a), bc);
}

/// How many parentheses are open before index `m`.
pub open spec fn depth(s: Seq<Seq<char>>, m: int) -> int {
    count_open(s, m) - count_close(s, m)
}

proof fn lemma_depth_step(s: Seq<Seq<char>>, m: int)
    requires
        0 <= m < s.len(),
    ensures
        depth(s, m + 1) == depth(s, m) + if is_open(s[m]) {
            1int
        } else if is_close(s[m]) {
            -1int
        } else {
            0int
        },
{
    assert(seq!['('][0] != seq![')'][0]);
}

/// Closing a group found by the search lowers the depth back to where it
/// was, and every token up to the `)` lies deeper.
proof fn lemma_close_scan_depth(s: Seq<Seq<char>>, j: int, d: int, base: int)
    requires
        0 <= j <= s.len(),
        d >= 1,
        depth(s, j) == base + d,
    ensures
        close_scan(s, j, d) matches Some(c) ==> {
            &&& c < s.len()
            &&& forall|m: int| j <= m <= c ==> #[trigger] depth(s, m) >= base + 1
            &&& depth(s, c + 1) == base
        },
    decreases s.len() - j,
{
    if j < s.len() {
        lemma_depth_step(s, j);
        if is_open(s[j]) {
            lemma_close_scan_depth(s, j + 1, d + 1, base);
        } else if is_close(s[j]) {
            if d != 1 {
                lemma_close_scan_depth(s, j + 1, d - 1, base);
            }
        } else {
            lemma_close_scan_depth(s, j + 1, d, base);
        }
    }
}

/// An operator outside all parentheses, after the first token.
pub open spec fn is_top_operator(s: Seq<Seq<char>>, m: int) -> bool {
    1 <= m < s.len() && depth(s, m) == 0 && precedence_of(s[m]) is Some
}

/// `k` is the last of the loosest operators outside all parentheses: every
/// such operator before it binds at least as tightly, every one after it
/// strictly more tightly.
pub open spec fn is_loosest_last(s: Seq<Seq<char>>, k: int) -> bool {
    &&& is_top_operator(s, k)
    &&& forall|m: int| #[trigger]
        is_top_operator(s, m) ==> (m < k ==> precedence_of(s[m])->0 >= precedence_of(s[k])->0)
            && (k < m ==> precedence_of(s[m])->0 > precedence_of(s[k])->0)
}

proof fn lemma_operator_is_no_paren(t: Seq<char>)
    requires
        precedence_of(t) is Some,
    ensures
        !is_open(t),
        !is_close(t),
{
    precedence_table();
    assert(seq!['('][0] == '(' && seq![')'][0] == ')');
}

spec fn scan_state(s: Seq<Seq<char>>, i: int, best: int, best_prec: u8) -> bool {
    &&& 1 <= best < i <= s.len()
    &&& is_top_operator(s, best)
    &&& precedence_of(s[best]) == Some(best_prec)
    &&& depth(s, i) == 0
    &&& forall|m: int| #[trigger]
        is_top_operator(s, m) && m < i ==> (m < best ==> precedence_of(s[m])->0 >= best_prec) && (
        best < m ==> precedence_of(s[m])->0 > best_prec)
}

proof fn lemma_scan_finds_loosest_last(
    s: Seq<Seq<char>>,
    i: int,
    best: int,
    best_prec: u8,
    strict: bool,
)
    requires
        scan_state(s, i, best, best_prec),
    ensures
        scan_ops(s, i, best, best_prec, strict) matches Some(b) ==> is_loosest_last(s, b),
    decreases s.len() - i,
{
    if i < s.len() {
        lemma_depth_step(s, i);
        if precedence_of(s[i]) is Some {
            lemma_operator_is_no_paren(s[i]);
            let p = precedence_of(s[i])->0;
            assert(is_top_operator(s, i));
            if p <= best_prec {
                lemma_scan_finds_loosest_last(s, i + 1, i, p, strict);
            } else {
                lemma_scan_finds_loosest_last(s, i + 1, best, best_prec, strict);
            }
        } else if is_open(s[i]) {
            lemma_close_scan_depth(s, i + 1, 1, 0);
            lemma_close_scan_range(s, i + 1, 1);
            if let Some(c) = close_scan(s, i + 1, 1) {
                assert forall|m: int| #[trigger]
                    is_top_operator(s, m) && m < c + 1 implies (m < best
                    ==> precedence_of(s[m])->0 >= best_prec) && (best < m
                    ==> precedence_of(s[m])->0 > best_prec) by {
                    if m >= i + 1 {
                        assert(depth(s, m) >= 1);
                    }
                }
                lemma_scan_finds_loosest_last(s, c + 1, best, best_prec, strict);
            }
        } else if operand_ok(s[i], strict) {
            if strict {
                lemma_literal_is_no_operator(s[i]);
            } else {
                assert(seq!['('][0] == '(' && seq![')'][0] == ')');
            }
            lemma_scan_finds_loosest_last(s, i + 1, best, best_prec, strict);
        }
    }
}

/// The operator at which a token list is split is the last of the loosest
/// operators outside all parentheses; every such operator is weighed, also
/// one right after a parenthesised group.
pub proof fn split_is_loosest_last(s: Seq<Seq<char>>)
    requires
        s.len() >= 2,
        !is_close(s[0]),
    ensures
        split_point(s) matches Split::At(k) ==> (k < s.len() ==> is_loosest_last(s, k)),
{
    lemma_depth_step(s, 0);
    assert(depth(s, 0) == 0);
    if is_open(s[0]) {
        lemma_close_scan_depth(s, 1, 1, 0);
        lemma_close_scan_range(s, 1, 1);
        if let Some(c) = close_scan(s, 1, 1) {
            if c + 1 < s.len() {
                if let Some(p) = precedence_of(s[c + 1]) {
                    lemma_operator_is_no_paren(s[c + 1]);
                    lemma_depth_step(s, c + 1);
                    assert(is_top_operator(s, c + 1));
                    assert forall|m: int| #[trigger]
                        is_top_operator(s, m) && m < c + 2 implies (m < c + 1
                        ==> precedence_of(s[m])->0 >= p) && (c + 1 < m ==> precedence_of(
                        s[m],
                    )->0 > p) by {
                        if m <= c {
                            assert(depth(s, m) >= 1);
                        }
                    }
                    lemma_scan_finds_loosest_last(s, c + 2, c + 1, p, true);
                }
            }
        }
    } else {
        if let Some(p) = precedence_of(s[1]) {
            lemma_operator_is_no_paren(s[1]);
            lemma_depth_step(s, 1);
            assert(is_top_operator(s, 1));
            lemma_scan_finds_loosest_last(s, 2, 1, p, true);
        }
    }
}

/// A parsed list that is not one parenthesised group is the join of what
/// stands before and after the last of its loosest operators outside all
/// parentheses.
pub proof fn parse_splits_at_loosest_last(s: Seq<Seq<char>>)
    requires
        s.len() >= 3,
        !is_close(s[0]),
        !(is_open(s[0]) && matching_close(s) == Some((s.len() - 1) as int)),
    ensures
        parse_outcome(s) matches Outcome::Parsed(t) ==> exists|k: int|
            #[trigger] is_loosest_last(s, k) && ({
                &&& parse_outcome(s.take(k)) matches Outcome::Parsed(left)
                &&& parse_outcome(s.skip(k + 1)) matches Outcome::Parsed(right)
                &&& combine(left, s[k], right) == Outcome::Parsed(t)
            }),
{
    lemma_split_point_range(s);
    lemma_close_scan_range(s, 1, 1);
    split_is_loosest_last(s);
    if let Outcome::Parsed(t) = parse_outcome(s) {
        if let Split::At(k) = split_point(s) {
            if is_open(s[0]) {
                if let Some(c) = close_scan(s, 1, 1) {
                    if c + 1 < s.len() {
                        if let Some(p) = precedence_of(s[c + 1]) {
                            lemma_scan_ops_range(s, c + 2, c + 1, p, true);
                        }
                    }
                }
            } else if let Some(p) = precedence_of(s[1]) {
                lemma_scan_ops_range(s, 2, 1, p, true);
            }
            assert(k < s.len());
            assert(is_loosest_last(s, k));
        }
    }
}

/// A single token is a leaf exactly when it is a number; a list of even
/// length never parses.
pub proof fn leaves_and_even_lists(a: Seq<char>, s: Seq<Seq<char>>)
    ensures
        is_float_literal(a) ==> parse_outcome(seq![a]) == Outcome::Parsed(Term::Num(a)),
        !is_float_literal(a) ==> parse_outcome(seq![a]) == Outcome::Rejected,
        s.len() % 2 == 0 ==> parse_outcome(s) == Outcome::Rejected,
{
}

} // verus!
