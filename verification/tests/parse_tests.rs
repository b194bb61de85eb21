use calc2::expr::Expr;

fn eval(e: &Expr) -> f64 {
    match e {
        Expr::Num(s) => s.parse::<f64>().unwrap(),
        Expr::Add(l, r) => eval(l) + eval(r),
        Expr::Mul(l, r) => eval(l) * eval(r),
        Expr::Pow(l, r) => f64::powf(eval(l), eval(r)),
    }
}

fn about_0(a: f64) -> bool {
    a.abs() < 0.001
}

fn eq_ish(a: f64, b: f64) -> bool {
    if about_0(a) | about_0(b) {
        about_0(a) & about_0(b)
    } else {
        f64::abs(a / b - 1.0) < 0.001
    }
}

fn test_case_eval(s: &str, expected: f64) {
    let actual = match Expr::from_str(s) {
        None => panic!("recieved None but expected {} for {:?}", expected, s),
        Some(expr) => expr,
    };
    assert!(eq_ish(eval(&actual), expected), "{:?} gave {} but expected {}", s, eval(&actual), expected);
}

fn test_case_section(s: &str, start: usize, end: usize, expected: f64) {
    let tokens = &Expr::segment(s)[start..end];
    let actual = match Expr::from_segments(tokens) {
        None => panic!("recieved None but expected {}", expected),
        Some(expr) => expr,
    };
    assert!(eq_ish(eval(&actual), expected));
}

fn shape(s: &str) -> String {
    format!("{:?}", Expr::from_str(s))
}

#[test]
fn test_valids() {
    test_case_eval("4", 4.0);
    test_case_eval("0", 0.0);
    test_case_eval("-1", -1.0);

    test_case_eval("1 + 2", 3.0);
    test_case_eval("1 + 4", 5.0);
    test_case_eval("1.3 + 2.0", 3.3);
    test_case_eval("1 + 2 + 3", 6.0);
    test_case_eval("1 + 2 + 3 + 4", 10.0);
    test_case_eval("1.1 + 2.2 + 3.456 + 7", 13.756);

    test_case_eval("2 * 3 + 1", 7.0);
    test_case_eval("3 * 4 * 5", 60.0);
    test_case_eval("2 + 3 + 4 * 5", 25.0);

    test_case_section("( 4 + 5 )", 1, 4, 9.0);
    test_case_section("( 4 * 5 )", 1, 4, 20.0);
    test_case_eval("( 1 + 2 )", 3.0);

    test_case_eval("( 3 * 6 )", 18.0);

    test_case_eval("1 + ( 2 * 3 )", 7.0);

    test_case_eval("( 1 + 2 ) * 3", 9.0);

    test_case_eval("( 1 + 2 ) * ( 3 + 4 )", 21.0);

    test_case_eval("( 1 + 2 ) * ( 7 - 9 )", -6.0);

    test_case_eval("( ( 3 - 4 ) )", -1.0);
    test_case_eval("( ( 1 + 2 ) + ( ( 3 * 4 ) - 9 ) ) * 4", 24.0);

    test_case_eval("(1+2+4)^3", 343.0);
    test_case_eval("1/4", 0.25);
    test_case_eval("(9-6)/-3", -1.0);
    test_case_eval("1+2*3", 7.0);
    test_case_eval("2*3+1", 7.0);

    test_case_eval("1 + 2 * 3 ^ 4 - 6", 157.0);
    test_case_eval("(1+2.3*4)-((5+6)^1.3)", -12.3845005502);
}

#[test]
fn test_invalids() {
    assert!(Expr::from_str("4 ++ 5").is_none());
    assert!(Expr::from_str("1 *= 3").is_none());
    assert!(Expr::from_str("a b c d e").is_none());
    assert!(Expr::from_str("12 # 7").is_none());
}

#[test]
fn unknown_operator_is_reported() {
    let segs = Expr::segment("12 # 7");
    assert_eq!(segs, vec!["12", "#", "7"]);
    match Expr::try_from_segments(&segs) {
        Err(msg) => assert_eq!(msg, "operation \"#\" unrecognized"),
        Ok(_) => panic!("expected the unknown operator to be reported"),
    }
    assert!(Expr::from_segments(&segs).is_none());
}

#[test]
fn unknown_operator_after_group_is_reported() {
    let segs = Expr::segment("(1) 2 + 3");
    match Expr::try_from_segments(&segs) {
        Err(msg) => assert_eq!(msg, "operation \"2\" unrecognized"),
        Ok(_) => panic!("expected the unknown operator to be reported"),
    }
}

#[test]
fn empty_text_is_rejected() {
    assert!(Expr::from_str("").is_none());
    let none: Vec<&str> = vec![];
    assert!(Expr::from_segments(&none).is_none());
}

#[test]
fn even_token_count_is_rejected() {
    assert!(Expr::from_segments(&["1", "+"]).is_none());
}

#[test]
fn lone_non_number_is_rejected() {
    assert!(Expr::from_segments(&["x"]).is_none());
    assert!(Expr::from_segments(&[""]).is_none());
}

#[test]
fn unclosed_parenthesis_is_rejected() {
    assert!(Expr::from_str("(1 + 2").is_none());
    assert!(Expr::from_str("1 + (2").is_none());
}

#[test]
fn stray_close_parenthesis_is_rejected() {
    assert!(Expr::from_segments(&["1", "+", ")"]).is_none());
}

#[test]
fn single_number_is_a_leaf() {
    assert_eq!(shape("4"), "Some(Num(\"4\"))");
    assert_eq!(shape("-2.5"), "Some(Num(\"-2.5\"))");
}

#[test]
fn subtraction_and_division_are_rewritten() {
    assert_eq!(
        shape("1-2"),
        "Some(Add(Num(\"1\"), Mul(Num(\"-1.0\"), Num(\"2\"))))"
    );
    assert_eq!(
        shape("1/2"),
        "Some(Mul(Num(\"1\"), Pow(Num(\"2\"), Num(\"-1.0\"))))"
    );
}

#[test]
fn multiplication_binds_tighter_than_addition() {
    assert_eq!(
        shape("1 + 2 * 3"),
        "Some(Add(Num(\"1\"), Mul(Num(\"2\"), Num(\"3\"))))"
    );
    assert_eq!(
        shape("1 * 2 + 3"),
        "Some(Add(Mul(Num(\"1\"), Num(\"2\")), Num(\"3\")))"
    );
}

#[test]
fn operators_group_to_the_left() {
    assert_eq!(
        shape("1 + 2 + 3"),
        "Some(Add(Add(Num(\"1\"), Num(\"2\")), Num(\"3\")))"
    );
    assert_eq!(
        shape("2 ^ 3 ^ 2"),
        "Some(Pow(Pow(Num(\"2\"), Num(\"3\")), Num(\"2\")))"
    );
    test_case_eval("2 ^ 3 ^ 2", 64.0);
    test_case_eval("8 - 4 - 2", 2.0);
}

#[test]
fn redundant_parentheses_do_not_change_the_tree() {
    assert_eq!(shape("((1 + 2) * 3)"), shape("(1 + 2) * 3"));
    assert_eq!(shape("((4))"), shape("4"));
}

#[test]
fn parsed_leaves_are_numbers() {
    let e = Expr::from_str("(10 + .5) * -2. ^ 2 / 4").unwrap();
    fn check(e: &Expr) {
        match e {
            Expr::Num(s) => assert!(s.parse::<f64>().is_ok(), "{:?}", s),
            Expr::Add(l, r) | Expr::Mul(l, r) | Expr::Pow(l, r) => {
                check(l);
                check(r);
            }
        }
    }
    check(&e);
}

#[test]
fn special_number_words_are_numbers() {
    assert!(Expr::from_segments(&["inf"]).is_some());
    assert!(Expr::from_segments(&["-NaN", "*", "1e5"]).is_some());
    // The tokenizer splits letters apart, so a text never reaches them whole.
    assert!(Expr::from_str("inf").is_none());
}

#[test]
fn non_operator_between_operands_gives_none() {
    assert!(Expr::from_segments(&["1", "#", "2"]).is_none());
    assert!(Expr::from_str("(1) 2 + 3").is_none());
}

#[test]
fn outer_parentheses_are_stripped() {
    let inner = format!("{:?}", Expr::from_segments(&["1", "+", "2", "*", "3"]));
    let outer = format!("{:?}", Expr::from_segments(&["(", "1", "+", "2", "*", "3", ")"]));
    assert_eq!(inner, outer);
    assert_eq!(inner, "Some(Add(Num(\"1\"), Mul(Num(\"2\"), Num(\"3\"))))");
}
