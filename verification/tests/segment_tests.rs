use calc2::expr::Expr;
use calc2::segment::{Segmentor, SegmentorState};

fn test_case_segment(s: &str, expected: Vec<&str>) {
    let actual = Expr::segment(s);
    assert_eq!(actual, expected, "segmenting {:?}", s);
}

#[test]
fn test_segment() {
    test_case_segment("1", vec!["1"]);
    test_case_segment("1 + 2", vec!["1", "+", "2"]);
    test_case_segment("1+2", vec!["1", "+", "2"]);
    test_case_segment("12 + 3", vec!["12", "+", "3"]);
    test_case_segment("123+456*789", vec!["123", "+", "456", "*", "789"]);
    test_case_segment("(1)", vec!["(", "1", ")"]);
    test_case_segment("(2 )", vec!["(", "2", ")"]);

    test_case_segment(
        "(1+224 * 3) + 4 - 5 / 6",
        vec!["(", "1", "+", "224", "*", "3", ")", "+", "4", "-", "5", "/", "6"],
    );

    test_case_segment("-1 + 2", vec!["-1", "+", "2"]);

    test_case_segment("2 + -1", vec!["2", "+", "-1"]);
    test_case_segment("1 --2", vec!["1", "-", "-2"]);
    test_case_segment("(0.1 * -5.6) - 3", vec!["(", "0.1", "*", "-5.6", ")", "-", "3"]);

    test_case_segment("(1+2)^3", vec!["(", "1", "+", "2", ")", "^", "3"]);

    test_case_segment("12+3*4^-5", vec!["12", "+", "3", "*", "4", "^", "-5"]);
}

#[test]
fn segment_empty_text_has_no_tokens() {
    let expected: Vec<&str> = vec![];
    test_case_segment("", expected);
}

#[test]
fn segment_leading_spaces_are_skipped() {
    test_case_segment("   7", vec!["7"]);
}

#[test]
fn segment_missing_number_gives_empty_token() {
    test_case_segment("4 ++ 5", vec!["4", "+", "", "+", "5"]);
    test_case_segment("1 *= 3", vec!["1", "*", "", "=", "3"]);
}

#[test]
fn segment_lone_minus_is_a_token() {
    test_case_segment("3 - -", vec!["3", "-", "-"]);
}

#[test]
fn segment_keeps_all_but_spaces() {
    let text = " (1 +22)*  -3.5 ^ 2";
    let joined: String = Expr::segment(text).concat();
    let stripped: String = text.chars().filter(|c| *c != ' ').collect();
    assert_eq!(joined, stripped);
}

#[test]
fn segmentor_steps_through_tokens() {
    let mut seg = Segmentor::init("(1 + 2)");
    assert_eq!(seg.next(), Some("("));
    assert_eq!(seg.next(), Some("1"));
    assert_eq!(seg.next(), Some("+"));
    assert_eq!(seg.next(), Some("2"));
    assert_eq!(seg.next(), Some(")"));
    assert_eq!(seg.next(), None);
    assert_eq!(seg.next(), None);
    let _ = SegmentorState::ExpNum;
}

#[test]
fn segmentor_reads_up_to_a_non_ascii_character() {
    let mut seg = Segmentor::init("2é");
    assert_eq!(seg.next(), Some("2"));
    let mut seg = Segmentor::init(" é");
    assert_eq!(seg.next(), Some(""));
    let mut seg = Segmentor::init("(é");
    assert_eq!(seg.next(), Some("("));
    assert_eq!(seg.next(), Some(""));
}
