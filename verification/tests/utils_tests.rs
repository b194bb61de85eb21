use calc2::utils::{is_digit, is_even, is_num, is_odd, last_index};

#[test]
fn even_and_odd() {
    assert!(is_even(0));
    assert!(is_even(4));
    assert!(is_even(-6));
    assert!(!is_even(7));
    assert!(!is_even(-3));
    assert!(is_odd(7));
    assert!(is_odd(-3));
    assert!(!is_odd(10));
    assert!(is_even(i64::MIN));
    assert!(is_odd(i64::MAX));
}

#[test]
fn digits() {
    assert!(is_digit(b'0'));
    assert!(is_digit(b'9'));
    assert!(!is_digit(b'/'));
    assert!(!is_digit(b':'));
    assert!(!is_digit(b'.'));
}

#[test]
fn last_index_of_slices() {
    assert_eq!(last_index(&[1, 2, 3]), 2);
    assert_eq!(last_index(&["a"]), 0);
}

#[test]
fn numbers_in_float_syntax() {
    for s in ["1", "-1", "+1", "1.5", ".5", "5.", "1e10", "1E-3", "2.5e+7", "inf", "-Infinity", "NaN", "+nan"] {
        assert!(is_num(s), "{:?} should be a number", s);
        assert!(s.parse::<f32>().is_ok());
    }
    for s in ["", ".", "-", "e5", "1e", "1e+", "1.2.3", "abc", " 1", "1 ", "1_000", "0x10", "--1", "infin", "1.5f"] {
        assert!(!is_num(s), "{:?} should not be a number", s);
        assert!(s.parse::<f32>().is_err());
    }
}
