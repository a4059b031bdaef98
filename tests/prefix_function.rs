use audio_stego::prefix_function::{period, prefix_function};

#[test]
fn period_examples() {
    assert_eq!(period(&"abab".to_string()), 2);
    assert_eq!(period(&"abc".to_string()), 3);
    assert_eq!(period(&"".to_string()), 0);
    assert_eq!(period(&"aaaa".to_string()), 1);
}

#[test]
fn period_not_dividing_length() {
    assert_eq!(period(&"abcab".to_string()), 3);
    assert_eq!(period(&"aba".to_string()), 2);
}

#[test]
fn period_of_multibyte_text() {
    assert_eq!(period(&"äöäöä".to_string()), 2);
    assert_eq!(period(&"ж".to_string()), 1);
}

#[test]
fn prefix_function_values() {
    assert_eq!(prefix_function(&"abab".to_string()), vec![0, 0, 1, 2]);
    assert_eq!(prefix_function(&"aabaaab".to_string()), vec![0, 1, 0, 1, 2, 2, 3]);
    assert_eq!(prefix_function(&"abc".to_string()), vec![0, 0, 0]);
    assert_eq!(prefix_function(&"".to_string()), vec![0]);
}
