//! Tests of the arithmetic helpers.

#[test]
fn test_add() {
    assert_eq!(student_records::math_utils::add(2, 3), 5);
}

#[test]
fn test_result() -> Result<(), String> {
    if 2 + 2 == 4 {
        Ok(())
    } else {
        Err("Math is broken!".to_string())
    }
}

#[test]
fn test_multiply() {
    let cases = vec![(2, 3, 6), (-1, 5, -5), (0, 10, 0)];
    for (a, b, expected) in cases {
        assert_eq!(student_records::math_utils::multiply(a, b), expected);
    }
}

#[test]
fn test_external_function() {
    assert_eq!(student_records::math_utils::add(2, 3), 5);
}

#[test]
fn test_square() {
    assert_eq!(student_records::math_utils::square(4), 16);
    assert_eq!(student_records::math_utils::square(-3), 9);
}

#[test]
fn test_square_add() {
    assert_eq!(student_records::math_utils::square_add(2, 3), 25);
}

#[test]
fn test_add_to_base() {
    assert_eq!(student_records::math_utils::base_value(), 10);
    assert_eq!(student_records::math_utils::add_to_base(5), 15);
}
