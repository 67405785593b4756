use people_core::Calculator;

#[test]
fn test_calculator_add() {
    assert_eq!(Calculator::add(5, 3), 8);
    assert_eq!(Calculator::add(-5, 3), -2);
    assert_eq!(Calculator::add(0, 0), 0);
}

#[test]
fn test_calculator_subtract() {
    assert_eq!(Calculator::subtract(10, 3), 7);
    assert_eq!(Calculator::subtract(3, 10), -7);
    assert_eq!(Calculator::subtract(5, 5), 0);
}

#[test]
fn test_calculator_multiply() {
    assert_eq!(Calculator::multiply(4, 3), 12);
    assert_eq!(Calculator::multiply(-4, 3), -12);
    assert_eq!(Calculator::multiply(0, 100), 0);
}

#[test]
fn test_calculator_divide() {
    assert_eq!(Calculator::divide(10, 2), Some(5));
    assert_eq!(Calculator::divide(7, 3), Some(2)); // Integer division
    assert_eq!(Calculator::divide(10, 0), None);
    assert_eq!(Calculator::divide(0, 5), Some(0));
}

#[test]
fn test_calculator_divide_truncates_toward_zero() {
    assert_eq!(Calculator::divide(-7, 3), Some(-2));
    assert_eq!(Calculator::divide(7, -3), Some(-2));
    assert_eq!(Calculator::divide(-7, -3), Some(2));
    assert_eq!(Calculator::divide(i32::MIN, 1), Some(i32::MIN));
}
