use rustcalculator::calculator::Calculator;

#[test]
pub fn test_sum() {
    let result = Calculator::resolve("2+2".to_owned()).unwrap();

    assert_eq!(result, "4")
}

#[test]
pub fn test_sum_with_expression() {
    let result = Calculator::resolve("(2+2) + 5 + (3+3)".to_owned()).unwrap();

    assert_eq!(result, "15")
}

#[test]
pub fn test_sub() {
    let result = Calculator::resolve("2-2".to_owned()).unwrap();

    assert_eq!(result, "0")
}

#[test]
pub fn test_sub_with_expression() {
    let result = Calculator::resolve("(8-2) - 1 - (3-1)".to_owned()).unwrap();

    assert_eq!(result, "3")
}

#[test]
pub fn test_sub_with_expression_new() {
    let result = Calculator::resolve("4 + 4 * 2 / ( 1 - 5 )".to_owned()).unwrap();

    assert_eq!(result, "2")
}

// A whole result is written without a point, also where the operands had
// fractions: six, not "6.0".
#[test]
pub fn test_expression_with_float() {
    let result = Calculator::resolve("2.5 + 3.5".to_owned()).unwrap();
    println!("{:?}", result);
    assert_ne!(result, "6.0");
    assert_eq!(result, "6")
}
