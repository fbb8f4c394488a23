use rustcalculator::binary32::Binary32;
use rustcalculator::calculator::{Calculator, Error, Operator, Token};

fn number(x: f32) -> Token {
    Token::Number(Binary32::from_bits(x.to_bits()))
}

// What the digits and points of one literal accumulate to in machine
// arithmetic, one character at a time.
fn accumulated(literal: &str) -> f32 {
    let mut value: Option<f32> = None;
    let mut in_fraction = false;
    let mut place: f32 = 0.1;
    for c in literal.chars() {
        if c == '.' {
            in_fraction = true;
            place = 0.1;
        } else {
            let digit = (c as i32) as f32 - 48.0;
            value = match value {
                Some(n) if in_fraction => {
                    let next = n + digit * place;
                    place *= 0.1;
                    Some(next)
                }
                Some(n) => Some(n * 10.0 + digit),
                None => Some(digit),
            };
        }
    }
    value.unwrap()
}

fn kind(r: Result<Vec<Token>, Error>) -> String {
    match r {
        Ok(_) => "ok".to_owned(),
        Err(Error::BadToken(c)) => format!("bad token {}", c),
        Err(Error::MismatchedParens) => "mismatched".to_owned(),
    }
}

#[test]
fn consecutive_digits_make_one_number() {
    assert_eq!(Calculator::parse("123").unwrap(), vec![number(123.0)]);
    assert_eq!(Calculator::parse("0").unwrap(), vec![number(0.0)]);
    assert_eq!(Calculator::parse("007").unwrap(), vec![number(7.0)]);
    assert_eq!(Calculator::parse("16777216").unwrap(), vec![number(16777216.0)]);
}

#[test]
fn long_literals_accumulate_as_the_machine_does() {
    for literal in [
        "123456789",
        "16777217",
        "99999999999999999999",
        "3.14159265358979",
        "0.1",
        "0.123456789",
        "1234.5678",
        "0.000001",
        "340282350000000000000000000000000000000",
        "9999999999999999999999999999999999999999999",
    ] {
        let expected = accumulated(literal);
        let tokens = Calculator::parse(literal).unwrap();
        assert_eq!(tokens.len(), 1);
        match tokens[0] {
            Token::Number(x) => assert_eq!(x.to_bits(), expected.to_bits(), "{}", literal),
            _ => panic!("not a number"),
        }
    }
}

#[test]
fn decimals_accumulate() {
    assert_eq!(Calculator::parse("2.5").unwrap(), vec![number(2.5)]);
    assert_eq!(
        Calculator::parse("2.5 + 3.5").unwrap(),
        vec![number(2.5), Token::Operator(Operator::Add), number(3.5)]
    );
    assert_eq!(Calculator::parse("0.25").unwrap(), vec![number(0.25)]);
}

#[test]
fn a_second_point_starts_the_fraction_again() {
    // 2.5, then the digit 5 once more at the weight of a tenth
    assert_eq!(Calculator::parse("2.5.5").unwrap(), vec![number(3.0)]);
}

#[test]
fn a_leading_point_is_dropped() {
    assert_eq!(Calculator::parse(".5").unwrap(), vec![number(5.0)]);
    assert_eq!(Calculator::parse(".55").unwrap(), vec![number(5.5)]);
    assert_eq!(
        Calculator::parse("1+.5").unwrap(),
        vec![number(1.0), Token::Operator(Operator::Add), number(5.0)]
    );
}

#[test]
fn blanks_end_a_fraction_but_not_a_number() {
    assert_eq!(Calculator::parse("1 2").unwrap(), vec![number(12.0)]);
    assert_eq!(Calculator::parse("1.5 2").unwrap(), vec![number(17.0)]);
    assert_eq!(Calculator::parse("1\n2").unwrap(), vec![number(12.0)]);
    assert_eq!(Calculator::parse(" \n ").unwrap(), vec![]);
}

#[test]
fn every_operator_has_its_token() {
    assert_eq!(
        Calculator::parse("+-*/").unwrap(),
        vec![
            Token::Operator(Operator::Add),
            Token::Operator(Operator::Sub),
            Token::Operator(Operator::Mul),
            Token::Operator(Operator::Div),
        ]
    );
}

#[test]
fn the_empty_text_has_no_tokens() {
    assert_eq!(Calculator::parse("").unwrap(), vec![]);
}

#[test]
fn mismatched_brackets_are_rejected() {
    assert_eq!(kind(Calculator::parse("(1+2")), "mismatched");
    assert_eq!(kind(Calculator::parse("1+2)")), "mismatched");
    assert_eq!(kind(Calculator::parse(")(")), "mismatched");
    assert_eq!(kind(Calculator::parse("(()")), "mismatched");
    assert_eq!(kind(Calculator::parse("())")), "mismatched");
}

#[test]
fn matched_brackets_are_accepted() {
    assert_eq!(
        Calculator::parse("()").unwrap(),
        vec![Token::Bracket('('), Token::Bracket(')')]
    );
    assert_eq!(kind(Calculator::parse("((1)+(2))")), "ok");
}

#[test]
fn foreign_characters_are_rejected() {
    assert_eq!(kind(Calculator::parse("1 & 2")), "bad token &");
    assert_eq!(kind(Calculator::parse("x")), "bad token x");
    assert_eq!(kind(Calculator::parse("1,5")), "bad token ,");
    assert_eq!(kind(Calculator::parse("2\t+2")), "bad token \t");
    assert_eq!(kind(Calculator::parse("(1 & 2")), "bad token &");
}

#[test]
fn the_first_fault_decides_the_error() {
    assert_eq!(kind(Calculator::parse("1) & 2")), "mismatched");
    assert_eq!(kind(Calculator::parse("1 & 2)")), "bad token &");
}

#[test]
fn weights_of_operators() {
    assert_eq!(Operator::Add.value(), 0);
    assert_eq!(Operator::Sub.value(), 0);
    assert_eq!(Operator::Mul.value(), 5);
    assert_eq!(Operator::Div.value(), 5);
}
