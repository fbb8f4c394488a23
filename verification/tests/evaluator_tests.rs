use rustcalculator::binary32::Binary32;
use rustcalculator::calculator::{Calculator, Operator, Token};

fn soft(x: f32) -> Binary32 {
    Binary32::from_bits(x.to_bits())
}

fn number(x: f32) -> Token {
    Token::Number(soft(x))
}

fn op(o: Operator) -> Token {
    Token::Operator(o)
}

fn value(tokens: Vec<Token>) -> Option<f32> {
    Calculator::evaluate(tokens).map(|x| f32::from_bits(x.to_bits()))
}

fn resolve(text: &str) -> Option<String> {
    Calculator::resolve(text.to_owned())
}

#[test]
fn the_right_operand_is_the_top_of_the_stack() {
    assert_eq!(value(vec![number(8.0), number(2.0), op(Operator::Sub)]), Some(6.0));
    assert_eq!(value(vec![number(8.0), number(2.0), op(Operator::Div)]), Some(4.0));
    assert_eq!(value(vec![number(8.0), number(2.0), op(Operator::Add)]), Some(10.0));
    assert_eq!(value(vec![number(8.0), number(2.0), op(Operator::Mul)]), Some(16.0));
}

#[test]
fn a_lone_number_is_its_own_value() {
    assert_eq!(value(vec![number(7.5)]), Some(7.5));
}

#[test]
fn an_operator_short_of_operands_has_no_value() {
    assert_eq!(value(vec![op(Operator::Add)]), None);
    assert_eq!(value(vec![number(1.0), op(Operator::Add)]), None);
    assert_eq!(value(vec![number(1.0), op(Operator::Add), number(2.0), number(3.0)]), None);
    assert_eq!(
        value(vec![number(1.0), number(2.0), op(Operator::Add), op(Operator::Mul)]),
        None
    );
}

#[test]
fn operands_left_over_have_no_value() {
    assert_eq!(value(vec![number(1.0), number(2.0)]), None);
    assert_eq!(value(vec![number(1.0), number(2.0), number(3.0), op(Operator::Add)]), None);
}

#[test]
fn no_tokens_have_no_value() {
    assert_eq!(value(vec![]), None);
}

#[test]
fn brackets_in_postfix_are_passed_over() {
    assert_eq!(
        value(vec![Token::Bracket('('), number(1.0), number(2.0), op(Operator::Add)]),
        Some(3.0)
    );
}

#[test]
fn evaluating_twice_gives_the_same() {
    let tokens = vec![
        number(4.0),
        number(4.0),
        number(2.0),
        op(Operator::Mul),
        number(1.0),
        number(5.0),
        op(Operator::Sub),
        op(Operator::Div),
        op(Operator::Add),
    ];
    let first = Calculator::evaluate(tokens.clone());
    let second = Calculator::evaluate(tokens.clone());
    assert_eq!(first.map(|x| x.to_bits()), second.map(|x| x.to_bits()));
    assert_eq!(first.map(|x| x.to_bits()), Some(2.0f32.to_bits()));
}

#[test]
fn chains_go_from_left_to_right() {
    let tokens = Calculator::parse("8-2-1-3+1").unwrap();
    let postfix = Calculator::expression(tokens);
    assert_eq!(
        postfix,
        vec![
            number(8.0),
            number(2.0),
            op(Operator::Sub),
            number(1.0),
            op(Operator::Sub),
            number(3.0),
            op(Operator::Sub),
            number(1.0),
            op(Operator::Add),
        ]
    );
    assert_eq!(value(postfix), Some(3.0));
    assert_eq!(resolve("8-2-1-3+1").unwrap(), "3");
    assert_eq!(resolve("8/2/2").unwrap(), "2");
    assert_eq!(resolve("8/2*3").unwrap(), "12");
}

#[test]
fn precedence_and_brackets() {
    assert_eq!(resolve("1 + 2 * (3 - 4)").unwrap(), "-1");
    assert_eq!(resolve("(5 * 3) + (8 - 2) / 4").unwrap(), "16.5");
    assert_eq!(resolve("2 * 3 + 4").unwrap(), "10");
    assert_eq!(resolve("2 + 3 * 4").unwrap(), "14");
    assert_eq!(resolve("2 * (3 + 4)").unwrap(), "14");
    assert_eq!(resolve("((2))").unwrap(), "2");
}

#[test]
fn unbalanced_tokens_are_reordered_without_failure() {
    let stray_close = vec![number(1.0), Token::Bracket(')'), number(2.0)];
    assert_eq!(Calculator::expression(stray_close), vec![number(1.0), number(2.0)]);
    let left_open = vec![Token::Bracket('('), number(1.0), op(Operator::Add), number(2.0)];
    assert_eq!(
        Calculator::expression(left_open),
        vec![number(1.0), number(2.0), op(Operator::Add), Token::Bracket('(')]
    );
    let other = vec![number(1.0), Token::Bracket('['), number(2.0)];
    assert_eq!(Calculator::expression(other), vec![number(1.0), number(2.0)]);
}

#[test]
fn whole_results_are_written_without_a_point() {
    assert_eq!(resolve("2+2").unwrap(), "4");
    assert_eq!(resolve("2-2").unwrap(), "0");
    assert_eq!(resolve("2.5 + 3.5").unwrap(), "6");
    assert_eq!(resolve("0.5 * 4").unwrap(), "2");
    assert_eq!(resolve("2-5").unwrap(), "-3");
    assert_eq!(resolve("0 * (0-1)").unwrap(), "-0");
    assert_eq!(resolve("16777216 + 1").unwrap(), "16777216");
    assert_eq!(resolve("10000000000 * 10000000000").unwrap(), "100000002004087734272");
}

#[test]
fn other_results_are_written_as_the_machine_writes_them() {
    assert_eq!(resolve("1/3").unwrap(), format!("{:?}", 1.0f32 / 3.0));
    assert_eq!(resolve("1/3").unwrap(), "0.33333334");
    assert_eq!(resolve("2/3").unwrap(), format!("{:?}", 2.0f32 / 3.0));
    assert_eq!(resolve("2.5 + 3.25").unwrap(), "5.75");
    assert_eq!(resolve("0.1 + 0.2").unwrap(), format!("{:?}", 0.1f32 + 0.2f32));
    assert_eq!(resolve("1/100000").unwrap(), format!("{:?}", 1.0f32 / 100000.0));
    assert_eq!(resolve("1/100000").unwrap(), "1e-5");
    assert_eq!(resolve("1/10000").unwrap(), "0.0001");
    assert_eq!(resolve("3/200000").unwrap(), "1.5e-5");
    assert_eq!(resolve("0-1/3").unwrap(), "-0.33333334");
    assert_eq!(resolve("22/7").unwrap(), format!("{:?}", 22.0f32 / 7.0));
}

#[test]
fn division_by_zero_is_infinite() {
    assert_eq!(resolve("1/0").unwrap(), "inf");
    assert_eq!(resolve("1/0").unwrap(), format!("{:?}", 1.0f32 / 0.0));
    assert_eq!(resolve("(0-1)/0").unwrap(), "-inf");
    assert_eq!(resolve("0/0").unwrap(), "NaN");
    assert_eq!(resolve("1/0 - 1/0").unwrap(), "NaN");
    assert_eq!(resolve("1/0 + 1").unwrap(), "inf");
}

#[test]
fn what_cannot_be_resolved_gives_nothing() {
    assert_eq!(resolve("1 & 2"), None);
    assert_eq!(resolve("(1+2"), None);
    assert_eq!(resolve("1+2)"), None);
    assert_eq!(resolve(""), None);
    assert_eq!(resolve("()"), None);
    assert_eq!(resolve("+"), None);
    assert_eq!(resolve("1+"), None);
    assert_eq!(resolve("(1)(2)"), None);
}
