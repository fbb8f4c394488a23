use rustcalculator::calculator::calculator_button::{
    get_background_color, get_hovered_background_color, get_pressed_background_color, ButtonStyle,
};
use rustcalculator::calculator::{Calculator, Message};

fn typed(keys: &str) -> Calculator {
    let mut calculator = Calculator::new();
    for c in keys.chars() {
        calculator.update(Message::Edit(c));
    }
    calculator
}

fn shown(keys: &str) -> String {
    typed(keys).input_text().clone()
}

#[test]
fn a_new_calculator_shows_a_zero() {
    let calculator = Calculator::new();
    assert_eq!(calculator.input_text(), "0");
    assert_eq!(calculator.outcome_text(), &None);
}

#[test]
fn the_lone_zero_gives_way() {
    assert_eq!(shown("5"), "5");
    assert_eq!(shown("("), "(");
    assert_eq!(shown("0"), "0");
    assert_eq!(shown("00"), "0");
}

#[test]
fn the_lone_zero_stays_before_a_point() {
    assert_eq!(shown("."), "0.");
    assert_eq!(shown(".5"), "0.5");
}

#[test]
fn the_lone_zero_stays_where_the_key_is_refused() {
    assert_eq!(shown("+"), "0");
    assert_eq!(shown(")"), "0");
}

#[test]
fn digits_follow_anything() {
    assert_eq!(shown("12"), "12");
    assert_eq!(shown("1+2"), "1+2");
    assert_eq!(shown("(2"), "(2");
    assert_eq!(shown("1.5"), "1.5");
}

#[test]
fn a_point_follows_a_digit_only() {
    assert_eq!(shown("1."), "1.");
    assert_eq!(shown("1+."), "1+");
    assert_eq!(shown("1.."), "1.");
    assert_eq!(shown("(."), "(");
}

#[test]
fn an_operator_follows_a_digit_or_a_closing_bracket() {
    assert_eq!(shown("1+"), "1+");
    assert_eq!(shown("1+-"), "1+");
    assert_eq!(shown("(1)*"), "(1)*");
    assert_eq!(shown("(/"), "(");
    assert_eq!(shown("1.-"), "1.");
}

#[test]
fn a_closing_bracket_follows_a_digit_only() {
    assert_eq!(shown("(1)"), "(1)");
    assert_eq!(shown("()"), "(");
    assert_eq!(shown("(1))"), "(1)");
    assert_eq!(shown("(1+)"), "(1+");
}

#[test]
fn an_opening_bracket_follows_no_digit_point_or_closing_bracket() {
    assert_eq!(shown("1("), "1");
    assert_eq!(shown("1.("), "1.");
    assert_eq!(shown("(1)("), "(1)");
    assert_eq!(shown("1+("), "1+(");
    assert_eq!(shown("(("), "((");
}

#[test]
fn other_characters_are_taken_as_they_come() {
    assert_eq!(shown("1x"), "1x");
    // a numeric character that is no decimal digit counts as numeric
    assert_eq!(shown("\u{0663}."), "\u{0663}.");
    assert_eq!(shown("x."), "x");
}

#[test]
fn accepts_follows_the_rules() {
    assert!(Calculator::accepts('1', true, '.'));
    assert!(!Calculator::accepts('+', false, '.'));
    assert!(Calculator::accepts(')', false, '+'));
    assert!(!Calculator::accepts('(', false, '*'));
    assert!(!Calculator::accepts('?', false, ')'));
    assert!(Calculator::accepts('?', false, '('));
    assert!(!Calculator::accepts('.', false, '('));
    assert!(Calculator::accepts('+', false, '7'));
}

#[test]
fn clearing_empties_the_expression() {
    let mut calculator = typed("1+2");
    calculator.update(Message::Clear);
    assert_eq!(calculator.input_text(), "");
    calculator.update(Message::Edit('7'));
    assert_eq!(calculator.input_text(), "7");
    calculator.update(Message::Clear);
    calculator.update(Message::Edit('+'));
    assert_eq!(calculator.input_text(), "");
}

#[test]
fn resolving_shows_the_result() {
    let mut calculator = typed("1+2*3");
    calculator.update(Message::Resolve);
    assert_eq!(calculator.input_text(), "7");
    assert_eq!(calculator.outcome_text(), &Some("7".to_owned()));
    calculator.update(Message::Edit('+'));
    calculator.update(Message::Edit('1'));
    calculator.update(Message::Resolve);
    assert_eq!(calculator.input_text(), "8");
}

#[test]
fn resolving_what_has_no_value_shows_nothing() {
    let mut calculator = typed("1+");
    calculator.update(Message::Resolve);
    assert_eq!(calculator.input_text(), "");
    assert_eq!(calculator.outcome_text(), &None);
    let mut calculator = typed("(1+2");
    calculator.update(Message::Resolve);
    assert_eq!(calculator.input_text(), "");
    assert_eq!(calculator.outcome_text(), &None);
}

#[test]
fn editing_keeps_the_last_result() {
    let mut calculator = typed("2*2");
    calculator.update(Message::Resolve);
    calculator.update(Message::Edit('1'));
    assert_eq!(calculator.input_text(), "41");
    assert_eq!(calculator.outcome_text(), &Some("4".to_owned()));
    calculator.update(Message::Clear);
    assert_eq!(calculator.outcome_text(), &Some("4".to_owned()));
}

#[test]
fn counting_characters() {
    assert_eq!(Calculator::count_char('(', "((1+2)*(3))".to_owned()), 3);
    assert_eq!(Calculator::count_char(')', "((1+2)*(3))".to_owned()), 3);
    assert_eq!(Calculator::count_char('x', "((1+2)*(3))".to_owned()), 0);
    assert_eq!(Calculator::count_char('a', "".to_owned()), 0);
    assert_eq!(Calculator::count_char('\u{e9}', "\u{e9}t\u{e9}".to_owned()), 2);
}

#[test]
fn colours_of_keys() {
    assert_eq!(get_background_color(&ButtonStyle::Number), 0x666666);
    assert_eq!(get_background_color(&ButtonStyle::Operator), 0x103f61);
    assert_eq!(get_background_color(&ButtonStyle::Equal), 0x103f61);
    assert_eq!(get_background_color(&ButtonStyle::Misc), 0x3a3a3a);
    assert_eq!(get_hovered_background_color(&ButtonStyle::Number), 0x9c9c9c);
    assert_eq!(get_hovered_background_color(&ButtonStyle::Operator), 0x165a8a);
    assert_eq!(get_hovered_background_color(&ButtonStyle::Equal), 0x165a8a);
    assert_eq!(get_hovered_background_color(&ButtonStyle::Misc), 0x545454);
    assert_eq!(get_pressed_background_color(&ButtonStyle::Number), 0x474747);
    assert_eq!(get_pressed_background_color(&ButtonStyle::Operator), 0x09263b);
    assert_eq!(get_pressed_background_color(&ButtonStyle::Equal), 0x09263b);
    assert_eq!(get_pressed_background_color(&ButtonStyle::Misc), 0x171717);
    assert_eq!(ButtonStyle::default(), ButtonStyle::Number);
}
