use practice_apps::calculator::{
    button_action, is_float_literal_exec, shunting_yard, tokenize, ButtonAction, Calculator,
    ERR_INVALID_CHARACTER, ERR_MISSING_CLOSING, ERR_MISSING_OPENING, ERR_UNKNOWN_TOKEN,
};

fn strings(v: &[&str]) -> Vec<String> {
    v.iter().map(|s| s.to_string()).collect()
}

#[test]
fn tokenize_splits_numbers_and_operators() {
    assert_eq!(tokenize("12+3*(4-5)/6").unwrap(), strings(&["12", "+", "3", "*", "(", "4", "-", "5", ")", "/", "6"]));
    assert_eq!(tokenize("  1 2 ").unwrap(), strings(&["1", "2"]));
    assert_eq!(tokenize("").unwrap(), Vec::<String>::new());
}

#[test]
fn tokenize_reads_comma_as_dot() {
    assert_eq!(tokenize("3,5*2").unwrap(), strings(&["3.5", "*", "2"]));
    assert_eq!(tokenize("1..2,").unwrap(), strings(&["1..2."]));
}

#[test]
fn tokenize_rejects_foreign_characters() {
    assert_eq!(tokenize("2^3"), Err(ERR_INVALID_CHARACTER));
    assert_eq!(tokenize("1\t+2"), Err(ERR_INVALID_CHARACTER));
    assert_eq!(tokenize("x"), Err(ERR_INVALID_CHARACTER));
    assert_eq!(ERR_INVALID_CHARACTER, "Nieprawidłowy znak w wyrażeniu");
}

#[test]
fn law_tokens_keep_every_non_space_character() {
    let expr = " 1,5 + (22*3) ";
    let joined: String = tokenize(expr).unwrap().concat();
    let expected: String = expr.chars().filter(|c| *c != ' ').map(|c| if c == ',' { '.' } else { c }).collect();
    assert_eq!(joined, expected);
}

#[test]
fn float_literal_recognition_matches_std() {
    let samples = [
        "", "1", "12", "1.", ".5", "1.5", ".", "..", "1..2", "+1", "-1", "+", "-", "1e5", "1E5",
        "1e", "1e+", "1e-3", "e5", ".e5", "1.e5", "inf", "INF", "-inf", "Infinity", "infinit",
        "nan", "NaN", "+nan", "nanx", "1 ", " 1", "1_0", "0x10", "٣",
    ];
    for s in samples.iter() {
        assert_eq!(is_float_literal_exec(s), s.parse::<f64>().is_ok(), "sample {:?}", s);
    }
}

#[test]
fn shunting_yard_respects_precedence() {
    let rpn = shunting_yard(&strings(&["1", "+", "2", "*", "3"])).unwrap();
    assert_eq!(rpn, strings(&["1", "2", "3", "*", "+"]));
}

#[test]
fn shunting_yard_is_left_associative() {
    let rpn = shunting_yard(&strings(&["8", "-", "2", "-", "1"])).unwrap();
    assert_eq!(rpn, strings(&["8", "2", "-", "1", "-"]));
    let rpn = shunting_yard(&strings(&["8", "/", "2", "*", "4"])).unwrap();
    assert_eq!(rpn, strings(&["8", "2", "/", "4", "*"]));
}

#[test]
fn shunting_yard_groups_parentheses() {
    let rpn = shunting_yard(&tokenize("(1+2)*3").unwrap()).unwrap();
    assert_eq!(rpn, strings(&["1", "2", "+", "3", "*"]));
}

#[test]
fn shunting_yard_errors() {
    assert_eq!(shunting_yard(&strings(&["1", ")"])), Err(ERR_MISSING_OPENING));
    assert_eq!(shunting_yard(&strings(&["(", "1"])), Err(ERR_MISSING_CLOSING));
    assert_eq!(shunting_yard(&strings(&["1..2"])), Err(ERR_UNKNOWN_TOKEN));
    assert_eq!(shunting_yard(&strings(&["."])), Err(ERR_UNKNOWN_TOKEN));
    // the first error met wins
    assert_eq!(shunting_yard(&strings(&[")", "x"])), Err(ERR_MISSING_OPENING));
}

#[test]
fn shunting_yard_passes_other_float_spellings() {
    let rpn = shunting_yard(&strings(&["inf", "*", "-2", "+", "1e3"])).unwrap();
    assert_eq!(rpn, strings(&["inf", "-2", "*", "1e3", "+"]));
}

#[test]
fn law_rpn_keeps_numbers_in_order_and_all_operators() {
    let tokens = tokenize("((1-2)*3+4)/(5-6*7)").unwrap();
    let rpn = shunting_yard(&tokens).unwrap();
    let numbers = |v: &Vec<String>| v.iter().filter(|t| t.parse::<f64>().is_ok()).cloned().collect::<Vec<_>>();
    assert_eq!(numbers(&rpn), numbers(&tokens));
    let mut ops_in: Vec<String> = tokens.iter().filter(|t| ["+", "-", "*", "/"].contains(&t.as_str())).cloned().collect();
    let mut ops_out: Vec<String> = rpn.iter().filter(|t| ["+", "-", "*", "/"].contains(&t.as_str())).cloned().collect();
    ops_in.sort();
    ops_out.sort();
    assert_eq!(ops_in, ops_out);
    assert!(rpn.iter().all(|t| t != "(" && t != ")"));
    assert_eq!(rpn.len(), tokens.len() - 6);
}

#[test]
fn law_rpn_total_without_parentheses_example() {
    assert!(shunting_yard(&strings(&["+", "*", "1", "/"])).is_ok());
}

#[test]
fn keypad_actions() {
    assert_eq!(button_action("C"), ButtonAction::Clear);
    assert_eq!(button_action("<-"), ButtonAction::Backspace);
    assert_eq!(button_action("="), ButtonAction::Evaluate);
    assert_eq!(button_action("7"), ButtonAction::Append);
    assert_eq!(button_action("("), ButtonAction::Append);
}

#[test]
fn keypad_edits_input() {
    let mut c = Calculator::new();
    assert!(!c.press("1"));
    assert!(!c.press("2"));
    assert!(!c.press("+"));
    assert_eq!(c.input, "12+");
    assert!(!c.press("<-"));
    assert_eq!(c.input, "12");
    assert!(c.press("="));
    assert_eq!(c.input, "12");
    c.result = "Wynik: 12".to_string();
    assert!(!c.press("C"));
    assert_eq!(c.input, "");
    assert_eq!(c.result, "");
    assert!(!c.press("<-"));
    assert_eq!(c.input, "");
}
