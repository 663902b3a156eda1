use labelscript::ast::get_code_from;
use labelscript::ast::has_label;
use labelscript::ast::load;
use labelscript::ast::Label;
use labelscript::error::Error;
use labelscript::lexer::lex;
use labelscript::lexer::Line;
use labelscript::numeric::compare_numbers;
use labelscript::numeric::Cmp;
use labelscript::token::get_string_content;
use labelscript::token::get_type;
use labelscript::token::rem_first_and_last;
use labelscript::token::Types;

#[test]
fn classify_quoted_string() {
    assert_eq!(get_type("\"hello\"".to_string()), Types::Str);
}

#[test]
fn classify_integer() {
    assert_eq!(get_type("42".to_string()), Types::Number);
}

#[test]
fn classify_decimal() {
    assert_eq!(get_type("3.14".to_string()), Types::Number);
}

#[test]
fn classify_trailing_dot_is_unknown() {
    assert_eq!(get_type("5.".to_string()), Types::Unknown);
}

#[test]
fn classify_leading_dot_is_unknown() {
    assert_eq!(get_type(".5".to_string()), Types::Unknown);
}

#[test]
fn classify_two_dots_is_unknown() {
    assert_eq!(get_type("1.2.3".to_string()), Types::Unknown);
}

#[test]
fn classify_identifier() {
    assert_eq!(get_type("_ab1".to_string()), Types::Identifier);
    assert_eq!(get_type("TEMP".to_string()), Types::Identifier);
}

#[test]
fn classify_digit_led_name_is_unknown() {
    assert_eq!(get_type("1a".to_string()), Types::Unknown);
}

#[test]
fn classify_empty_is_unknown() {
    assert_eq!(get_type(String::new()), Types::Unknown);
}

#[test]
fn quoted_round_trip_with_escape() {
    // Tokenizing `"a\nb"` keeps the quotes; the payload turns the
    // two-character escape into a real newline.
    let lines = lex("\"a\\nb\"".to_string()).unwrap();
    assert_eq!(lines.len(), 1);
    let token = lines[0].0[0].clone();
    assert_eq!(token, "\"a\\nb\"");
    assert_eq!(get_string_content(token), "a\nb");
}

#[test]
fn payload_of_unquoted_is_identity() {
    assert_eq!(get_string_content("plain".to_string()), "plain");
}

#[test]
fn rem_first_and_last_drops_ends() {
    assert_eq!(rem_first_and_last("abc"), "b");
    assert_eq!(rem_first_and_last("ab"), "");
    assert_eq!(rem_first_and_last("a"), "");
}

#[test]
fn lex_splits_on_unquoted_spaces() {
    let lines = lex("var x \"two words\"".to_string()).unwrap();
    assert_eq!(
        lines[0].0,
        vec![
            "var".to_string(),
            "x".to_string(),
            "\"two words\"".to_string()
        ]
    );
}

#[test]
fn lex_keeps_blank_lines() {
    let lines = lex("a\n\nb".to_string()).unwrap();
    assert_eq!(lines.len(), 3);
    assert!(lines[1].0.is_empty());
}

#[test]
fn lex_strips_tabs_and_carriage_returns() {
    let lines = lex("\tvar\tx 1\r\nprint x".to_string()).unwrap();
    assert_eq!(lines.len(), 2);
    assert_eq!(lines[0].0, vec!["varx".to_string(), "1".to_string()]);
}

#[test]
fn lex_trims_outer_blank_lines() {
    let lines = lex("\n\nprint x\n\n".to_string()).unwrap();
    assert_eq!(lines.len(), 1);
}

#[test]
fn lex_empty_source_fails() {
    assert_eq!(lex(String::new()).unwrap_err(), Error::EmptySource);
}

#[test]
fn compare_integers() {
    assert_eq!(compare_numbers("10", "9"), Cmp::Gt);
    assert_eq!(compare_numbers("9", "10"), Cmp::Lt);
    assert_eq!(compare_numbers("10", "10"), Cmp::Eq);
}

#[test]
fn compare_ignores_leading_zeros() {
    assert_eq!(compare_numbers("007", "7"), Cmp::Eq);
    assert_eq!(compare_numbers("007", "8"), Cmp::Lt);
}

#[test]
fn compare_ignores_trailing_fraction_zeros() {
    assert_eq!(compare_numbers("2.50", "2.5"), Cmp::Eq);
    assert_eq!(compare_numbers("0.9", "1"), Cmp::Lt);
    assert_eq!(compare_numbers("1.05", "1.5"), Cmp::Lt);
}

#[test]
fn compare_long_digit_strings_exactly() {
    assert_eq!(
        compare_numbers("123456789123456789", "123456789123456788"),
        Cmp::Gt
    );
}

#[test]
fn has_label_finds_by_name() {
    let lines = lex("label .ENTRY\nprint \"x\"".to_string()).unwrap();
    let labels = load(lines).unwrap();
    assert!(has_label(labels.clone(), ".ENTRY".to_string()));
    assert!(!has_label(labels, ".OTHER".to_string()));
}

#[test]
fn get_code_from_returns_body_with_line_numbers() {
    let lines = lex("label .ENTRY\nprint \"x\"\ncmt done".to_string()).unwrap();
    let labels = load(lines).unwrap();
    let code = get_code_from(labels.clone(), ".ENTRY".to_string());
    assert_eq!(code.len(), 2);
    assert_eq!(code[0].0, 2);
    assert_eq!(code[0].1, Line(vec!["print".to_string(), "\"x\"".to_string()]));
    assert_eq!(code[1].0, 3);
    let empty = get_code_from(labels, ".MISSING".to_string());
    assert!(empty.is_empty());
}

#[test]
fn load_seals_prelude_under_empty_name() {
    let lines = lex("cmt before\nlabel .ENTRY\ncmt after".to_string()).unwrap();
    let labels: Vec<Label> = load(lines).unwrap();
    assert_eq!(labels.len(), 2);
    assert_eq!(labels[0].label_name, "");
    assert_eq!(labels[0].label_code.len(), 1);
    assert_eq!(labels[1].label_name, ".ENTRY");
}
