use labelscript::ast::load;
use labelscript::error::Error;
use labelscript::interpreter::Interpreter;
use labelscript::lexer::lex;

fn run_full(src: &str) -> (Result<(), Error>, Vec<String>) {
    match lex(src.to_string()) {
        Err(e) => (Err(e), Vec::new()),
        Ok(lines) => match load(lines) {
            Err(e) => (Err(e), Vec::new()),
            Ok(labels) => {
                let mut interp = Interpreter::new(labels);
                let r = interp.interpret();
                (r, interp.output)
            }
        },
    }
}

fn run_ok(src: &str) -> Vec<String> {
    let (r, out) = run_full(src);
    assert!(r.is_ok(), "run failed: {:?}", r);
    out
}

#[test]
fn missing_entry_fails_loading() {
    let lines = lex("label .START\nprint \"hi\"".to_string()).unwrap();
    let r = load(lines);
    assert_eq!(r.unwrap_err(), Error::MissingEntry);
}

#[test]
fn missing_entry_runs_nothing() {
    let (r, out) = run_full("label .START\nprint \"hi\"");
    assert!(matches!(r, Err(Error::MissingEntry)));
    assert!(out.is_empty());
}

#[test]
fn var_then_print_quoted() {
    let out = run_ok("label .ENTRY\nvar x \"hi\"\nprint x");
    assert_eq!(out, vec!["hi".to_string()]);
}

#[test]
fn var_then_print_number() {
    let out = run_ok("label .ENTRY\nvar x 5\nprint x");
    assert_eq!(out, vec!["5".to_string()]);
}

#[test]
fn print_literal_strips_quotes_and_escapes() {
    let out = run_ok("label .ENTRY\nprint \"a\\nb\"");
    assert_eq!(out, vec!["a\nb".to_string()]);
}

#[test]
fn test_gt_eq_equal_numbers() {
    let out = run_ok("label .ENTRY\ntest_gt_eq 5 5\nprint TEMP");
    assert_eq!(out, vec!["1".to_string()]);
}

#[test]
fn test_lt_equal_numbers() {
    let out = run_ok("label .ENTRY\ntest_lt 5 5\nprint TEMP");
    assert_eq!(out, vec!["0".to_string()]);
}

#[test]
fn test_gt_decimals() {
    let out = run_ok("label .ENTRY\ntest_gt 2.5 2.40\nprint TEMP");
    assert_eq!(out, vec!["1".to_string()]);
}

#[test]
fn test_gt_eq_trailing_zeros_equal() {
    let out = run_ok("label .ENTRY\ntest_gt_eq 1.50 1.5\ntest_lt_eq 1.50 1.5\nprint TEMP");
    // Both hold of equal values; the second result overwrites the first.
    assert_eq!(out, vec!["1".to_string()]);
}

#[test]
fn test_lt_leading_zeros() {
    let out = run_ok("label .ENTRY\ntest_lt 007 8\nprint TEMP");
    assert_eq!(out, vec!["1".to_string()]);
}

#[test]
fn test_eq_through_variable_uses_payload() {
    // A stored quoted string resolves to its payload before comparing.
    let out = run_ok("label .ENTRY\nvar x \"1\"\ntest_eq x 1\nprint TEMP");
    assert_eq!(out, vec!["1".to_string()]);
}

#[test]
fn test_eq_literal_quoted_keeps_quotes() {
    // A quoted literal operand is not resolved: it keeps its quote
    // characters, so it differs from the bare text.
    let out = run_ok("label .ENTRY\ntest_eq \"1\" 1\nprint TEMP");
    assert_eq!(out, vec!["0".to_string()]);
}

#[test]
fn test_eq_same_literals() {
    let out = run_ok("label .ENTRY\ntest_eq 1 1\nprint TEMP");
    assert_eq!(out, vec!["1".to_string()]);
}

#[test]
fn jmp_returns_to_caller() {
    let out = run_ok("label .ENTRY\njmp B\nprint \"after\"\nlabel B\nprint \"inside\"");
    assert_eq!(out, vec!["inside".to_string(), "after".to_string()]);
}

#[test]
fn cmd_eq_dispatches_when_equal() {
    let out = run_ok("label .ENTRY\ncmd_eq 1 1 print \"hit\"");
    assert_eq!(out, vec!["hit".to_string()]);
}

#[test]
fn cmd_eq_noop_when_unequal() {
    let out = run_ok("label .ENTRY\ncmd_eq 1 2 print \"hit\"");
    assert!(out.is_empty());
}

#[test]
fn unknown_command_stops_run() {
    let (r, out) = run_full("label .ENTRY\nfoo 1 2\nprint \"later\"");
    assert_eq!(
        r.unwrap_err(),
        Error::UnknownCommand {
            line_number: 2,
            command: "foo".to_string()
        }
    );
    assert!(out.is_empty());
}

#[test]
fn duplicate_label_fails_loading() {
    let (r, out) = run_full("label .ENTRY\nprint \"a\"\nlabel .ENTRY\nprint \"b\"");
    assert_eq!(
        r.unwrap_err(),
        Error::DuplicateLabel {
            line_number: 3,
            name: ".ENTRY".to_string()
        }
    );
    assert!(out.is_empty());
}

#[test]
fn empty_source_is_fatal() {
    let (r, _) = run_full("");
    assert!(matches!(r, Err(Error::EmptySource)));
}

#[test]
fn unterminated_string_is_fatal() {
    let (r, _) = run_full("label .ENTRY\nprint \"abc");
    assert_eq!(
        r.unwrap_err(),
        Error::UnterminatedString {
            line_number: 2,
            line: "print \"abc".to_string()
        }
    );
}

#[test]
fn label_directive_arity_checked() {
    let (r, _) = run_full("label .ENTRY extra\nprint \"x\"");
    assert_eq!(
        r.unwrap_err(),
        Error::LabelUsage {
            line_number: 1,
            found: 2
        }
    );
}

#[test]
fn var_arity_checked() {
    let (r, out) = run_full("label .ENTRY\nvar x");
    assert_eq!(
        r.unwrap_err(),
        Error::WrongArgCount {
            line_number: 2,
            command: "var".to_string(),
            expected: 2,
            found: 1
        }
    );
    assert!(out.is_empty());
}

#[test]
fn print_arity_checked() {
    let (r, _) = run_full("label .ENTRY\nprint a b");
    assert!(matches!(r, Err(Error::WrongArgCount { expected: 1, found: 2, .. })));
}

#[test]
fn cmd_eq_needs_four_arguments() {
    let (r, _) = run_full("label .ENTRY\ncmd_eq 1 1 print");
    assert!(matches!(r, Err(Error::WrongArgCount { expected: 4, found: 3, .. })));
}

#[test]
fn undefined_variable_is_fatal() {
    let (r, _) = run_full("label .ENTRY\nprint y");
    assert_eq!(
        r.unwrap_err(),
        Error::UndefinedVariable {
            line_number: 2,
            name: "y".to_string()
        }
    );
}

#[test]
fn comparison_operand_must_be_number() {
    let (r, _) = run_full("label .ENTRY\ntest_gt \"a\" 5");
    assert_eq!(
        r.unwrap_err(),
        Error::NotNumber {
            line_number: 2,
            value: "\"a\"".to_string()
        }
    );
}

#[test]
fn require_missing_variable_is_fatal() {
    let (r, _) = run_full("label .ENTRY\nrequire z");
    assert_eq!(
        r.unwrap_err(),
        Error::RequireFailed {
            line_number: 2,
            name: "z".to_string(),
            label: ".ENTRY".to_string()
        }
    );
}

#[test]
fn require_present_variable_is_noop() {
    let out = run_ok("label .ENTRY\nvar z 1\nrequire z\nprint \"ok\"");
    assert_eq!(out, vec!["ok".to_string()]);
}

#[test]
fn jmp_unknown_label_is_fatal() {
    let (r, _) = run_full("label .ENTRY\njmp NOWHERE");
    assert_eq!(
        r.unwrap_err(),
        Error::UnknownLabel {
            line_number: 2,
            name: "NOWHERE".to_string()
        }
    );
}

#[test]
fn variable_cycle_is_detected() {
    let (r, _) = run_full("label .ENTRY\nvar a b\nvar b a\nprint a");
    assert!(matches!(r, Err(Error::CyclicVariable { line_number: 4, .. })));
}

#[test]
fn identifier_chain_resolves() {
    let out = run_ok("label .ENTRY\nvar a b\nvar b \"deep\"\nprint a");
    assert_eq!(out, vec!["deep".to_string()]);
}

#[test]
fn jmp_cycle_exhausts_call_depth() {
    let (r, _) = run_full("label .ENTRY\njmp LOOP\nlabel LOOP\njmp LOOP");
    assert!(matches!(r, Err(Error::CallDepthExceeded { .. })));
}

#[test]
fn cmt_is_ignored() {
    let out = run_ok("label .ENTRY\ncmt anything at all \"even strings\"\nprint \"done\"");
    assert_eq!(out, vec!["done".to_string()]);
}

#[test]
fn variables_are_global_across_labels() {
    let out = run_ok("label .ENTRY\nvar x 7\njmp SHOW\nlabel SHOW\nprint x");
    assert_eq!(out, vec!["7".to_string()]);
}

#[test]
fn temp_seeded_empty() {
    let out = run_ok("label .ENTRY\nprint TEMP");
    assert_eq!(out, vec![String::new()]);
}

#[test]
fn cmd_eq_can_dispatch_var() {
    let out = run_ok("label .ENTRY\ncmd_eq 2 2 var y \"set\"\nprint y");
    assert_eq!(out, vec!["set".to_string()]);
}

#[test]
fn prelude_before_first_label_never_runs() {
    let out = run_ok("print \"never\"\nlabel .ENTRY\nprint \"main\"");
    assert_eq!(out, vec!["main".to_string()]);
}
