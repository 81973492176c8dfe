use lexgen::spec_parser::parse_spec;
use lexgen::lexer_generator::{build_dfa, tokenize};
use lexgen::dfa::DFA;

const SPEC: &str = "hello GREETING true\n[a-z]+ WORD true\n\\_+ (SKIP)\n. (ERR) \"bad input\"\n";

fn scanner_for(spec_text: &str) -> (DFA, Vec<lexgen::spec_parser::Action>) {
    let spec = parse_spec(spec_text).unwrap();
    let dfa = build_dfa(&spec).unwrap();
    let actions = spec.rules.iter().map(|r| r.action.clone()).collect();
    (dfa, actions)
}

fn scan(spec_text: &str, input: &str) -> (Vec<String>, Vec<String>) {
    let (dfa, actions) = scanner_for(spec_text);
    tokenize(&dfa, &actions, input)
}

#[test]
fn scenario_hello() {
    let (lines, diags) = scan(SPEC, "hello");
    assert_eq!(lines, vec!["GREETING:hello [1,1]", "EOF [1,6]"]);
    assert!(diags.is_empty());
}

#[test]
fn scenario_hello_world() {
    let (lines, diags) = scan(SPEC, "hello world");
    assert_eq!(
        lines,
        vec!["GREETING:hello [1,1]", "WORD:world [1,7]", "EOF [1,12]"]
    );
    assert!(diags.is_empty());
}

#[test]
fn scenario_maximal_munch_beats_priority() {
    let (lines, diags) = scan(SPEC, "helloworld");
    assert_eq!(lines, vec!["WORD:helloworld [1,1]", "EOF [1,11]"]);
    assert!(diags.is_empty());
}

#[test]
fn scenario_newline_positions() {
    let (lines, diags) = scan(SPEC, "hi\nbye");
    assert_eq!(lines, vec!["WORD:hi [1,1]", "WORD:bye [2,1]", "EOF [2,4]"]);
    assert!(diags.is_empty());
}

#[test]
fn scenario_error_rule() {
    let (lines, diags) = scan(SPEC, "?");
    assert_eq!(lines, vec!["EOF [1,2]"]);
    assert_eq!(diags, vec!["bad input"]);
}

#[test]
fn scenario_empty_input() {
    let (lines, diags) = scan(SPEC, "");
    assert_eq!(lines, vec!["EOF [1,1]"]);
    assert!(diags.is_empty());
}

#[test]
fn priority_decides_equal_length_ties() {
    // With GREETING first, "hello" is a length-5 tie that GREETING wins.
    let (lines, _) = scan(SPEC, "hello");
    assert_eq!(lines[0], "GREETING:hello [1,1]");
    // With the word rule first, the same tie goes to WORD.
    let swapped = "[a-z]+ WORD true\nhello GREETING true\n\\_+ (SKIP)\n. (ERR) \"bad input\"\n";
    let (lines, _) = scan(swapped, "hello");
    assert_eq!(lines[0], "WORD:hello [1,1]");
}

#[test]
fn skip_rules_emit_nothing() {
    let (lines, diags) = scan("a A true\n\\_+ (SKIP)\n", "a a");
    assert_eq!(lines, vec!["A:a [1,1]", "A:a [1,3]", "EOF [1,4]"]);
    assert!(diags.is_empty());
}

#[test]
fn keep_lexeme_false_omits_text() {
    let (lines, _) = scan("[0-9]+ NUM false\n", "42");
    assert_eq!(lines, vec!["NUM [1,1]", "EOF [1,3]"]);
}

#[test]
fn zero_length_match_advances_one_character() {
    // The start state accepts the empty string; the scanner still makes
    // progress, emitting a zero-length token before each character.
    let (lines, diags) = scan("a* STAR true\n", "b");
    assert_eq!(lines, vec!["STAR: [1,1]", "EOF [1,2]"]);
    assert!(diags.is_empty());
}

#[test]
fn round_trip_literal_rules() {
    let spec_text = "foo A true\nbar B true\nqux C true\n";
    let (lines, diags) = scan(spec_text, "barfooqux");
    assert_eq!(
        lines,
        vec!["B:bar [1,1]", "A:foo [1,4]", "C:qux [1,7]", "EOF [1,10]"]
    );
    assert!(diags.is_empty());
    let (lines, _) = scan(spec_text, "quxbar");
    assert_eq!(lines, vec!["C:qux [1,1]", "B:bar [1,4]", "EOF [1,7]"]);
}

#[test]
fn unmatched_input_advances_by_one() {
    // No rule matches '!', so the scanner drops it and continues.
    let (lines, diags) = scan("[a-z]+ W true\n", "ab!cd");
    assert_eq!(lines, vec!["W:ab [1,1]", "W:cd [1,4]", "EOF [1,6]"]);
    assert!(diags.is_empty());
}

#[test]
fn escapes_scan_real_characters() {
    // \_ is a space, so a rule can match the space character.
    let (lines, _) = scan("\\_ SPACE false\na A true\n", "a a");
    assert_eq!(lines, vec!["A:a [1,1]", "SPACE [1,2]", "A:a [1,3]", "EOF [1,4]"]);
}

#[test]
fn tokenize_runs_are_repeatable() {
    let (dfa, actions) = scanner_for(SPEC);
    let first = tokenize(&dfa, &actions, "hello world");
    let second = tokenize(&dfa, &actions, "hello world");
    assert_eq!(first, second);
}

#[test]
fn build_reports_bad_rule_regex() {
    let spec = parse_spec("(a X true\n").unwrap();
    match build_dfa(&spec) {
        Err(err) => assert!(err.contains("Error parsing regex"), "got: {}", err),
        Ok(_) => panic!("expected a regex error"),
    }
}
