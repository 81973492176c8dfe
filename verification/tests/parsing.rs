use lexgen::regex_parser::{parse_regex, RegexNode};
use lexgen::spec_parser::{parse_spec, Action};

fn chr(c: char) -> Box<RegexNode> {
    Box::new(RegexNode::Char(c))
}

#[test]
fn parses_single_char() {
    assert_eq!(parse_regex("a").unwrap(), RegexNode::Char('a'));
}

#[test]
fn parses_alternation_left_assoc() {
    let got = parse_regex("a|b|c").unwrap();
    let want = RegexNode::Alternation(
        Box::new(RegexNode::Alternation(chr('a'), chr('b'))),
        chr('c'),
    );
    assert_eq!(got, want);
}

#[test]
fn parses_concatenation_left_assoc() {
    let got = parse_regex("abc").unwrap();
    let want = RegexNode::Concatenation(
        Box::new(RegexNode::Concatenation(chr('a'), chr('b'))),
        chr('c'),
    );
    assert_eq!(got, want);
}

#[test]
fn parses_postfix_operators() {
    assert_eq!(parse_regex("a*").unwrap(), RegexNode::Kleene(chr('a')));
    assert_eq!(parse_regex("a+").unwrap(), RegexNode::Plus(chr('a')));
    assert_eq!(parse_regex("a?").unwrap(), RegexNode::Optional(chr('a')));
    assert_eq!(
        parse_regex("a*+").unwrap(),
        RegexNode::Plus(Box::new(RegexNode::Kleene(chr('a'))))
    );
}

#[test]
fn parses_groups() {
    let got = parse_regex("(a|b)c").unwrap();
    let want = RegexNode::Concatenation(
        Box::new(RegexNode::Alternation(chr('a'), chr('b'))),
        chr('c'),
    );
    assert_eq!(got, want);
}

#[test]
fn parses_dot() {
    assert_eq!(parse_regex(".").unwrap(), RegexNode::Dot);
}

#[test]
fn parses_escapes() {
    assert_eq!(parse_regex("\\t").unwrap(), RegexNode::Char('\t'));
    assert_eq!(parse_regex("\\n").unwrap(), RegexNode::Char('\n'));
    assert_eq!(parse_regex("\\_").unwrap(), RegexNode::Char(' '));
    assert_eq!(parse_regex("\\\\").unwrap(), RegexNode::Char('\\'));
    assert_eq!(parse_regex("\\*").unwrap(), RegexNode::Char('*'));
}

#[test]
fn parses_char_class_with_range() {
    assert_eq!(
        parse_regex("[a-c]").unwrap(),
        RegexNode::CharClass(vec!['a', 'b', 'c'])
    );
    assert_eq!(
        parse_regex("[xa-c0]").unwrap(),
        RegexNode::CharClass(vec!['x', 'a', 'b', 'c', '0'])
    );
}

#[test]
fn parses_negated_char_class() {
    assert_eq!(
        parse_regex("[^ab]").unwrap(),
        RegexNode::NegatedCharClass(vec!['a', 'b'])
    );
}

#[test]
fn dash_at_edges_is_literal() {
    assert_eq!(
        parse_regex("[-a]").unwrap(),
        RegexNode::CharClass(vec!['-', 'a'])
    );
    assert_eq!(
        parse_regex("[a-]").unwrap(),
        RegexNode::CharClass(vec!['a', '-'])
    );
}

#[test]
fn rejects_malformed_regexes() {
    assert!(parse_regex("").is_err());
    assert!(parse_regex("(a").is_err());
    assert!(parse_regex("a)b").is_err());
    assert!(parse_regex("[ab").is_err());
    assert!(parse_regex("a\\").is_err());
    assert!(parse_regex("*a").is_err());
    assert!(parse_regex("a||b").is_err());
}

#[test]
fn parses_spec_lines() {
    let content = "hello GREETING true\n[a-z]+ WORD false\nx (SKIP)\n. (ERR) \"bad input\"\n";
    let spec = parse_spec(content).unwrap();
    assert_eq!(spec.rules.len(), 4);
    assert_eq!(spec.rules[0].regex, "hello");
    match &spec.rules[0].action {
        Action::Token { name, keep_lexeme } => {
            assert_eq!(name, "GREETING");
            assert!(*keep_lexeme);
        }
        _ => panic!("expected token action"),
    }
    match &spec.rules[1].action {
        Action::Token { name, keep_lexeme } => {
            assert_eq!(name, "WORD");
            assert!(!*keep_lexeme);
        }
        _ => panic!("expected token action"),
    }
    assert!(matches!(spec.rules[2].action, Action::Skip));
    match &spec.rules[3].action {
        Action::Error(msg) => assert_eq!(msg, "bad input"),
        _ => panic!("expected error action"),
    }
}

#[test]
fn spec_skips_blank_lines() {
    let content = "\n  \na X true\n\t\nb Y false\n";
    let spec = parse_spec(content).unwrap();
    assert_eq!(spec.rules.len(), 2);
    assert_eq!(spec.rules[0].regex, "a");
    assert_eq!(spec.rules[1].regex, "b");
}

#[test]
fn regex_errors_use_fixed_messages() {
    assert_eq!(parse_regex("").unwrap_err(), "Empty concatenation");
    assert_eq!(parse_regex("a|").unwrap_err(), "Empty concatenation");
    assert_eq!(parse_regex("a\\").unwrap_err(), "Incomplete escape sequence");
    assert_eq!(parse_regex("[ab").unwrap_err(), "Unterminated character class");
    assert_eq!(parse_regex("(a").unwrap_err(), "Missing closing parenthesis");
    assert_eq!(parse_regex("*a").unwrap_err(), "Unexpected operator with no operand");
    assert_eq!(parse_regex("a)b").unwrap_err(), "Unmatched closing parenthesis");
}

#[test]
fn spec_errors_name_the_line() {
    let err = parse_spec("a X true\nnospace\n").unwrap_err();
    assert!(err.starts_with("Line 2: "), "got: {}", err);
    let err = parse_spec("a X maybe\n").unwrap_err();
    assert!(err.contains("Line 1"), "got: {}", err);
    let err = parse_spec("a (ERR) unquoted\n").unwrap_err();
    assert!(err.contains("quoted"), "got: {}", err);
}

#[test]
fn spec_rejects_missing_action() {
    assert!(parse_spec("loneregex\n").is_err());
    assert!(parse_spec("a X\n").is_err());
    assert!(parse_spec("a X true extra\n").is_err());
}

#[test]
fn action_words_may_be_tab_separated() {
    let spec = parse_spec("a X\ttrue\n").unwrap();
    match &spec.rules[0].action {
        Action::Token { name, keep_lexeme } => {
            assert_eq!(name, "X");
            assert!(*keep_lexeme);
        }
        _ => panic!("expected token action"),
    }
}

#[test]
fn empty_action_is_rejected() {
    assert!(parse_spec("a \n").is_err());
    assert!(parse_spec("a (ERR) \"\n").is_err());
}

#[test]
fn crlf_lines_parse_like_lf_lines() {
    let spec = parse_spec("a X true\r\nb Y false\r\n").unwrap();
    assert_eq!(spec.rules.len(), 2);
    assert_eq!(spec.rules[0].regex, "a");
    assert_eq!(spec.rules[1].regex, "b");
}
