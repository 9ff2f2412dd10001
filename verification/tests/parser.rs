use grammar_parser::grammar::grammar;
use grammar_parser::grammar::newline_or_eof;
use grammar_parser::grammar::or_rules;
use grammar_parser::grammar::rule;
use grammar_parser::grammar::rule_def;
use grammar_parser::grammar::rules;
use grammar_parser::grammar::ws_no_newline;
use grammar_parser::grammar::ErrorKind;
use grammar_parser::grammar::Grammar;
use grammar_parser::grammar::Rule;
use grammar_parser::eval::eval_rule;

fn lit(s: &str) -> Rule {
    Rule::RString(s.to_string())
}

fn rref(s: &str) -> Rule {
    Rule::RRule(s.to_string())
}

fn seq_rule(v: Vec<Rule>) -> Rule {
    Rule::RRuleList(v)
}

fn alt(v: Vec<Rule>) -> Rule {
    Rule::ROr(v)
}

#[test]
fn parses_single_literal_definition() {
    let g = grammar("a = \"x\"").unwrap();
    assert_eq!(g.len(), 1);
    let expected = alt(vec![seq_rule(vec![lit("x")])]);
    assert_eq!(g.get("a"), Some(&expected));
}

#[test]
fn parses_two_definitions_with_alternation() {
    let g = grammar("word = letter | letter word\nletter = \"a\"").unwrap();
    assert_eq!(g.len(), 2);
    let word = alt(vec![
        seq_rule(vec![rref("letter")]),
        seq_rule(vec![rref("letter"), rref("word")]),
    ]);
    let letter = alt(vec![seq_rule(vec![lit("a")])]);
    assert_eq!(g.get("word"), Some(&word));
    assert_eq!(g.get("letter"), Some(&letter));
}

#[test]
fn singleton_alternative_stays_wrapped() {
    let g = grammar("a = \"x\"").unwrap();
    match g.get("a") {
        Some(Rule::ROr(alts)) => {
            assert_eq!(alts.len(), 1);
            match &alts[0] {
                Rule::RRuleList(atoms) => {
                    assert_eq!(atoms.len(), 1);
                    assert!(matches!(&atoms[0], Rule::RString(s) if s == "x"));
                }
                other => panic!("alternative not wrapped in a sequence: {:?}", other),
            }
        }
        other => panic!("rule is not an alternation: {:?}", other),
    }
}

#[test]
fn trailing_garbage_reports_unparsed_input() {
    let err = grammar("a = \"x\"\n%%%").unwrap_err();
    assert_eq!(err.kind, ErrorKind::UnexpectedInput);
    assert_eq!(err.pos, 8);
    assert_eq!(err.found, "%%%");
    assert!(err.is_fatal());
}

#[test]
fn missing_terminator_fails_fatally() {
    let err = grammar("a = \"x\" %").unwrap_err();
    assert_eq!(err.kind, ErrorKind::ExpectedNewlineOrEof);
    assert_eq!(err.pos, 8);
    assert_eq!(err.found, "%");
    assert!(err.is_fatal());
}

#[test]
fn identifier_extends_a_sequence() {
    let g = grammar("a = \"x\" b").unwrap();
    let expected = alt(vec![seq_rule(vec![lit("x"), rref("b")])]);
    assert_eq!(g.get("a"), Some(&expected));
}

#[test]
fn reparsing_yields_equal_grammars() {
    let text = "word = letter | letter word\nletter = \"a\"";
    let g1 = grammar(text).unwrap();
    let g2 = grammar(text).unwrap();
    let g3 = grammar(text).unwrap();
    assert_eq!(g1, g2);
    assert_eq!(g2, g3);
}

#[test]
fn whitespace_insensitive_around_tokens() {
    let base = grammar("word = letter | letter word\nletter = \"a\"").unwrap();
    let spaced = grammar("word   =\tletter   |   letter \t word\nletter  =  \"a\"").unwrap();
    let tight = grammar("word =letter |letter word\nletter =\"a\"").unwrap();
    assert_eq!(base, spaced);
    assert_eq!(base, tight);
}

#[test]
fn duplicate_names_last_wins() {
    let g = grammar("a = \"x\"\na = \"y\"").unwrap();
    assert_eq!(g.len(), 1);
    let expected = alt(vec![seq_rule(vec![lit("y")])]);
    assert_eq!(g.get("a"), Some(&expected));
}

#[test]
fn empty_input_gives_empty_grammar() {
    let g = grammar("").unwrap();
    assert_eq!(g.len(), 0);
    let g2 = grammar(" \t\n  ").unwrap();
    assert_eq!(g2.len(), 0);
}

#[test]
fn empty_right_hand_side_is_one_empty_sequence() {
    let g = grammar("a =").unwrap();
    let expected = alt(vec![seq_rule(vec![])]);
    assert_eq!(g.get("a"), Some(&expected));
}

#[test]
fn trailing_pipe_adds_an_empty_alternative() {
    let g = grammar("a = \"x\" |").unwrap();
    let expected = alt(vec![seq_rule(vec![lit("x")]), seq_rule(vec![])]);
    assert_eq!(g.get("a"), Some(&expected));
}

#[test]
fn unterminated_literal_fails_fatally() {
    let err = grammar("a = \"x").unwrap_err();
    assert_eq!(err.kind, ErrorKind::ExpectedNewlineOrEof);
    assert_eq!(err.pos, 4);
    assert_eq!(err.found, "\"x");
}

#[test]
fn leading_and_trailing_whitespace_is_trimmed() {
    let g = grammar("\n\n  a = \"x\"  \n\n").unwrap();
    assert_eq!(g.len(), 1);
    let expected = alt(vec![seq_rule(vec![lit("x")])]);
    assert_eq!(g.get("a"), Some(&expected));
}

#[test]
fn positions_count_from_the_trimmed_input() {
    let err = grammar("\n\na = \"x\"\n%%%").unwrap_err();
    assert_eq!(err.kind, ErrorKind::UnexpectedInput);
    assert_eq!(err.pos, 8);
}

#[test]
fn indented_definition_is_unparsed_input() {
    let err = grammar("a = \"x\"\n  b = \"y\"").unwrap_err();
    assert_eq!(err.kind, ErrorKind::UnexpectedInput);
    assert_eq!(err.pos, 8);
    assert_eq!(err.found, "  b = \"y\"");
}

#[test]
fn ws_no_newline_skips_spaces_and_tabs() {
    assert_eq!(ws_no_newline("  x", 0), 2);
    assert_eq!(ws_no_newline(" \t\nx", 0), 2);
    assert_eq!(ws_no_newline("abc", 1), 1);
    assert_eq!(ws_no_newline("  ", 0), 2);
}

#[test]
fn newline_or_eof_accepts_both_ends() {
    assert_eq!(newline_or_eof("ab", 2).unwrap(), 2);
    assert_eq!(newline_or_eof("\nx", 0).unwrap(), 1);
    let err = newline_or_eof("zz z", 0).unwrap_err();
    assert_eq!(err.kind, ErrorKind::ExpectedNewlineOrEof);
    assert_eq!(err.pos, 0);
    assert_eq!(err.found, "zz");
}

#[test]
fn rule_parses_string_then_identifier() {
    assert_eq!(rule("\"abc\" rest", 0).unwrap(), (lit("abc"), 5));
    assert_eq!(rule("name42 x", 0).unwrap(), (rref("name42"), 6));
    let err = rule("%boom x", 0).unwrap_err();
    assert_eq!(err.kind, ErrorKind::ExpectedRule);
    assert_eq!(err.pos, 0);
    assert_eq!(err.found, "%boom");
    assert!(!err.is_fatal());
}

#[test]
fn rules_collects_a_sequence() {
    let (r, end) = rules("a b\nc", 0);
    assert_eq!(r, seq_rule(vec![rref("a"), rref("b")]));
    assert_eq!(end, 3);
    let (empty, at) = rules("% x", 0);
    assert_eq!(empty, seq_rule(vec![]));
    assert_eq!(at, 0);
}

#[test]
fn or_rules_collects_alternatives_in_order() {
    let (r, end) = or_rules(" a | b\n", 0);
    assert_eq!(
        r,
        alt(vec![seq_rule(vec![rref("a")]), seq_rule(vec![rref("b")])])
    );
    assert_eq!(end, 6);
}

#[test]
fn rule_def_parses_one_definition() {
    let ((name, r), end) = rule_def("a = b\nrest", 0).unwrap();
    assert_eq!(name, "a");
    assert_eq!(r, alt(vec![seq_rule(vec![rref("b")])]));
    assert_eq!(end, 6);
}

#[test]
fn rule_def_without_equals_is_recoverable() {
    let err = rule_def("a b = c", 0).unwrap_err();
    assert_eq!(err.kind, ErrorKind::ExpectedDefinition);
    assert!(!err.is_fatal());
}

#[test]
fn message_names_the_found_token() {
    let err = grammar("a = \"x\" %").unwrap_err();
    assert_eq!(err.message(), "Expected a newline or an EOF, found %");
    let err2 = grammar("a = \"x\"\n%%%").unwrap_err();
    assert_eq!(err2.message(), "Unexpected %%%");
}

#[test]
fn grammar_map_insert_overwrites_and_get_finds() {
    let mut g = Grammar::new();
    g.insert("a".to_string(), alt(vec![seq_rule(vec![lit("x")])]));
    g.insert("b".to_string(), alt(vec![seq_rule(vec![lit("z")])]));
    g.insert("a".to_string(), alt(vec![seq_rule(vec![lit("y")])]));
    assert_eq!(g.len(), 2);
    assert_eq!(g.get("a"), Some(&alt(vec![seq_rule(vec![lit("y")])])));
    assert_eq!(g.get("b"), Some(&alt(vec![seq_rule(vec![lit("z")])])));
    assert_eq!(g.get("c"), None);
}

#[test]
fn crlf_line_endings_are_accepted() {
    let g = grammar("a = \"x\"\r\nb = \"y\"").unwrap();
    assert_eq!(g.len(), 2);
    assert_eq!(g.get("b"), Some(&alt(vec![seq_rule(vec![lit("y")])])));
}

#[test]
fn unicode_whitespace_separates_tokens() {
    let g = grammar("a\u{00A0}=\u{2003}\"x\"").unwrap();
    assert_eq!(g.get("a"), Some(&alt(vec![seq_rule(vec![lit("x")])])));
}

#[test]
fn literal_may_hold_any_characters_but_a_quote() {
    let g = grammar("a = \"h\u{00E9}llo\nworld\"").unwrap();
    assert_eq!(
        g.get("a"),
        Some(&alt(vec![seq_rule(vec![lit("h\u{00E9}llo\nworld")])]))
    );
}

#[test]
fn non_ascii_rule_name_is_rejected() {
    let err = grammar("\u{00E9} = \"x\"").unwrap_err();
    assert_eq!(err.kind, ErrorKind::UnexpectedInput);
    assert_eq!(err.pos, 0);
}

#[test]
fn eval_rule_accepts_a_parsed_grammar() {
    let g = grammar("word = letter | letter word\nletter = \"a\"").unwrap();
    eval_rule("word", "aaaa", &g);
}
