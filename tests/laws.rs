use regex_dfa::regex::{
    balanced_brackets, build_syntax_tree, is_escape_char, nchar_is_valid, parse_microsyntax_list,
    parse_microsyntax_line, parse_regex, Base, Factor, Quantifier, RegEx, RegExError, Term,
};

fn simple_char(t: &Term, want: char) -> bool {
    matches!(t, Term::SimpleTerm(Factor::SimpleFactor(Base::Character(c), None)) if *c == want)
}

#[test]
fn parse_consumes_whole_input() {
    for p in ["a", "(a|b)*c", "[a-c]+", "a\\?", "ab|cd|e", "((a))"] {
        let (_, k) = parse_regex(p, 0).unwrap();
        assert_eq!(k, p.chars().count());
    }
}

#[test]
fn quantifier_binds_to_preceding_factor() {
    let tree = build_syntax_tree("a*b").unwrap();
    match tree {
        RegEx::SimpleRegex(Term::ConcatTerm(Factor::SimpleFactor(Base::Character('b'), None), rest)) => {
            match *rest {
                Term::SimpleTerm(Factor::SimpleFactor(Base::Character('a'), Some(Quantifier::Star))) => {}
                other => panic!("unexpected tail {:?}", other),
            }
        }
        other => panic!("unexpected tree {:?}", other),
    }
}

#[test]
fn alternation_nests_to_the_right() {
    let tree = build_syntax_tree("a|b|c").unwrap();
    match tree {
        RegEx::AlterRegex(a, rest) => {
            assert!(simple_char(&a, 'a'));
            match *rest {
                RegEx::AlterRegex(b, rest2) => {
                    assert!(simple_char(&b, 'b'));
                    match *rest2 {
                        RegEx::SimpleRegex(c) => assert!(simple_char(&c, 'c')),
                        other => panic!("unexpected {:?}", other),
                    }
                }
                other => panic!("unexpected {:?}", other),
            }
        }
        other => panic!("unexpected {:?}", other),
    }
}

#[test]
fn concatenation_of_three_nests_left() {
    let tree = build_syntax_tree("abc").unwrap();
    match tree {
        RegEx::SimpleRegex(Term::ConcatTerm(Factor::SimpleFactor(Base::Character('c'), None), t)) => match *t {
            Term::ConcatTerm(Factor::SimpleFactor(Base::Character('b'), None), t2) => {
                assert!(simple_char(&t2, 'a'))
            }
            other => panic!("unexpected {:?}", other),
        },
        other => panic!("unexpected {:?}", other),
    }
}

#[test]
fn error_unbalanced_group() {
    assert!(matches!(build_syntax_tree("(a"), Err(RegExError::UnbalancedParenthesisError(p)) if p == "(a"));
    assert!(matches!(build_syntax_tree("a)"), Err(RegExError::UnbalancedParenthesisError(_))));
    assert!(matches!(build_syntax_tree("[a"), Err(RegExError::UnbalancedParenthesisError(_))));
}

#[test]
fn error_invalid_escape_names_the_character() {
    assert!(matches!(build_syntax_tree("\\y"), Err(RegExError::InvalidEscapeCharacter('y'))));
    assert!(matches!(build_syntax_tree("[\\q]"), Err(RegExError::InvalidEscapeCharacter('q'))));
}

#[test]
fn error_reversed_range_names_both_ends() {
    assert!(matches!(build_syntax_tree("[a-9]"), Err(RegExError::InvalidCharacterRange('a', '9'))));
}

#[test]
fn error_empty_pattern() {
    assert!(matches!(build_syntax_tree(""), Err(RegExError::InvalidRegexError(p)) if p.is_empty()));
}

#[test]
fn error_metacharacter_at_base() {
    for p in ["*a", "a|*", "?", "a||b", "]"] {
        match build_syntax_tree(p) {
            Err(RegExError::InvalidRegexError(_)) | Err(RegExError::UnbalancedParenthesisError(_)) => {}
            other => panic!("{:?} gave {:?}", p, other),
        }
    }
    assert!(matches!(build_syntax_tree("a|*"), Err(RegExError::InvalidRegexError(_))));
    assert!(matches!(build_syntax_tree("a\\"), Err(RegExError::InvalidRegexError(_))));
}

#[test]
fn class_escapes_map_to_control_characters() {
    match build_syntax_tree("[\\n\\t\\]]").unwrap() {
        RegEx::SimpleRegex(Term::SimpleTerm(Factor::SimpleFactor(Base::CharSet(set), None))) => {
            assert_eq!(set.len(), 3);
            assert!(set.contains(&'\n'));
            assert!(set.contains(&'\t'));
            assert!(set.contains(&']'));
        }
        other => panic!("unexpected {:?}", other),
    }
}

#[test]
fn class_range_lists_each_character_once() {
    match build_syntax_tree("[a-da-b]").unwrap() {
        RegEx::SimpleRegex(Term::SimpleTerm(Factor::SimpleFactor(Base::CharSet(set), None))) => {
            assert_eq!(set.len(), 4);
            for c in ['a', 'b', 'c', 'd'] {
                assert!(set.contains(&c));
            }
        }
        other => panic!("unexpected {:?}", other),
    }
}

#[test]
fn class_range_across_the_surrogate_gap() {
    match build_syntax_tree("[\u{D7FF}-\u{E000}]").unwrap() {
        RegEx::SimpleRegex(Term::SimpleTerm(Factor::SimpleFactor(Base::CharSet(set), None))) => {
            assert_eq!(set.len(), 2);
        }
        other => panic!("unexpected {:?}", other),
    }
}

#[test]
fn bracket_balance_ignores_escaped_brackets() {
    assert!(balanced_brackets("(a[b])"));
    assert!(balanced_brackets("\\(a"));
    assert!(!balanced_brackets("(a]"));
    assert!(!balanced_brackets("(a"));
    assert!(balanced_brackets(""));
}

#[test]
fn character_predicates() {
    for c in ['n', 't', 'r', '\\', '(', ')', '[', ']', '|', '*', '+', '?'] {
        assert!(is_escape_char(c));
    }
    assert!(!is_escape_char('y'));
    for c in ['*', '|', '?', ')', ']'] {
        assert!(!nchar_is_valid(c));
    }
    assert!(nchar_is_valid('+'));
    assert!(nchar_is_valid('a'));
}

#[test]
fn microsyntax_list_keeps_order_and_stops_at_first_error() {
    let ok = parse_microsyntax_list(vec![
        ("a|b".to_string(), "AB".to_string()),
        ("[0-9]+".to_string(), "NUM".to_string()),
    ])
    .unwrap();
    assert_eq!(ok.len(), 2);
    assert_eq!(ok[0].0, "a|b");
    assert_eq!(ok[0].2, "AB");
    assert_eq!(ok[1].2, "NUM");
    let err = parse_microsyntax_list(vec![
        ("a".to_string(), "A".to_string()),
        ("\\y".to_string(), "Y".to_string()),
        ("(".to_string(), "P".to_string()),
    ]);
    assert!(matches!(err, Err(RegExError::InvalidEscapeCharacter('y'))));
}

#[test]
fn microsyntax_line_splits_and_unescapes() {
    let (lhs, rhs) = parse_microsyntax_line("a\\:\\:b::COLONS").unwrap();
    assert_eq!(lhs, "a::b");
    assert_eq!(rhs, "COLONS");
    let (lhs, rhs) = parse_microsyntax_line("[0-9]+::NUM").unwrap();
    assert_eq!(lhs, "[0-9]+");
    assert_eq!(rhs, "NUM");
    assert!(matches!(parse_microsyntax_line("noseparator"), Err(RegExError::MalformedMicrosyntaxError(s)) if s == "noseparator"));
    assert!(matches!(parse_microsyntax_line("a::b::c"), Err(RegExError::MalformedMicrosyntaxError(s)) if s == "a"));
}

#[test]
fn error_messages_name_the_offending_text() {
    assert_eq!(
        build_syntax_tree("(a").unwrap_err().message(),
        "Error: (a has unbalanced parenthesis!"
    );
    assert_eq!(build_syntax_tree("").unwrap_err().message(), "Error: Invalid regex provided: ");
    assert_eq!(
        build_syntax_tree("[a-9]").unwrap_err().message(),
        "Error: Invalid character range provided: a - 9"
    );
    assert_eq!(
        build_syntax_tree("\\y").unwrap_err().message(),
        "Error: Invalid escape character y  provided!"
    );
    assert_eq!(
        parse_microsyntax_line("x").unwrap_err().message(),
        "Error: Malformed microsyntax entry detected: x"
    );
    assert_eq!(RegExError::FileOpenError("gone".to_string()).message(), "gone");
}

#[test]
fn unbalanced_comes_only_from_the_bracket_check() {
    assert!(balanced_brackets("(a)"));
    assert!(matches!(parse_regex("(a)", 1), Err(RegExError::InvalidRegexError(_))));
    assert!(matches!(parse_regex("(\\y", 0), Err(RegExError::UnbalancedParenthesisError(_))));
    assert!(matches!(parse_regex("([!-])", 0), Err(RegExError::InvalidRegexError(_))));
    let (_, k) = parse_regex("ab", 1).unwrap();
    assert_eq!(k, 2);
}
