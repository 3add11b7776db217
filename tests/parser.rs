use regex_dfa::regex::{parse_regex, Base, Factor, Quantifier, RegEx, RegExError, Term};

// Helper function to simplify match assertions
fn assert_simple_char(regex: &RegEx, expected_char: char) {
    match regex {
        RegEx::SimpleRegex(Term::SimpleTerm(Factor::SimpleFactor(
            Base::Character(c),
            None,
        ))) if *c == expected_char => {}
        _ => assert!(
            false,
            "Expected simple char '{}', got {:?}",
            expected_char, regex
        ),
    }
}

fn assert_grouped_char(regex: &RegEx, expected_char: char) {
    match regex {
        RegEx::SimpleRegex(Term::SimpleTerm(Factor::SimpleFactor(
            Base::Exp(inner_regex),
            None,
        ))) => assert_simple_char(inner_regex, expected_char),
        _ => assert!(
            false,
            "Expected grouped char '{}', got {:?}",
            expected_char, regex
        ),
    }
}

fn assert_quantified_char(regex: &RegEx, expected_char: char, expected_quantifier: Quantifier) {
    match regex {
        RegEx::SimpleRegex(Term::SimpleTerm(Factor::SimpleFactor(
            Base::Character(c),
            Some(q),
        ))) if *c == expected_char => match (q, &expected_quantifier) {
            (Quantifier::Star, Quantifier::Star) => {}
            (Quantifier::Plus, Quantifier::Plus) => {}
            (Quantifier::Question, Quantifier::Question) => {}
            _ => assert!(
                false,
                "Expected quantifier {:?}, got {:?}",
                expected_quantifier, q
            ),
        },
        _ => assert!(
            false,
            "Expected quantified char '{}', got {:?}",
            expected_char, regex
        ),
    }
}

fn assert_concatenation(regex: &RegEx, first_char: char, second_char: char) {
    match regex {
        RegEx::SimpleRegex(Term::ConcatTerm(
            Factor::SimpleFactor(Base::Character(c2), None),
            box_term,
        )) if *c2 == second_char => match **box_term {
            Term::SimpleTerm(Factor::SimpleFactor(Base::Character(c1), None))
                if c1 == first_char => {}
            _ => assert!(
                false,
                "Expected first char '{}', got {:?}",
                first_char, box_term
            ),
        },
        RegEx::SimpleRegex(Term::ConcatTerm(
            Factor::SimpleFactor(Base::Character(c2), None),
            box_term,
        )) if *c2 == second_char => match **box_term {
            Term::SimpleTerm(Factor::SimpleFactor(Base::EscapeCharacter(c1), None))
                if c1 == first_char => {}
            _ => assert!(
                false,
                "Expected first char '{}', got {:?}",
                first_char, box_term
            ),
        },
        RegEx::SimpleRegex(Term::ConcatTerm(
            Factor::SimpleFactor(Base::EscapeCharacter(c2), None),
            box_term,
        )) if *c2 == second_char => match **box_term {
            Term::SimpleTerm(Factor::SimpleFactor(Base::Character(c1), None))
                if c1 == first_char => {}
            _ => assert!(
                false,
                "Expected first char '{}', got {:?}",
                first_char, box_term
            ),
        },
        RegEx::SimpleRegex(Term::ConcatTerm(
            Factor::SimpleFactor(Base::EscapeCharacter(c2), None),
            box_term,
        )) if *c2 == second_char => match **box_term {
            Term::SimpleTerm(Factor::SimpleFactor(Base::EscapeCharacter(c1), None))
                if c1 == first_char => {}
            _ => assert!(
                false,
                "Expected first char '{}', got {:?}",
                first_char, box_term
            ),
        },
        _ => assert!(
            false,
            "Expected concatenation of '{}' and '{}', got {:?}",
            first_char, second_char, regex
        ),
    }
}

fn assert_alternation(regex: &RegEx, first_char: char, second_char: char) {
    match regex {
        RegEx::AlterRegex(
            Term::SimpleTerm(Factor::SimpleFactor(Base::Character(c1), None)),
            box_regex,
        ) if *c1 == first_char => match **box_regex {
            RegEx::SimpleRegex(Term::SimpleTerm(Factor::SimpleFactor(
                Base::Character(c2),
                None,
            ))) if c2 == second_char => {}
            _ => assert!(
                false,
                "Expected second alternative '{}', got {:?}",
                second_char, box_regex
            ),
        },
        _ => assert!(
            false,
            "Expected alternation of '{}' and '{}', got {:?}",
            first_char, second_char, regex
        ),
    }
}

// Basic tests
#[test]
fn test_regex_simple_base() {
    let regex = "a";
    let result = parse_regex(regex, 0);
    assert!(result.is_ok());
    let (base, _) = result.unwrap();
    assert_simple_char(&base, 'a');
}

#[test]
fn test_regex_group_base() {
    let regex = "(a)";
    let result = parse_regex(regex, 0);
    assert!(result.is_ok());
    let (base, _) = result.unwrap();
    assert_grouped_char(&base, 'a');
}

// Additional tests for more complex patterns
#[test]
fn test_regex_quantifiers() {
    // Test star quantifier
    let regex = "a*";
    let result = parse_regex(regex, 0);
    assert!(result.is_ok());
    let (base, _) = result.unwrap();
    assert_quantified_char(&base, 'a', Quantifier::Star);

    // Test plus quantifier
    let regex = "a+";
    let result = parse_regex(regex, 0);
    assert!(result.is_ok());
    let (base, _) = result.unwrap();
    assert_quantified_char(&base, 'a', Quantifier::Plus);

    // Test question mark quantifier
    let regex = "a?";
    let result = parse_regex(regex, 0);
    assert!(result.is_ok());
    let (base, _) = result.unwrap();
    assert_quantified_char(&base, 'a', Quantifier::Question);
}

#[test]
fn test_regex_concatenation() {
    let regex = "ab";
    let result = parse_regex(regex, 0);
    assert!(result.is_ok());
    let (base, _) = result.unwrap();
    assert_concatenation(&base, 'a', 'b');
}

#[test]
fn test_hyphen_cocatenation() {
    let regex = "a-";
    let result = parse_regex(regex, 0);
    assert!(result.is_ok());
    let (base, _) = result.unwrap();
    assert_concatenation(&base, 'a', '-');
}

#[test]
fn test_escape_cocatenation() {
    let regex = "a\\?";
    let result = parse_regex(regex, 0);
    assert!(result.is_ok());
    let (base, _) = result.unwrap();
    assert_concatenation(&base, 'a', '?');
}

#[test]
fn test_regex_alternation() {
    let regex = "a|b";
    let result = parse_regex(regex, 0);
    assert!(result.is_ok());
    let (base, _) = result.unwrap();
    assert_alternation(&base, 'a', 'b');
}

// Error case tests
#[test]
fn test_unbalanced_parenthesis() {
    let regex = "(a";
    let result = parse_regex(regex, 0);
    assert!(result.is_err());
    match result.unwrap_err() {
        RegExError::UnbalancedParenthesisError(_) => assert!(true),
        err => assert!(false, "Expected UnbalancedParenthesisError, got {:?}", err),
    }
}

#[test]
fn test_invalid_escape() {
    let regex = "\\y"; // Assuming \y is not a valid escape
    let result = parse_regex(regex, 0);
    assert!(result.is_err(), "Expected Error got {:?}", result);
    match result.unwrap_err() {
        RegExError::InvalidEscapeCharacter(_) => assert!(true),
        err => assert!(false, "Expected InvalidEscapeCharacter, got {:?}", err),
    }
}

// Test for character sets
#[test]
fn test_character_set() {
    let regex = "[abc]";
    let result = parse_regex(regex, 0);
    assert!(result.is_ok());
    let (base, _) = result.unwrap();

    match base {
        RegEx::SimpleRegex(Term::SimpleTerm(Factor::SimpleFactor(
            Base::CharSet(set),
            None,
        ))) => {
            assert_eq!(set.len(), 3);
            assert!(set.contains(&'a'));
            assert!(set.contains(&'b'));
            assert!(set.contains(&'c'));
        }
        _ => assert!(false, "Expected character set, got {:?}", base),
    }
}

// Test for character range
#[test]
fn test_character_range() {
    let regex = "[a-c]";
    let result = parse_regex(regex, 0);
    assert!(result.is_ok());
    let (base, _) = result.unwrap();

    match base {
        RegEx::SimpleRegex(Term::SimpleTerm(Factor::SimpleFactor(
            Base::CharSet(set),
            None,
        ))) => {
            assert_eq!(set.len(), 3);
            assert!(set.contains(&'a'));
            assert!(set.contains(&'b'));
            assert!(set.contains(&'c'));
        }
        _ => assert!(false, "Expected character set, got {:?}", base),
    }
}

// Test for character set with escape character
#[test]
fn test_character_set_escape_char() {
    let regex = "[ab\\?]";
    let result = parse_regex(regex, 0);
    assert!(result.is_ok());
    let (base, _) = result.unwrap();

    match base {
        RegEx::SimpleRegex(Term::SimpleTerm(Factor::SimpleFactor(
            Base::CharSet(set),
            None,
        ))) => {
            assert_eq!(set.len(), 3);
            assert!(set.contains(&'a'));
            assert!(set.contains(&'b'));
            assert!(set.contains(&'?'));
        }
        _ => assert!(false, "Expected character set, got {:?}", base),
    }
}

// Test for invalid character range
#[test]
fn test_character_range_fail() {
    let regex = "[a-9]";
    let result = parse_regex(regex, 0);
    assert!(result.is_err());

    match result.unwrap_err() {
        RegExError::InvalidCharacterRange(_, _) => assert!(true),
        result => assert!(
            false,
            "Expected invalid character range error. Got {:?}",
            result
        ),
    }
}

// Test for complex nested patterns
#[test]
fn test_nested_pattern() {
    let regex = "(a|b)*c";
    let result = parse_regex(regex, 0);
    assert!(result.is_ok());
    let result = result.unwrap().0;
    println!("Got {:?}", result);

    match result {
        RegEx::SimpleRegex(Term::ConcatTerm(
            Factor::SimpleFactor(Base::Character('c'), None),
            box_term,
        )) => match *box_term {
            Term::SimpleTerm(Factor::SimpleFactor(
                Base::Exp(inner_regex),
                Some(Quantifier::Star),
            )) => match *inner_regex {
                RegEx::AlterRegex(
                    Term::SimpleTerm(Factor::SimpleFactor(Base::Character('a'), None)),
                    right,
                ) => match *right {
                    RegEx::SimpleRegex(Term::SimpleTerm(Factor::SimpleFactor(
                        Base::Character('b'),
                        None,
                    ))) => assert!(true),
                    _ => assert!(false),
                },
                _ => assert!(false),
            },
            _ => assert!(false),
        },

        _ => assert!(false),
    }
}
