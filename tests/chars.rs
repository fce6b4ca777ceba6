use json_stack::chars::{compare_letter, ends_inside, is_number, is_number_text, is_space};
use json_stack::error::SyntaxError;

#[test]
fn number_characters() {
    for c in ['1', '5', '9', '.'] {
        assert!(is_number(c));
    }
    for c in ['0', '-', 'e', '+', ' ', 'a'] {
        assert!(!is_number(c));
    }
}

#[test]
fn space_characters() {
    for c in [' ', '\n', '\t'] {
        assert!(is_space(c));
    }
    for c in ['\r', 'a', '"'] {
        assert!(!is_space(c));
    }
}

#[test]
fn compare_letter_matches_the_whole_word() {
    let text: Vec<char> = "true".chars().collect();
    assert_eq!(compare_letter(&text, &['r', 'u', 'e'], 1), Ok(()));
    assert_eq!(compare_letter(&text, &['r', 'u', 'x'], 1), Err(SyntaxError::UnexpectedCharacterAt(1)));
    assert_eq!(compare_letter(&text, &['u', 'e', 'e'], 2), Err(SyntaxError::UnexpectedCharacterAt(2)));
}

#[test]
fn number_text_grammar() {
    let text: Vec<char> = "12.5.1".chars().collect();
    assert!(is_number_text(&text, 0, 4));
    assert!(!is_number_text(&text, 0, 6));
    assert!(!is_number_text(&text, 2, 3));
    assert!(!is_number_text(&text, 0, 0));
}

#[test]
fn ends_inside_a_word() {
    let text: Vec<char> = "[fal".chars().collect();
    assert!(ends_inside(&text, &['a', 'l', 's', 'e'], 2));
    assert!(!ends_inside(&text, &['a', 'x', 's', 'e'], 2));
    assert!(!ends_inside(&text, &['a', 'l'], 2));
}
