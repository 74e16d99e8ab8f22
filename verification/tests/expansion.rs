use lush::{expand_word, expand_word_tracked, Word, WordPart};

fn lookup(name: &str) -> Option<String> {
    match name {
        "HOME" => Some("/home/lumi".to_string()),
        "USER" => Some("lumi".to_string()),
        _ => None,
    }
}

fn expandable(s: &str) -> Word {
    Word {
        parts: vec![WordPart::Expandable(s.to_string())],
    }
}

fn literal(s: &str) -> Word {
    Word {
        parts: vec![WordPart::Literal(s.to_string())],
    }
}

#[test]
fn expands_simple_variable() {
    assert_eq!(expand_word(&expandable("$HOME"), &lookup), "/home/lumi");
}

#[test]
fn expands_braced_variable() {
    assert_eq!(expand_word(&expandable("${HOME}"), &lookup), "/home/lumi");
}

#[test]
fn expands_variable_with_surrounding_text() {
    assert_eq!(expand_word(&expandable("$HOME/Documents"), &lookup), "/home/lumi/Documents");
}

#[test]
fn braced_form_allows_adjacent_text_with_no_ambiguity() {
    assert_eq!(expand_word(&expandable("${USER}_backup"), &lookup), "lumi_backup");
}

#[test]
fn undefined_variable_expands_to_empty_string() {
    assert_eq!(expand_word(&expandable("$NOPE"), &lookup), "");
}

#[test]
fn literal_part_is_never_expanded() {
    assert_eq!(expand_word(&literal("$HOME"), &lookup), "$HOME");
}

#[test]
fn mixed_literal_and_expandable_parts_expand_independently() {
    let word = Word {
        parts: vec![
            WordPart::Literal("$HOME".to_string()),
            WordPart::Expandable("-$USER".to_string()),
        ],
    };
    assert_eq!(expand_word(&word, &lookup), "$HOME-lumi");
}

#[test]
fn lone_dollar_sign_stays_literal() {
    assert_eq!(expand_word(&expandable("cost: $5"), &lookup), "cost: $5");
}

#[test]
fn unclosed_brace_stays_literal() {
    assert_eq!(expand_word(&expandable("${HOME"), &lookup), "${HOME");
}

#[test]
fn no_dollar_sign_is_unchanged() {
    assert_eq!(expand_word(&expandable("plain text"), &lookup), "plain text");
}

#[test]
fn flags_tell_quoted_characters_apart() {
    let word = Word {
        parts: vec![
            WordPart::Expandable("a$USER".to_string()),
            WordPart::DoubleQuoted("$USER".to_string()),
            WordPart::Literal("$".to_string()),
        ],
    };
    let (text, quoted) = expand_word_tracked(&word, &lookup);
    assert_eq!(text, "alumilumi$");
    assert_eq!(
        quoted,
        vec![false, false, false, false, false, true, true, true, true, true]
    );
}

#[test]
fn value_of_a_variable_is_not_expanded_again() {
    let nested = |name: &str| -> Option<String> {
        if name == "A" {
            Some("$A".to_string())
        } else {
            None
        }
    };
    assert_eq!(expand_word(&expandable("$A${A}"), &nested), "$A$A");
}

#[test]
fn name_ends_at_the_first_other_character() {
    assert_eq!(expand_word(&expandable("$USER.txt$"), &lookup), "lumi.txt$");
    assert_eq!(expand_word(&expandable("$USER_backup"), &lookup), "");
}
