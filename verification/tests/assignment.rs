use lush::{parse_assignment, Word, WordPart};

fn expandable(s: &str) -> Word {
    Word {
        parts: vec![WordPart::Expandable(s.to_string())],
    }
}

#[test]
fn simple_assignment() {
    let words = vec![expandable("foo=bar")];
    let (name, value) = parse_assignment(&words).unwrap();
    assert_eq!(name, "foo");
    assert_eq!(value, expandable("bar"));
}

#[test]
fn assignment_with_variable_reference_stays_unexpanded() {
    let words = vec![expandable("foo=$HOME")];
    let (name, value) = parse_assignment(&words).unwrap();
    assert_eq!(name, "foo");
    assert_eq!(value, expandable("$HOME"));
}

#[test]
fn assignment_with_quoted_value_preserves_literal_part() {
    let words = vec![Word {
        parts: vec![
            WordPart::Expandable("foo=".to_string()),
            WordPart::Literal("$HOME".to_string()),
        ],
    }];
    let (name, value) = parse_assignment(&words).unwrap();
    assert_eq!(name, "foo");
    assert_eq!(
        value,
        Word {
            parts: vec![WordPart::Literal("$HOME".to_string())]
        }
    );
}

#[test]
fn empty_value_is_a_valid_assignment() {
    let words = vec![expandable("foo=")];
    let (name, value) = parse_assignment(&words).unwrap();
    assert_eq!(name, "foo");
    assert_eq!(value, Word { parts: vec![] });
}

#[test]
fn multiple_words_is_not_an_assignment() {
    let words = vec![expandable("foo=bar"), expandable("echo"), expandable("hi")];
    assert_eq!(parse_assignment(&words), None);
}

#[test]
fn invalid_identifier_is_not_an_assignment() {
    let words = vec![expandable("2foo=bar")];
    assert_eq!(parse_assignment(&words), None);
}

#[test]
fn no_equals_sign_is_not_an_assignment() {
    let words = vec![expandable("echo")];
    assert_eq!(parse_assignment(&words), None);
}

#[test]
fn quoted_name_is_not_an_assignment() {
    let words = vec![Word {
        parts: vec![WordPart::Literal("foo=bar".to_string())],
    }];
    assert_eq!(parse_assignment(&words), None);
}

#[test]
fn underscore_and_digits_allowed_after_first_char() {
    let words = vec![expandable("_my_var2=value")];
    let (name, _) = parse_assignment(&words).unwrap();
    assert_eq!(name, "_my_var2");
}

#[test]
fn only_the_first_equals_sign_splits() {
    let words = vec![expandable("a=b=c")];
    let (name, value) = parse_assignment(&words).unwrap();
    assert_eq!(name, "a");
    assert_eq!(value, expandable("b=c"));
}

#[test]
fn name_value_and_sign_make_up_the_word() {
    let word = Word {
        parts: vec![
            WordPart::Expandable("x=1".to_string()),
            WordPart::DoubleQuoted(" 2".to_string()),
        ],
    };
    let (name, value) = parse_assignment(&[word.clone()]).unwrap();
    assert_eq!(format!("{}={}", name, value.text()), word.text());
}

#[test]
fn nothing_before_the_sign_is_not_an_assignment() {
    assert_eq!(parse_assignment(&[expandable("=x")]), None);
    assert_eq!(parse_assignment(&[Word { parts: vec![] }]), None);
    assert_eq!(parse_assignment(&[]), None);
}
