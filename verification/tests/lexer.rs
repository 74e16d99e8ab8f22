use lush::{lex, Token, Word, WordPart};

fn w(s: &str) -> Token {
    Token::Word(Word {
        parts: vec![WordPart::Expandable(s.to_string())],
    })
}

fn lit(s: &str) -> Token {
    Token::Word(Word {
        parts: vec![WordPart::Literal(s.to_string())],
    })
}

#[test]
fn simple_command() {
    let tokens = lex("echo hello world");
    assert_eq!(tokens, vec![w("echo"), w("hello"), w("world"), Token::Eof]);
}

#[test]
fn pipe_inside_quotes_is_not_a_pipe() {
    let tokens = lex(r#"echo "hello | world""#);
    assert_eq!(
        tokens,
        vec![
            w("echo"),
            Token::Word(Word {
                parts: vec![WordPart::DoubleQuoted("hello | world".to_string())]
            }),
            Token::Eof,
        ]
    );
}

#[test]
fn redirect_without_whitespace() {
    let tokens = lex("echo hello>out.txt");
    assert_eq!(
        tokens,
        vec![w("echo"), w("hello"), Token::RedirectOut, w("out.txt"), Token::Eof]
    );
}

#[test]
fn redirect_with_whitespace_still_works() {
    let tokens = lex("echo hello > out.txt");
    assert_eq!(
        tokens,
        vec![w("echo"), w("hello"), Token::RedirectOut, w("out.txt"), Token::Eof]
    );
}

#[test]
fn append_redirect_glued() {
    let tokens = lex("echo hi>>out.txt");
    assert_eq!(
        tokens,
        vec![w("echo"), w("hi"), Token::RedirectAppend, w("out.txt"), Token::Eof]
    );
}

#[test]
fn input_redirect_glued() {
    let tokens = lex("sort <in.txt");
    assert_eq!(tokens, vec![w("sort"), Token::RedirectIn, w("in.txt"), Token::Eof]);
}

#[test]
fn pipeline() {
    let tokens = lex("cat file.txt | grep foo | wc -l");
    assert_eq!(
        tokens,
        vec![
            w("cat"),
            w("file.txt"),
            Token::Pipe,
            w("grep"),
            w("foo"),
            Token::Pipe,
            w("wc"),
            w("-l"),
            Token::Eof,
        ]
    );
}

#[test]
fn and_or_semicolon() {
    let tokens = lex("true && echo a || echo b ; echo c");
    assert_eq!(
        tokens,
        vec![
            w("true"),
            Token::And,
            w("echo"),
            w("a"),
            Token::Or,
            w("echo"),
            w("b"),
            Token::Semicolon,
            w("echo"),
            w("c"),
            Token::Eof,
        ]
    );
}

fn dq(s: &str) -> Token {
    Token::Word(Word {
        parts: vec![WordPart::DoubleQuoted(s.to_string())],
    })
}

#[test]
fn single_and_double_quotes() {
    let tokens = lex(r#"echo 'single' "double""#);
    assert_eq!(tokens, vec![w("echo"), lit("single"), dq("double"), Token::Eof]);
}

#[test]
fn adjacent_quoted_and_unquoted_merge_into_one_word() {
    let tokens = lex(r#"ab"c d"ef"#);
    assert_eq!(tokens.len(), 2);
    let Token::Word(merged) = &tokens[0] else {
        panic!("expected a Word token");
    };
    assert_eq!(merged.text(), "abc def");
    assert_eq!(
        tokens,
        vec![
            Token::Word(Word {
                parts: vec![
                    WordPart::Expandable("ab".to_string()),
                    WordPart::DoubleQuoted("c d".to_string()),
                    WordPart::Expandable("ef".to_string()),
                ]
            }),
            Token::Eof,
        ]
    );
}

#[test]
fn mixed_quote_word_splits_into_precise_segments() {
    let tokens = lex("'abc'def");
    assert_eq!(
        tokens,
        vec![
            Token::Word(Word {
                parts: vec![
                    WordPart::Literal("abc".to_string()),
                    WordPart::Expandable("def".to_string()),
                ]
            }),
            Token::Eof,
        ]
    );
}

#[test]
fn expandable_then_literal_segment() {
    let tokens = lex("$HOME'/literal'");
    assert_eq!(
        tokens,
        vec![
            Token::Word(Word {
                parts: vec![
                    WordPart::Expandable("$HOME".to_string()),
                    WordPart::Literal("/literal".to_string()),
                ]
            }),
            Token::Eof,
        ]
    );
}

#[test]
fn empty_input_is_just_eof() {
    assert_eq!(lex(""), vec![Token::Eof]);
}

#[test]
fn lone_ampersand_is_literal_for_now() {
    let tokens = lex("echo a & b");
    assert_eq!(tokens, vec![w("echo"), w("a"), w("&"), w("b"), Token::Eof]);
}

#[test]
fn empty_quotes_produce_zero_length_parts() {
    let tokens = lex(r#""""#);
    assert_eq!(
        tokens,
        vec![
            Token::Word(Word {
                parts: vec![WordPart::DoubleQuoted(String::new())]
            }),
            Token::Eof,
        ]
    );
    let tokens = lex("''");
    assert_eq!(
        tokens,
        vec![
            Token::Word(Word {
                parts: vec![WordPart::Literal(String::new())]
            }),
            Token::Eof,
        ]
    );
    let tokens = lex(r#"a""b"#);
    assert_eq!(tokens.len(), 2);
}

#[test]
fn embedded_newline_terminates_a_statement() {
    let tokens = lex("echo work\ntrue");
    assert_eq!(
        tokens,
        vec![w("echo"), w("work"), Token::Semicolon, w("true"), Token::Eof]
    );
}

#[test]
fn glued_2_redirects_stderr() {
    let tokens = lex("prog 2>err.txt");
    assert_eq!(
        tokens,
        vec![w("prog"), Token::RedirectErrOut, w("err.txt"), Token::Eof]
    );
}

#[test]
fn spaced_2_is_just_the_number_two() {
    let tokens = lex("echo 2 > file");
    assert_eq!(
        tokens,
        vec![w("echo"), w("2"), Token::RedirectOut, w("file"), Token::Eof]
    );
}

#[test]
fn glued_2_append_redirects_stderr() {
    let tokens = lex("prog 2>>err.txt");
    assert_eq!(
        tokens,
        vec![w("prog"), Token::RedirectErrAppend, w("err.txt"), Token::Eof]
    );
}

#[test]
fn quoted_two_is_not_an_fd_prefix() {
    let tokens = lex("prog '2'>file");
    assert_eq!(
        tokens,
        vec![w("prog"), lit("2"), Token::RedirectOut, w("file"), Token::Eof]
    );
}

#[test]
fn digit_glued_to_other_text_is_not_an_fd_prefix() {
    let tokens = lex("prog 12>file");
    assert_eq!(
        tokens,
        vec![w("prog"), w("12"), Token::RedirectOut, w("file"), Token::Eof]
    );
}

#[test]
fn ampersand_greater_than_is_redirect_both() {
    let tokens = lex("prog &>all.txt");
    assert_eq!(
        tokens,
        vec![w("prog"), Token::RedirectBoth, w("all.txt"), Token::Eof]
    );
}

#[test]
fn ampersand_ampersand_still_wins_over_ampersand_greater_than() {
    let tokens = lex("true && echo hi");
    assert_eq!(tokens, vec![w("true"), Token::And, w("echo"), w("hi"), Token::Eof]);
}

#[test]
fn every_stream_ends_with_exactly_one_eof() {
    for input in ["", "echo", "a | b && c", "'open", "a;b\nc", "2>&1"] {
        let tokens = lex(input);
        let ends = tokens.iter().filter(|t| matches!(t, Token::Eof)).count();
        assert_eq!(ends, 1);
        assert_eq!(tokens[tokens.len() - 1], Token::Eof);
    }
}

#[test]
fn newline_and_semicolon_give_the_same_tokens() {
    assert_eq!(lex("echo 'a b'\nls"), lex("echo 'a b';ls"));
    assert_ne!(lex("echo 'a\nb'"), lex("echo 'a;b'"));
}

#[test]
fn statements_lex_apart() {
    let mut expected = lex("echo \"x\"");
    expected.pop();
    expected.push(Token::Semicolon);
    expected.extend(lex("ls | wc"));
    assert_eq!(lex("echo \"x\";ls | wc"), expected);
}

#[test]
fn open_quote_swallows_the_rest() {
    assert_eq!(lex("echo don't | stop")[1], Token::Word(Word {
        parts: vec![
            WordPart::Expandable("don".to_string()),
            WordPart::Literal("t | stop".to_string()),
        ]
    }));
}

#[test]
fn the_other_quote_is_text_inside_a_quote() {
    assert_eq!(lex("\"it's\""), vec![dq("it's"), Token::Eof]);
    assert_eq!(lex("'say \"hi\"'"), vec![lit("say \"hi\""), Token::Eof]);
}

#[test]
fn tabs_separate_words() {
    assert_eq!(lex("a\tb"), vec![w("a"), w("b"), Token::Eof]);
}
