use lush::{parse, Node, Redirect, SimpleCommand, Word, WordPart};

fn word(s: &str) -> Word {
    Word {
        parts: vec![WordPart::Expandable(s.to_string())],
    }
}

fn cmd(words: &[&str]) -> SimpleCommand {
    SimpleCommand {
        words: words.iter().map(|s| word(s)).collect(),
        redirects: vec![],
    }
}

#[test]
fn single_command() {
    assert_eq!(
        parse("echo hello").unwrap(),
        Some(Node::Command(cmd(&["echo", "hello"])))
    );
}

#[test]
fn empty_input_parses_to_none() {
    assert_eq!(parse("").unwrap(), None);
}

#[test]
fn pipeline_of_two() {
    assert_eq!(
        parse("cat file.txt | grep foo").unwrap(),
        Some(Node::Pipeline(vec![
            cmd(&["cat", "file.txt"]),
            cmd(&["grep", "foo"]),
        ]))
    );
}

#[test]
fn redirect_attaches_to_its_command() {
    assert_eq!(
        parse("echo hi > out.txt").unwrap(),
        Some(Node::Command(SimpleCommand {
            words: vec![word("echo"), word("hi")],
            redirects: vec![Redirect::Out(word("out.txt"))],
        }))
    );
}

#[test]
fn redirect_glued_no_whitespace() {
    assert_eq!(parse("echo hi>out.txt").unwrap(), parse("echo hi > out.txt").unwrap());
}

#[test]
fn and_or_left_associative() {
    assert_eq!(
        parse("true && echo a || echo b").unwrap(),
        Some(Node::Or(
            Box::new(Node::And(
                Box::new(Node::Command(cmd(&["true"]))),
                Box::new(Node::Command(cmd(&["echo", "a"]))),
            )),
            Box::new(Node::Command(cmd(&["echo", "b"]))),
        ))
    );
}

#[test]
fn semicolon_sequence() {
    assert_eq!(
        parse("echo a ; echo b").unwrap(),
        Some(Node::Sequence(
            Box::new(Node::Command(cmd(&["echo", "a"]))),
            Box::new(Node::Command(cmd(&["echo", "b"]))),
        ))
    );
}

#[test]
fn pipe_binds_tighter_than_and() {
    assert_eq!(
        parse("foo && bar | grep hello").unwrap(),
        Some(Node::And(
            Box::new(Node::Command(cmd(&["foo"]))),
            Box::new(Node::Pipeline(vec![cmd(&["bar"]), cmd(&["grep", "hello"])])),
        ))
    );
}

#[test]
fn quoted_pipe_is_not_a_pipeline() {
    assert_eq!(
        parse(r#"echo "hello | world""#).unwrap(),
        Some(Node::Command(SimpleCommand {
            words: vec![
                word("echo"),
                Word {
                    parts: vec![WordPart::DoubleQuoted("hello | world".to_string())]
                },
            ],
            redirects: vec![],
        }))
    );
}

#[test]
fn empty_pipeline_stage_is_an_error() {
    assert!(parse("echo hi | | wc").is_err());
}

#[test]
fn dangling_redirect_is_an_error() {
    assert!(parse("echo hi >").is_err());
}

#[test]
fn trailing_operator_is_an_error() {
    assert!(parse("echo hi &&").is_err());
}

#[test]
fn stderr_redirect_to_file() {
    assert_eq!(
        parse("prog 2> err.txt").unwrap(),
        Some(Node::Command(SimpleCommand {
            words: vec![word("prog")],
            redirects: vec![Redirect::ErrOut(word("err.txt"))],
        }))
    );
}

#[test]
fn stderr_append_to_file() {
    assert_eq!(
        parse("prog 2>> err.txt").unwrap(),
        Some(Node::Command(SimpleCommand {
            words: vec![word("prog")],
            redirects: vec![Redirect::ErrAppend(word("err.txt"))],
        }))
    );
}

#[test]
fn stderr_duplicated_onto_stdout() {
    assert_eq!(
        parse("prog 2>&1").unwrap(),
        Some(Node::Command(SimpleCommand {
            words: vec![word("prog")],
            redirects: vec![Redirect::ErrToStdout],
        }))
    );
}

#[test]
fn both_streams_to_one_file() {
    assert_eq!(
        parse("prog &> all.txt").unwrap(),
        Some(Node::Command(SimpleCommand {
            words: vec![word("prog")],
            redirects: vec![Redirect::Both(word("all.txt"))],
        }))
    );
}

#[test]
fn stdout_file_then_stderr_duplicated_onto_it() {
    assert_eq!(
        parse("prog > out.txt 2>&1").unwrap(),
        Some(Node::Command(SimpleCommand {
            words: vec![word("prog")],
            redirects: vec![Redirect::Out(word("out.txt")), Redirect::ErrToStdout],
        }))
    );
}

#[test]
fn ampersand_two_is_just_a_filename() {
    assert_eq!(
        parse("prog 2> &2").unwrap(),
        Some(Node::Command(SimpleCommand {
            words: vec![word("prog")],
            redirects: vec![Redirect::ErrOut(word("&2"))],
        }))
    );
}

#[test]
fn error_messages_say_what_was_expected() {
    assert_eq!(
        parse("echo hi >"),
        Err("syntax error: expected a filename after '>', found Eof".to_string())
    );
    assert_eq!(
        parse("echo 2>> | cat"),
        Err("syntax error: expected a filename after '2>>', found Pipe".to_string())
    );
    assert_eq!(parse("&& a"), Err("syntax error: expected a command".to_string()));
    assert_eq!(parse("a ;; b"), Err("syntax error: expected a command".to_string()));
}

#[test]
fn trailing_semicolon_is_allowed() {
    assert_eq!(parse("echo a ;").unwrap(), parse("echo a").unwrap());
}

#[test]
fn redirect_alone_is_a_command() {
    assert_eq!(
        parse("> out.txt").unwrap(),
        Some(Node::Command(SimpleCommand {
            words: vec![],
            redirects: vec![Redirect::Out(word("out.txt"))],
        }))
    );
}

#[test]
fn sequences_group_to_the_left() {
    let Some(Node::Sequence(left, _)) = parse("a ; b ; c").unwrap() else {
        panic!("expected Sequence");
    };
    assert!(matches!(*left, Node::Sequence(_, _)));
}

#[test]
fn blank_input_parses_to_none() {
    assert_eq!(parse(" \t ").unwrap(), None);
}

fn commands(node: &Node) -> Vec<SimpleCommand> {
    match node {
        Node::Command(c) => vec![c.clone()],
        Node::Pipeline(cs) => cs.clone(),
        Node::And(l, r) | Node::Or(l, r) | Node::Sequence(l, r) => {
            let mut all = commands(l);
            all.extend(commands(r));
            all
        }
    }
}

#[test]
fn nothing_written_is_lost() {
    let node = parse("a x > f | b 2>> e y && c ; d < i ;").unwrap().unwrap();
    let all = commands(&node);
    assert_eq!(all.len(), 4);
    let words: Vec<String> = all.iter().flat_map(|c| c.words.iter().map(|w| w.text())).collect();
    assert_eq!(words, vec!["a", "x", "b", "y", "c", "d"]);
    let redirects: Vec<Redirect> = all.iter().flat_map(|c| c.redirects.clone()).collect();
    assert_eq!(
        redirects,
        vec![
            Redirect::Out(word("f")),
            Redirect::ErrAppend(word("e")),
            Redirect::In(word("i")),
        ]
    );
}

#[test]
fn statements_parse_apart() {
    let a = "x | y && z ; w";
    let b = "p || q";
    assert_eq!(
        parse(&format!("{};{}", a, b)).unwrap(),
        Some(Node::Sequence(
            Box::new(parse(a).unwrap().unwrap()),
            Box::new(parse(b).unwrap().unwrap()),
        ))
    );
}
