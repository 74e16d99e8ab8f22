use lush::alias::{
    attach_redirects_to_last_command, build_alias_invocation, insert_args_into_node, try_splice_argv,
};
use lush::{parse, Node, Redirect, SimpleCommand, Word, WordPart};

fn word(s: &str) -> Word {
    Word {
        parts: vec![WordPart::Expandable(s.to_string())],
    }
}

fn words(v: &[&str]) -> Vec<Word> {
    v.iter().map(|s| word(s)).collect()
}

fn parse_node(input: &str) -> Node {
    parse(input).ok().flatten().expect("test parse failed")
}

fn cmd_words(cmd: &SimpleCommand) -> Vec<String> {
    cmd.words.iter().map(|w| w.text()).collect()
}

#[test]
fn argv_splices_at_first_occurrence_across_chain() {
    let mut node = parse_node("echo pre $argv && echo post");
    assert!(try_splice_argv(&mut node, &words(&["X", "Y"])));
    let Node::And(lhs, _) = &node else {
        panic!("expected And");
    };
    let Node::Command(cmd) = lhs.as_ref() else {
        panic!("expected Command");
    };
    assert_eq!(cmd_words(cmd), vec!["echo", "pre", "X", "Y"]);
}

#[test]
fn argv_absent_leaves_words_untouched() {
    let mut node = parse_node("echo a && echo b");
    assert!(!try_splice_argv(&mut node, &words(&["X"])));
    let Node::And(_, rhs) = &node else {
        panic!("expected And");
    };
    let Node::Command(cmd) = rhs.as_ref() else {
        panic!("expected Command");
    };
    assert_eq!(cmd_words(cmd), vec!["echo", "b"]);
}

#[test]
fn args_append_to_last_command_of_pipeline_inside_sequence() {
    let node = parse_node("echo one ; cat | grep");
    let node = insert_args_into_node(node, &words(&["Z"]));
    let Node::Sequence(_, rhs) = node else {
        panic!("expected Sequence");
    };
    let Node::Pipeline(stages) = *rhs else {
        panic!("expected Pipeline");
    };
    assert_eq!(cmd_words(&stages[1]), vec!["grep", "Z"]);
}

#[test]
fn argv_in_pipeline_stage_wins_over_appending() {
    let mut node = parse_node("cat | grep $argv | wc");
    assert!(try_splice_argv(&mut node, &words(&["pat"])));
    let Node::Pipeline(stages) = &node else {
        panic!("expected Pipeline");
    };
    assert_eq!(cmd_words(&stages[0]), vec!["cat"]);
    assert_eq!(cmd_words(&stages[1]), vec!["grep", "pat"]);
    assert_eq!(cmd_words(&stages[2]), vec!["wc"]);
}

#[test]
fn site_redirects_land_on_rightmost_leaf() {
    let mut node = parse_node("echo a && echo b");
    attach_redirects_to_last_command(
        &mut node,
        &[Redirect::Out(word("out.txt"))],
    );
    let Node::And(_, rhs) = &node else {
        panic!("expected And");
    };
    let Node::Command(cmd) = rhs.as_ref() else {
        panic!("expected Command");
    };
    assert_eq!(
        cmd.redirects,
        vec![Redirect::Out(word("out.txt"))],
    );
}

#[test]
fn full_invocation_appends_args_and_redirects() {
    let node = parse_node("echo status && echo diff");
    let node = insert_args_into_node(node, &words(&["extra"]));
    let mut node = node;
    attach_redirects_to_last_command(&mut node, &[Redirect::Append(word("log.txt"))]);
    let Node::And(lhs, rhs) = &node else {
        panic!("expected And");
    };
    let Node::Command(left) = lhs.as_ref() else {
        panic!("expected Command");
    };
    let Node::Command(right) = rhs.as_ref() else {
        panic!("expected Command");
    };
    assert_eq!(cmd_words(left), vec!["echo", "status"]);
    assert!(left.redirects.is_empty());
    assert_eq!(cmd_words(right), vec!["echo", "diff", "extra"]);
    assert_eq!(right.redirects.len(), 1);
}

#[test]
fn invocation_of_unparseable_value_is_an_error() {
    let result = build_alias_invocation("bad", "echo hi >", &[], &[]);
    match result {
        Err(msg) => assert!(msg.contains("alias 'bad'")),
        Ok(_) => panic!("expected parse error"),
    }
}

#[test]
fn invocation_of_empty_value_is_a_noop() {
    assert_eq!(
        build_alias_invocation("empty", "   ", &[], &[]),
        Ok(None)
    );
}

#[test]
fn single_command_invocation_parses_with_quoting_intact() {
    let result = build_alias_invocation("msg", r#"echo "hi there""#, &[], &[]);
    let Some(Node::Command(cmd)) = result.ok().flatten() else {
        panic!("expected single Command");
    };
    assert_eq!(cmd_words(&cmd), vec!["echo", "hi there"]);
}

#[test]
fn only_the_first_argv_is_replaced() {
    let node = insert_args_into_node(parse_node("echo $argv $argv"), &words(&["X"]));
    let Node::Command(cmd) = node else {
        panic!("expected Command");
    };
    assert_eq!(cmd_words(&cmd), vec!["echo", "X", "$argv"]);
}

#[test]
fn no_arguments_make_argv_vanish() {
    let node = insert_args_into_node(parse_node("echo a $argv b"), &[]);
    let Node::Command(cmd) = node else {
        panic!("expected Command");
    };
    assert_eq!(cmd_words(&cmd), vec!["echo", "a", "b"]);
}

#[test]
fn alone_an_alias_is_its_value() {
    assert_eq!(
        build_alias_invocation("gs", "git status && git diff > d.txt", &[], &[]),
        parse("git status && git diff > d.txt")
    );
}

#[test]
fn complaint_names_the_alias() {
    assert_eq!(
        build_alias_invocation("bad", "echo |", &[], &[]),
        Err("alias 'bad': syntax error: expected a command".to_string())
    );
}

#[test]
fn redirects_of_the_site_come_last() {
    let node = build_alias_invocation(
        "l",
        "ls > a.txt",
        &words(&["-l"]),
        &[Redirect::Out(word("b.txt"))],
    );
    let Ok(Some(Node::Command(cmd))) = node else {
        panic!("expected Command");
    };
    assert_eq!(cmd_words(&cmd), vec!["ls", "-l"]);
    assert_eq!(
        cmd.redirects,
        vec![Redirect::Out(word("a.txt")), Redirect::Out(word("b.txt"))]
    );
}

#[test]
fn a_call_is_as_typed() {
    let value = "git log | head ; echo done > d";
    assert_eq!(
        build_alias_invocation(
            "gl",
            value,
            &words(&["one", "two"]),
            &[Redirect::Out(word("f")), Redirect::ErrAppend(word("e"))],
        ),
        parse(&format!("{} one two > f 2>> e", value))
    );
}

#[test]
fn a_call_with_quotes_is_as_typed() {
    let value = "git status && git diff";
    let args = [
        Word { parts: vec![WordPart::DoubleQuoted("a b | $c".to_string())] },
        word("plain"),
        Word { parts: vec![WordPart::DoubleQuoted(String::new())] },
    ];
    let target = Word { parts: vec![WordPart::Literal("f \"g\"".to_string())] };
    assert_eq!(
        build_alias_invocation("gs", value, &args, &[Redirect::Out(target)]),
        parse(&format!("{} \"a b | $c\" plain \"\" > 'f \"g\"'", value))
    );
}
