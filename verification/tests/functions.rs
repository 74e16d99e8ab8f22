use lush::builtin::write_function_file;
use lush::functions::{parse_function_block, read_function_file, stem_of};
use lush::order::{comes_before, sort_texts};
use lush::path::{expand_tilde, looks_like_path_token};
use lush::prompt::{get_hostname, shorten};
use lush::shell::{Shell, Table};

fn pair(a: &str, b: &str) -> Option<(String, String)> {
    Some((a.to_string(), b.to_string()))
}

#[test]
fn function_block_gives_name_and_body() {
    let file = "# bluetooth\n\nfunction btctl --wraps=bluetoothctl --description 'alias btctl=bluetoothctl'\n    bluetoothctl $argv\nend\n";
    assert_eq!(
        parse_function_block(file),
        (pair("btctl", "bluetoothctl $argv"), vec![])
    );
}

#[test]
fn body_lines_are_joined() {
    let file = "function f\r\n  a\r\n  # no\r\n\r\n  b | c\r\nend\r\nafter\r\n";
    assert_eq!(parse_function_block(file), (pair("f", "a b | c"), vec![]));
}

#[test]
fn unended_block_is_warned_about() {
    let (alias, warnings) = parse_function_block("function f\n  a\n");
    assert_eq!(alias, pair("f", "a"));
    assert_eq!(warnings, vec!["lush: functions: warning: function 'f' has no matching 'end'"]);
}

#[test]
fn empty_body_defines_nothing() {
    let (alias, warnings) = parse_function_block("function f\nend");
    assert_eq!(alias, None);
    assert_eq!(warnings, vec!["lush: functions: warning: function 'f' has an empty body"]);
}

#[test]
fn other_files_have_no_block() {
    assert_eq!(parse_function_block(""), (None, vec![]));
    assert_eq!(parse_function_block("# only a comment"), (None, vec![]));
    assert_eq!(parse_function_block("functional f\nend"), (None, vec![]));
    assert_eq!(parse_function_block("function\n  a\nend"), (None, vec![]));
}

#[test]
fn plain_files_are_joined() {
    assert_eq!(
        read_function_file("ll", "/f/ll.lush", "# list\nls\n  -la  \n\n"),
        (pair("ll", "ls -la"), vec![])
    );
    assert_eq!(
        read_function_file("ll", "/f/ll.lush", "# list\n"),
        (None, vec!["lush: functions: /f/ll.lush: file has no content".to_string()])
    );
}

#[test]
fn filename_should_match_the_function() {
    let (alias, warnings) = read_function_file("a", "/f/a.lush", "function b\n x\nend\n");
    assert_eq!(alias, pair("b", "x"));
    assert_eq!(
        warnings,
        vec!["lush: functions: warning: /f/a.lush defines 'b', but filename suggests 'a'"]
    );
}

#[test]
fn only_lush_files_hold_functions() {
    assert_eq!(stem_of("ll.lush"), Some("ll".to_string()));
    assert_eq!(stem_of("a.b.lush"), Some("a.b".to_string()));
    assert_eq!(stem_of(".lush"), None);
    assert_eq!(stem_of("ll.txt"), None);
    assert_eq!(stem_of("lush"), None);
}

#[test]
fn saved_file_has_the_block_form() {
    let file = write_function_file("gs", "git status && git diff");
    assert_eq!(
        file,
        "function gs --wraps=git --description 'alias gs=git status && git diff'\n    git status && git diff $argv\nend\n"
    );
    assert_eq!(
        parse_function_block(&file),
        (pair("gs", "git status && git diff $argv"), vec![])
    );
    assert_eq!(
        write_function_file("e", ""),
        "function e --wraps=e --description 'alias e='\n     $argv\nend\n"
    );
}

#[test]
fn tilde_expands_only_in_front() {
    assert_eq!(expand_tilde("~", "/home/me"), "/home/me");
    assert_eq!(expand_tilde("~/x", "/home/me"), "/home/me/x");
    assert_eq!(expand_tilde("~x", "/home/me"), "~x");
    assert_eq!(expand_tilde("a/~", "/home/me"), "a/~");
}

#[test]
fn path_tokens() {
    for token in ["..", ".", "~", "~user", "a/b", "/"] {
        assert!(looks_like_path_token(token));
    }
    for token in ["", "Documents", "...", "a.b"] {
        assert!(!looks_like_path_token(token));
    }
}

#[test]
fn home_is_shown_as_a_tilde() {
    assert_eq!(shorten("/home/me", "/home/me"), "~");
    assert_eq!(shorten("/home/me/x", "/home/me"), "~/x");
    assert_eq!(shorten("/home/meow", "/home/me"), "/home/meow");
    assert_eq!(shorten("/home/me", ""), "/home/me");
}

#[test]
fn prompt_names_place_user_and_host() {
    let mut env = Table::new();
    env.insert("HOME".to_string(), "/home/me".to_string());
    let mut shell = Shell::new(env);
    assert_eq!(shell.build_prompt("/home/me/src", "box"), "~/src: user@box\n\u{27e9} ");
    shell.env.insert("LOGNAME".to_string(), "log".to_string());
    assert_eq!(shell.get_username(), "log");
    shell.env.insert("USER".to_string(), "me".to_string());
    assert_eq!(shell.build_prompt("/", "box"), "/: me@box\n\u{27e9} ");
    assert_eq!(shell.history_file_path(), Some("/home/me/.lush_history".to_string()));
    assert_eq!(shell.rc_file_path(), Some("/home/me/.lushrc".to_string()));
    shell.env.remove("HOME");
    assert_eq!(shell.history_file_path(), None);
}

#[test]
fn hostname_falls_back() {
    let text = |s: &str| Some(s.to_string());
    assert_eq!(get_hostname(text("box\n"), None), "box");
    assert_eq!(get_hostname(text(" \n"), text("other\n")), "other");
    assert_eq!(get_hostname(None, None), "localhost");
}

#[test]
fn tables_keep_one_row_per_name_in_order() {
    let mut t = Table::new();
    for name in ["b", "a", "c", "a"] {
        t.insert(name.to_string(), format!("{}!", name));
    }
    t.insert("b".to_string(), "new".to_string());
    assert_eq!(t.get("b"), Some("new".to_string()));
    assert!(t.remove("c"));
    assert!(!t.remove("c"));
    let rows: Vec<String> = t.rows().iter().map(|(n, v)| format!("{}={}", n, v)).collect();
    assert_eq!(rows, vec!["a=a!", "b=new"]);
}

#[test]
fn texts_are_ordered_by_character() {
    assert!(comes_before("a", "ab"));
    assert!(comes_before("", "a"));
    assert!(!comes_before("a", "a"));
    assert!(comes_before("Z", "a"));
    let sorted = sort_texts(vec!["b".to_string(), "a".to_string(), "b".to_string()]);
    assert_eq!(sorted, vec!["a", "b", "b"]);
}

#[test]
fn blocks_are_never_read_as_plain_lines() {
    let (alias, warnings) = read_function_file("foo", "/f/foo.lush", "function foo\nend\n");
    assert_eq!(alias, None);
    assert_eq!(warnings, vec!["lush: functions: warning: function 'foo' has an empty body"]);
    let (alias, warnings) = read_function_file("foo", "/f/foo.lush", "function foo\n# x\nend\nls");
    assert_eq!(alias, None);
    assert_eq!(warnings.len(), 1);

    let mut shell = Shell::new(Table::new());
    shell.load_function_file("foo", "/f/foo.lush", "function foo\nend\n");
    shell.load_function_file("old", "/f/old.lush", "# c\nls\n-la\n");
    assert_eq!(shell.aliases.get("foo"), None);
    assert_eq!(shell.aliases.get("old"), Some("ls -la".to_string()));
}

#[test]
fn headers_without_a_block_are_plain_lines() {
    let (alias, warnings) = read_function_file("foo", "/f/foo.lush", "function foo\n");
    assert_eq!(alias, pair("foo", "function foo"));
    assert_eq!(
        warnings,
        vec![
            "lush: functions: warning: function 'foo' has no matching 'end'",
            "lush: functions: warning: function 'foo' has an empty body",
        ]
    );
    assert_eq!(
        read_function_file("f", "/f/f.lush", "function\n  a\nend\n"),
        (pair("f", "function a end"), vec![])
    );
    let (alias, _) = read_function_file("f", "/f/f.lush", "function f\n  a\n");
    assert_eq!(alias, pair("f", "a"));
}
