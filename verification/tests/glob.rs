use lush::{glob_expand_word, Word, WordPart};

const DIR: &str = "/fix";

fn entries(names: &[(&str, bool)]) -> Vec<(String, bool)> {
    names.iter().map(|(n, d)| (n.to_string(), *d)).collect()
}

fn tree(dir: &str) -> Vec<(String, bool)> {
    match dir {
        "/" => entries(&[("fix", true), ("etc", true)]),
        "/fix" => entries(&[
            ("sub", true),
            ("c.log", false),
            ("b.txt", false),
            (".hidden", false),
            ("a.txt", false),
        ]),
        "/fix/sub" => entries(&[("2.md", false), ("1.md", false)]),
        _ => Vec::new(),
    }
}

fn no_lookup(_name: &str) -> Option<String> {
    None
}

fn var_lookup(name: &str) -> Option<String> {
    if name == "PAT" {
        Some(format!("{}/*.txt", DIR))
    } else {
        None
    }
}

fn expandable(s: &str) -> Word {
    Word {
        parts: vec![WordPart::Expandable(s.to_string())],
    }
}

fn names_of(matches: Vec<String>) -> Vec<String> {
    matches.iter().map(|m| m.rsplit('/').next().unwrap().to_string()).collect()
}

#[test]
fn star_expands_and_sorts() {
    let word = expandable(&format!("{}/[ab].txt", DIR));
    assert_eq!(
        glob_expand_word(&word, &no_lookup, &tree),
        vec!["/fix/a.txt".to_string(), "/fix/b.txt".to_string()]
    );
}

#[test]
fn question_mark_matches_exactly_one_char() {
    let word = expandable(&format!("{}/?.log", DIR));
    assert_eq!(names_of(glob_expand_word(&word, &no_lookup, &tree)), vec!["c.log"]);
    let word = expandable(&format!("{}/??.log", DIR));
    assert_eq!(glob_expand_word(&word, &no_lookup, &tree), Vec::<String>::new());
    let word = expandable(&format!("{}/a?txt", DIR));
    assert_eq!(names_of(glob_expand_word(&word, &no_lookup, &tree)), vec!["a.txt"]);
}

#[test]
fn ranges_and_negation_work() {
    let word = expandable(&format!("{}/[!ab]*", DIR));
    let matched = names_of(glob_expand_word(&word, &no_lookup, &tree));
    assert_eq!(matched, vec!["c.log", "sub"]);
}

#[test]
fn quoted_star_never_expands() {
    let mut parts = vec![WordPart::Literal(format!("{}/", DIR))];
    parts.push(WordPart::Literal("*".to_string()));
    parts.push(WordPart::Expandable(".txt".to_string()));
    let word = Word { parts };
    assert_eq!(glob_expand_word(&word, &no_lookup, &tree), Vec::<String>::new());
}

#[test]
fn double_quoted_star_never_expands() {
    let mut parts = vec![WordPart::Expandable(format!("{}/", DIR))];
    parts.push(WordPart::DoubleQuoted("*".to_string()));
    parts.push(WordPart::Expandable(".txt".to_string()));
    let word = Word { parts };
    assert_eq!(glob_expand_word(&word, &no_lookup, &tree), Vec::<String>::new());

    let with_star = |dir: &str| -> Vec<(String, bool)> {
        let mut all = tree(dir);
        if dir == "/fix" {
            all.push(("end*".to_string(), false));
        }
        all
    };
    let mut parts = vec![WordPart::Expandable(format!("{}/", DIR))];
    parts.push(WordPart::Expandable("*".to_string()));
    parts.push(WordPart::DoubleQuoted("*".to_string()));
    let word = Word { parts };
    assert_eq!(names_of(glob_expand_word(&word, &no_lookup, &with_star)), vec!["end*"]);
}

#[test]
fn variable_produced_pattern_globs_like_bash() {
    let word = expandable("$PAT");
    let matches = glob_expand_word(&word, &var_lookup, &tree);
    assert_eq!(names_of(matches), vec!["a.txt", "b.txt"]);

    let word = expandable("${HOME_OVERRIDE}/*");
    let lookup = |n: &str| -> Option<String> {
        if n == "HOME_OVERRIDE" {
            Some(DIR.to_string())
        } else {
            None
        }
    };
    let matches = glob_expand_word(&word, &lookup, &tree);
    assert_eq!(names_of(matches), vec!["a.txt", "b.txt", "c.log", "sub"]);
}

#[test]
fn subdirectory_patterns_walk_components() {
    let word = expandable(&format!("{}/sub/*.md", DIR));
    assert_eq!(names_of(glob_expand_word(&word, &no_lookup, &tree)), vec!["1.md", "2.md"]);

    let word = expandable(&format!("{}/a.txt/*.md", DIR));
    assert_eq!(glob_expand_word(&word, &no_lookup, &tree), Vec::<String>::new());
}

#[test]
fn trailing_slash_means_dirs_only() {
    let word = expandable(&format!("{}/*/", DIR));
    assert_eq!(
        glob_expand_word(&word, &no_lookup, &tree),
        vec![format!("{}/sub/", DIR)]
    );
    let word = expandable(&format!("{}/a*txt/", DIR));
    assert_eq!(glob_expand_word(&word, &no_lookup, &tree), Vec::<String>::new());
    let word = expandable(&format!("{}/sub/", DIR));
    assert_eq!(glob_expand_word(&word, &no_lookup, &tree), Vec::<String>::new());
}

#[test]
fn dotfiles_need_explicit_leading_dot() {
    let word = expandable(&format!("{}/*", DIR));
    let matched = names_of(glob_expand_word(&word, &no_lookup, &tree));
    assert!(!matched.contains(&".hidden".to_string()));

    let word = expandable(&format!("{}/.*", DIR));
    assert_eq!(names_of(glob_expand_word(&word, &no_lookup, &tree)), vec![".hidden"]);
}

#[test]
fn unmatched_pattern_returns_empty_for_literal_fallback() {
    let word = expandable(&format!("{}/zzz*.txt", DIR));
    assert_eq!(glob_expand_word(&word, &no_lookup, &tree), Vec::<String>::new());
}

#[test]
fn unterminated_bracket_is_a_literal_bracket() {
    let word = expandable(&format!("{}/[ab", DIR));
    assert_eq!(glob_expand_word(&word, &no_lookup, &tree), Vec::<String>::new());
    let odd = |dir: &str| -> Vec<(String, bool)> {
        if dir.is_empty() {
            entries(&[("[ab", false), ("a", false)])
        } else {
            Vec::new()
        }
    };
    assert_eq!(glob_expand_word(&expandable("[ab"), &no_lookup, &odd), vec!["[ab"]);
}

fn flat(names: &'static [&'static str]) -> impl Fn(&str) -> Vec<(String, bool)> {
    move |dir: &str| {
        if dir.is_empty() {
            names.iter().map(|n| (n.to_string(), false)).collect()
        } else {
            Vec::new()
        }
    }
}

#[test]
fn relative_patterns_stay_relative() {
    let list = flat(&["b", "a", "c"]);
    assert_eq!(glob_expand_word(&expandable("*"), &no_lookup, &list), vec!["a", "b", "c"]);
}

#[test]
fn classes_take_ranges_dashes_and_brackets() {
    let list = flat(&["a", "d", "z", "-", "]", "!"]);
    let expand = |p: &str| glob_expand_word(&expandable(p), &no_lookup, &list);
    assert_eq!(expand("[a-e]"), vec!["a", "d"]);
    assert_eq!(expand("[a-]"), vec!["-", "a"]);
    assert_eq!(expand("[]a]"), vec!["]", "a"]);
    assert_eq!(expand("[!]a]"), vec!["!", "-", "d", "z"]);
    assert_eq!(expand("[^a-z]"), vec!["!", "-", "]"]);
    assert_eq!(expand("[a!]"), vec!["!", "a"]);
}

#[test]
fn quoted_signs_inside_a_class_are_members() {
    let list = flat(&["a", "b", "c", "-", "]", "!"]);
    let quote = |before: &str, quoted: &str, behind: &str| {
        let word = Word {
            parts: vec![
                WordPart::Expandable(before.to_string()),
                WordPart::Literal(quoted.to_string()),
                WordPart::Expandable(behind.to_string()),
            ],
        };
        glob_expand_word(&word, &no_lookup, &list)
    };
    assert_eq!(quote("[a", "-", "c]"), vec!["-", "a", "c"]);
    assert_eq!(quote("[a", "]", "b]"), vec!["]", "a", "b"]);
    assert_eq!(quote("[", "!", "a]"), vec!["!", "a"]);
}

#[test]
fn order_is_by_character() {
    let list = flat(&["b", "B", "ab", "a", "\u{e9}"]);
    assert_eq!(
        glob_expand_word(&expandable("*"), &no_lookup, &list),
        vec!["B", "a", "ab", "b", "\u{e9}"]
    );
}

#[test]
fn pattern_may_lead_through_several_directories() {
    assert_eq!(
        glob_expand_word(&expandable("/*/s*//[12].md"), &no_lookup, &tree),
        vec!["/fix/sub/1.md", "/fix/sub/2.md"]
    );
}
