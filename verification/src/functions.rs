//! Function files and scripts.
//!
//! A function file defines one alias, in the form
//!
//! ```text
//! function btctl --wraps=bluetoothctl --description 'alias btctl=bluetoothctl'
//!     bluetoothctl $argv
//! end
//! ```
//!
//! A file without such a block defines the alias that its filename says: all of
//! its lines that are neither blank nor comments, joined with spaces.

use vstd::prelude::*;

use crate::exit::{leaves, EXIT_SENTINEL};
use crate::lexer::{lex, lexed};
use crate::path::{starts, starts_with};
use crate::shell::Shell;
use crate::text::{
    join_spaced, lines_trimmed, same, slice_text, spaced, texts, to_chars, trimmed_lines,
};
use crate::word::{text_of, tokens_view, Tok, Token};

verus! {

// ---------------------------------------------------------------------
// Lines
// ---------------------------------------------------------------------

/// Whether a trimmed line says nothing: it is blank or a comment.
pub open spec fn idle(line: Seq<char>) -> bool {
    line.len() == 0 || line[0] == '#'
}

/// The lines that say something.
pub open spec fn working(lines: Seq<Seq<char>>) -> Seq<Seq<char>>
    decreases lines.len(),
{
    if lines.len() == 0 {
        Seq::empty()
    } else if idle(lines.last()) {
        working(lines.drop_last())
    } else {
        working(lines.drop_last()).push(lines.last())
    }
}

/// The first line at or after `i` that says something, or the number of lines.
pub open spec fn working_from(lines: Seq<Seq<char>>, i: int) -> int
    decreases lines.len() - i,
{
    if i >= lines.len() {
        lines.len() as int
    } else if idle(lines[i]) {
        working_from(lines, i + 1)
    } else {
        i
    }
}

/// The first line at or after `i` that reads `end`, or the number of lines.
pub open spec fn end_from(lines: Seq<Seq<char>>, i: int) -> int
    decreases lines.len() - i,
{
    if i >= lines.len() {
        lines.len() as int
    } else if lines[i] == "end"@ {
        i
    } else {
        end_from(lines, i + 1)
    }
}

fn is_idle(line: &str) -> (r: bool)
    ensures
        r == idle(line@),
{
    let chars: Vec<char> = to_chars(line);
    chars.len() == 0 || chars[0] == '#'
}

/// The lines of `lines[from..to]` that say something.
fn working_lines(lines: &[String], from: usize, to: usize) -> (r: Vec<String>)
    requires
        from <= to <= lines@.len(),
    ensures
        texts(r@) == working(texts(lines@).subrange(from as int, to as int)),
{
    let ghost all = texts(lines@);
    let mut out: Vec<String> = Vec::new();
    let mut i: usize = from;
    assert(all.subrange(from as int, from as int) =~= Seq::empty());
    assert(texts(out@) =~= Seq::empty());
    while i < to
        invariant
            from <= i <= to <= lines@.len(),
            all == texts(lines@),
            texts(out@) == working(all.subrange(from as int, i as int)),
        decreases to - i,
    {
        let ghost done = texts(out@);
        proof {
            let next = all.subrange(from as int, i + 1);
            assert(next.drop_last() =~= all.subrange(from as int, i as int));
            assert(next.last() == lines@[i as int]@);
        }
        if !is_idle(&lines[i]) {
            out.push(lines[i].clone());
            assert(texts(out@) =~= done.push(lines@[i as int]@));
        }
        i = i + 1;
    }
    out
}

// ---------------------------------------------------------------------
// Function files
// ---------------------------------------------------------------------

/// The texts of the words among the tokens.
pub open spec fn word_texts(tokens: Seq<Tok>) -> Seq<Seq<char>>
    decreases tokens.len(),
{
    if tokens.len() == 0 {
        Seq::empty()
    } else {
        let before = word_texts(tokens.drop_last());
        match tokens.last() {
            Tok::Word(w) => before.push(text_of(w)),
            _ => before,
        }
    }
}

/// Whether a line is the header of a block.
pub open spec fn is_header(line: Seq<char>) -> bool {
    starts(line, "function "@) || line == "function"@
}

/// The name that a header line defines, if the line is a header with a name.
pub open spec fn header_name(header: Seq<char>) -> Option<Seq<char>> {
    if !is_header(header) {
        None
    } else {
        let words = word_texts(lexed(header));
        if words.len() > 1 {
            Some(words[1])
        } else {
            None
        }
    }
}

/// Whether a file holds a block: its first line that says something is a header
/// with a name, and behind it comes an `end`, or a body without one.
pub open spec fn has_block(contents: Seq<char>) -> bool {
    let lines = trimmed_lines(contents);
    let at = working_from(lines, 0);
    let end = end_from(lines, at + 1);
    &&& at < lines.len()
    &&& header_name(lines[at]) is Some
    &&& end < lines.len() || working(lines.subrange(at + 1, end)).len() > 0
}

/// What a function file comes to: the alias that it defines, if any, and what is
/// to be said about it.
#[verifier::ext_equal]
pub struct Definition {
    pub alias: Option<(Seq<char>, Seq<char>)>,
    pub warnings: Seq<Seq<char>>,
}

/// What a block comes to whose header names `name` and whose body starts at line
/// `from`.
pub open spec fn block_body(lines: Seq<Seq<char>>, from: int, name: Seq<char>) -> Definition {
    let end = end_from(lines, from);
    let body = working(lines.subrange(from, end));
    let unended = if end < lines.len() {
        Seq::empty()
    } else {
        seq!["lush: functions: warning: function '"@ + name + "' has no matching 'end'"@]
    };
    if body.len() == 0 {
        Definition {
            alias: None,
            warnings: unended.push(
                "lush: functions: warning: function '"@ + name + "' has an empty body"@,
            ),
        }
    } else {
        Definition { alias: Some((name, spaced(body))), warnings: unended }
    }
}

/// What the `function` ... `end` block of a file comes to. It defines nothing
/// if the first line that says something is no header, or one without a name, or
/// if the body is empty.
pub open spec fn function_block(contents: Seq<char>) -> Definition {
    let lines = trimmed_lines(contents);
    let at = working_from(lines, 0);
    if at < lines.len() && header_name(lines[at]) is Some {
        block_body(lines, at + 1, header_name(lines[at])->0)
    } else {
        Definition { alias: None, warnings: Seq::empty() }
    }
}

/// What a function file comes to. `stem` is its filename without the extension,
/// and `path` how it is named in messages. A file without a block is read as plain
/// lines, and only such a file.
pub open spec fn function_definition(
    stem: Seq<char>,
    path: Seq<char>,
    contents: Seq<char>,
) -> Definition {
    let block = function_block(contents);
    if has_block(contents) {
        match block.alias {
            Some((name, value)) => if name == stem {
                block
            } else {
                Definition {
                    warnings: block.warnings.push(
                        "lush: functions: warning: "@ + path + " defines '"@ + name
                            + "', but filename suggests '"@ + stem + "'"@,
                    ),
                    ..block
                }
            },
            None => block,
        }
    } else {
        let value = spaced(working(trimmed_lines(contents)));
        if value.len() == 0 {
            Definition {
                alias: None,
                warnings: block.warnings.push(
                    "lush: functions: "@ + path + ": file has no content"@,
                ),
            }
        } else {
            Definition { alias: Some((stem, value)), warnings: block.warnings }
        }
    }
}

/// Whether an alias that was found is the one that is defined.
pub open spec fn same_alias(
    found: Option<(String, String)>,
    alias: Option<(Seq<char>, Seq<char>)>,
) -> bool {
    match alias {
        Some((name, value)) => found is Some && (found->0).0@ == name && (found->0).1@ == value,
        None => found is None,
    }
}

/// The texts of the words among the tokens.
fn words_of(tokens: &[Token]) -> (r: Vec<String>)
    ensures
        texts(r@) == word_texts(tokens_view(tokens@)),
{
    let ghost all = tokens_view(tokens@);
    let mut out: Vec<String> = Vec::new();
    let mut i: usize = 0;
    assert(all.take(0) =~= Seq::empty());
    assert(texts(out@) =~= Seq::empty());
    while i < tokens.len()
        invariant
            i <= tokens@.len(),
            all == tokens_view(tokens@),
            texts(out@) == word_texts(all.take(i as int)),
        decreases tokens@.len() - i,
    {
        let ghost done = texts(out@);
        proof {
            assert(all.take(i + 1).drop_last() =~= all.take(i as int));
            assert(all.take(i + 1).last() == tokens@[i as int]@);
        }
        if let Token::Word(w) = &tokens[i] {
            let text: String = w.text();
            out.push(text);
            assert(texts(out@) =~= done.push(text@));
        }
        i = i + 1;
    }
    assert(all.take(i as int) =~= all);
    out
}

/// Whether a line is the header of a block.
fn reads_as_header(line: &str) -> (r: bool)
    ensures
        r == is_header(line@),
{
    starts_with(line, "function ") || same(line, "function")
}

/// The first of the lines that says something, or their number.
fn first_working(lines: &[String]) -> (at: usize)
    ensures
        at == working_from(texts(lines@), 0),
        at <= lines@.len(),
{
    let ghost all = texts(lines@);
    let mut at: usize = 0;
    while at < lines.len() && is_idle(&lines[at])
        invariant
            at <= lines@.len(),
            all == texts(lines@),
            working_from(all, at as int) == working_from(all, 0),
        decreases lines@.len() - at,
    {
        assert(all[at as int] == lines@[at as int]@);
        at = at + 1;
    }
    assert(at < lines@.len() ==> all[at as int] == lines@[at as int]@);
    at
}

/// The name that a header line defines.
fn name_in_header(header: &str) -> (r: Option<String>)
    ensures
        r is Some == header_name(header@) is Some,
        r is Some ==> r->0@ == header_name(header@)->0,
{
    if !reads_as_header(header) {
        return None;
    }
    let words: Vec<String> = words_of(&lex(header));
    if words.len() > 1 {
        Some(words[1].clone())
    } else {
        None
    }
}

/// The first of the lines at or after `from` that reads `end`, or their number.
fn find_end(lines: &[String], from: usize) -> (end: usize)
    requires
        from <= lines@.len(),
    ensures
        end == end_from(texts(lines@), from as int),
        from <= end <= lines@.len(),
{
    let ghost all = texts(lines@);
    let mut end: usize = from;
    while end < lines.len() && !same(&lines[end], "end")
        invariant
            from <= end <= lines@.len(),
            all == texts(lines@),
            end_from(all, end as int) == end_from(all, from as int),
        decreases lines@.len() - end,
    {
        assert(all[end as int] == lines@[end as int]@);
        end = end + 1;
    }
    assert(end < lines@.len() ==> all[end as int] == lines@[end as int]@);
    end
}

/// Whether a file holds a block.
fn holds_block(contents: &str) -> (r: bool)
    ensures
        r == has_block(contents@),
{
    let lines: Vec<String> = lines_trimmed(contents);
    let ghost all = trimmed_lines(contents@);
    let at: usize = first_working(&lines);
    if at >= lines.len() {
        return false;
    }
    assert(all[at as int] == lines@[at as int]@);
    if name_in_header(&lines[at]).is_none() {
        return false;
    }
    let end: usize = find_end(&lines, at + 1);
    end < lines.len() || working_lines(&lines, at + 1, end).len() > 0
}

/// Reads the `function` ... `end` block of a file: the name and value of the
/// alias that it defines, if it defines one, and what is to be said about it.
pub fn parse_function_block(contents: &str) -> (r: (Option<(String, String)>, Vec<String>))
    ensures
        same_alias(r.0, function_block(contents@).alias),
        texts(r.1@) == function_block(contents@).warnings,
{
    let lines: Vec<String> = lines_trimmed(contents);
    let ghost all = trimmed_lines(contents@);
    let n: usize = lines.len();
    let mut warnings: Vec<String> = Vec::new();
    let ghost none: Seq<Seq<char>> = Seq::empty();
    assert(texts(warnings@) =~= none);
    let at: usize = first_working(&lines);
    if at >= n {
        return (None, warnings);
    }
    assert(all[at as int] == lines@[at as int]@);
    let name: String = match name_in_header(&lines[at]) {
        Some(name) => name,
        None => {
            return (None, warnings);
        },
    };
    let from: usize = at + 1;
    let end: usize = find_end(&lines, from);
    let body: Vec<String> = working_lines(&lines, from, end);
    if end >= n {
        let mut message: String = "lush: functions: warning: function '".to_owned();
        message.append(&name);
        message.append("' has no matching 'end'");
        warnings.push(message);
        assert(texts(warnings@) =~= seq![message@]);
    }
    if body.len() == 0 {
        let ghost before = texts(warnings@);
        let mut message: String = "lush: functions: warning: function '".to_owned();
        message.append(&name);
        message.append("' has an empty body");
        warnings.push(message);
        assert(texts(warnings@) =~= before.push(message@));
        return (None, warnings);
    }
    let value: String = join_spaced(&body);
    (Some((name, value)), warnings)
}

/// Reads a function file: the alias that it defines, and what is to be said
/// about it.
pub fn read_function_file(stem: &str, path: &str, contents: &str) -> (r: (
    Option<(String, String)>,
    Vec<String>,
))
    ensures
        same_alias(r.0, function_definition(stem@, path@, contents@).alias),
        texts(r.1@) == function_definition(stem@, path@, contents@).warnings,
{
    let (found, mut warnings) = parse_function_block(contents);
    let ghost before = texts(warnings@);
    if holds_block(contents) {
        if let Some((name, _)) = &found {
            if !same(name, stem) {
                let mut message: String = "lush: functions: warning: ".to_owned();
                message.append(path);
                message.append(" defines '");
                message.append(name);
                message.append("', but filename suggests '");
                message.append(stem);
                message.append("'");
                warnings.push(message);
                assert(texts(warnings@) =~= before.push(message@));
            }
        }
        return (found, warnings);
    }
    let lines: Vec<String> = lines_trimmed(contents);
    let rest: Vec<String> = working_lines(&lines, 0, lines.len());
    proof {
        let all = trimmed_lines(contents@);
        assert(all.subrange(0, all.len() as int) =~= all);
    }
    let value: String = join_spaced(&rest);
    if value.as_str().is_empty() {
        let mut message: String = "lush: functions: ".to_owned();
        message.append(path);
        message.append(": file has no content");
        warnings.push(message);
        assert(texts(warnings@) =~= before.push(message@));
        (None, warnings)
    } else {
        (Some((stem.to_owned(), value)), warnings)
    }
}

/// The name of the function that a file of this name holds: what stands before
/// the extension `.lush`.
pub open spec fn function_stem(file: Seq<char>) -> Option<Seq<char>> {
    let n = file.len() - 5;
    if n > 0 && file.skip(n) == ".lush"@ {
        Some(file.take(n))
    } else {
        None
    }
}

/// The name of the function that a file of this name holds, if it holds one.
pub fn stem_of(file: &str) -> (r: Option<String>)
    ensures
        r is Some == function_stem(file@) is Some,
        r is Some ==> r->0@ == function_stem(file@)->0,
{
    let chars: Vec<char> = to_chars(file);
    if chars.len() <= 5 {
        return None;
    }
    let n: usize = chars.len() - 5;
    let extension: String = slice_text(&chars, n, chars.len());
    assert(extension@ =~= file@.skip(n as int));
    if same(&extension, ".lush") {
        let stem: String = slice_text(&chars, 0, n);
        assert(stem@ =~= file@.take(n as int));
        Some(stem)
    } else {
        None
    }
}

/// `aliases` with one more, if there is one, in place of what had its name.
pub open spec fn aliases_with(
    aliases: Map<Seq<char>, Seq<char>>,
    alias: Option<(Seq<char>, Seq<char>)>,
) -> Map<Seq<char>, Seq<char>> {
    match alias {
        Some((name, value)) => aliases.insert(name, value),
        None => aliases,
    }
}

impl Shell {
    /// Defines the alias that a function file holds. What is to be said about
    /// the file.
    pub fn load_function_file(&mut self, stem: &str, path: &str, contents: &str) -> (r: Vec<
        String,
    >)
        ensures
            final(self).vars@ == old(self).vars@,
            final(self).env@ == old(self).env@,
            final(self).aliases@ == aliases_with(
                old(self).aliases@,
                function_definition(stem@, path@, contents@).alias,
            ),
            texts(r@) == function_definition(stem@, path@, contents@).warnings,
    {
        let (found, warnings) = read_function_file(stem, path, contents);
        if let Some((name, value)) = found {
            self.aliases.insert(name, value);
        }
        warnings
    }
}

// ---------------------------------------------------------------------
// Scripts
// ---------------------------------------------------------------------

/// What is left of a script once `n` of its lines have run, the last of them with
/// `status`, when line `k` ends with `ends(k)`: the number of lines that have run
/// in the end, and the status of the script.
pub open spec fn script_rest(
    lines: Seq<Seq<char>>,
    ends: spec_fn(int) -> i32,
    n: int,
    status: i32,
) -> (int, i32)
    decreases lines.len() - n,
{
    if leaves(status) {
        (n, status)
    } else if n >= lines.len() {
        (n, 0)
    } else {
        script_rest(lines, ends, n + 1, ends(n))
    }
}

/// A script that is being run, line by line.
#[derive(Debug)]
pub struct Script {
    lines: Vec<String>,
    at: usize,
}

/// What comes next in a script.
#[derive(Debug)]
pub enum ScriptNext {
    /// Run this line, and report its status.
    Run(String),
    /// The script is over, with this status.
    Done(i32),
}

impl Script {
    /// The lines that say something.
    pub closed spec fn lines(&self) -> Seq<Seq<char>> {
        texts(self.lines@)
    }

    /// The number of lines that were handed out.
    pub closed spec fn handed_out(&self) -> nat {
        self.at as nat
    }

    /// A script with the given contents. Blank lines and comments are left out.
    pub fn new(contents: &str) -> (r: Self)
        ensures
            r.lines() == working(trimmed_lines(contents@)),
            r.handed_out() == 0,
    {
        let all: Vec<String> = lines_trimmed(contents);
        let lines: Vec<String> = working_lines(&all, 0, all.len());
        proof {
            let view = trimmed_lines(contents@);
            assert(view.subrange(0, view.len() as int) =~= view);
        }
        Script { lines, at: 0 }
    }

    /// Goes on after a line that ended with `status`, which is 0 before the
    /// first. The script is over when its lines are, with status 0, or as soon
    /// as a line asks to leave, with the status that asks for it.
    pub fn advance(&mut self, status: i32) -> (r: ScriptNext)
        ensures
            final(self).lines() == old(self).lines(),
            ({
                let n = old(self).handed_out();
                if leaves(status) {
                    &&& final(self).handed_out() == n
                    &&& r == ScriptNext::Done(status)
                } else if n < old(self).lines().len() {
                    &&& final(self).handed_out() == n + 1
                    &&& r is Run
                    &&& r->Run_0@ == old(self).lines()[n as int]
                } else {
                    &&& final(self).handed_out() == n
                    &&& r == ScriptNext::Done(0)
                }
            }),
            ({
                let n = old(self).handed_out() as int;
                let lines = old(self).lines();
                forall|ends: spec_fn(int) -> i32| #[trigger]
                    script_rest(lines, ends, n, status) == match r {
                        ScriptNext::Run(_) => script_rest(lines, ends, n + 1, ends(n)),
                        ScriptNext::Done(s) => (n, s),
                    }
            }),
    {
        if status >= EXIT_SENTINEL {
            return ScriptNext::Done(status);
        }
        if self.at < self.lines.len() {
            let line: String = self.lines[self.at].clone();
            self.at = self.at + 1;
            ScriptNext::Run(line)
        } else {
            ScriptNext::Done(0)
        }
    }
}

/// A script runs its lines in order, up to the first that asks to leave, whose
/// status it takes. If none does, all of them run and the status is 0.
pub proof fn law_script_stops_at_exit(
    lines: Seq<Seq<char>>,
    ends: spec_fn(int) -> i32,
    n: int,
    status: i32,
)
    requires
        0 <= n <= lines.len(),
        !leaves(status),
    ensures
        ({
            let (count, end) = script_rest(lines, ends, n, status);
            &&& n <= count <= lines.len()
            &&& forall|k: int| n <= k < count - 1 ==> !leaves(#[trigger] ends(k))
            &&& if end == 0 {
                count == lines.len() && (count > n ==> !leaves(ends(count - 1)))
            } else {
                count > n && leaves(end) && end == ends(count - 1)
            }
        }),
    decreases lines.len() - n,
{
    if n < lines.len() {
        if leaves(ends(n)) {
            assert(script_rest(lines, ends, n + 1, ends(n)) == (n + 1, ends(n)));
        } else {
            law_script_stops_at_exit(lines, ends, n + 1, ends(n));
        }
    }
}

/// A file that holds a block is never read as plain lines: it defines what its
/// block defines, or nothing.
pub proof fn law_blocks_are_not_read_as_lines(
    stem: Seq<char>,
    path: Seq<char>,
    contents: Seq<char>,
)
    requires
        has_block(contents),
    ensures
        function_definition(stem, path, contents).alias == function_block(contents).alias,
{
}

/// A file that holds no block is read as plain lines, whatever its first line is.
pub proof fn law_files_without_block_are_read_as_lines(
    stem: Seq<char>,
    path: Seq<char>,
    contents: Seq<char>,
)
    requires
        !has_block(contents),
        spaced(working(trimmed_lines(contents))).len() > 0,
    ensures
        function_definition(stem, path, contents).alias == Some(
            (stem, spaced(working(trimmed_lines(contents)))),
        ),
{
}

/// A file whose name ends in `.lush` holds the function that the name says before
/// that; any other file holds none.
pub proof fn law_function_files_end_in_lush(file: Seq<char>, stem: Seq<char>)
    ensures
        stem.len() > 0 ==> function_stem(stem + ".lush"@) == Some(stem),
        function_stem(file) matches Some(s) ==> s.len() > 0 && file == s + ".lush"@,
{
    reveal_strlit(".lush");
    let full = stem + ".lush"@;
    let n = full.len() - 5;
    assert(full.skip(n) =~= ".lush"@);
    assert(full.take(n) =~= stem);
    let m = file.len() - 5;
    if m > 0 && file.skip(m) == ".lush"@ {
        assert(file =~= file.take(m) + file.skip(m));
    }
}

/// Whether a line says something: it is neither empty nor a comment.
pub open spec fn says_something(line: Seq<char>) -> bool {
    line.len() > 0 && line[0] != '#'
}

/// Of the lines of a file those count that are neither empty nor start with `#`, in
/// order.
pub proof fn law_blank_lines_and_comments_do_not_count(lines: Seq<Seq<char>>)
    ensures
        working(lines) == lines.filter(|line: Seq<char>| says_something(line)),
    decreases lines.len(),
{
    reveal(Seq::filter);
    if lines.len() > 0 {
        law_blank_lines_and_comments_do_not_count(lines.drop_last());
    }
    assert(working(lines) =~= lines.filter(|line: Seq<char>| says_something(line)));
}

/// A function file defines its alias and leaves all others as they are.
pub proof fn law_function_files_add_one_alias(
    aliases: Map<Seq<char>, Seq<char>>,
    name: Seq<char>,
    value: Seq<char>,
    other: Seq<char>,
)
    ensures
        ({
            let after = aliases_with(aliases, Some((name, value)));
            &&& after.dom().contains(name) && after[name] == value
            &&& other != name ==> (after.dom().contains(other) <==> aliases.dom().contains(other))
                && (aliases.dom().contains(other) ==> after[other] == aliases[other])
        }),
        aliases_with(aliases, None) == aliases,
{
}

} // verus!
