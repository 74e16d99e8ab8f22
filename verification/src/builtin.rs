//! The commands that run inside the shell.
//!
//! [`Shell::run_builtin`] does all of a builtin that concerns the state of the
//! shell. Where the system is needed, it says what for; the caller does that,
//! and hands the outcome back.

use vstd::prelude::*;

use crate::command::{builtin_name, builtin_names, law_these_are_the_builtins};
use crate::expand::{expansion, law_reference_expands};
use crate::lexer::lexed;
use crate::lexer_laws::{
    can_be_written, law_blank_separates, law_space_and_tab_separate, law_statements_lex_apart,
    law_written_words_read_back, lemma_closed_join, lemma_written_is_closed, ordinary,
    quotes_closed, run_text, stay_apart, word_can_be_written, word_text,
};
use crate::path::{expand_tilde, home_in, law_tilde_stands_for_home, tilde_expanded};
use crate::redirect::text_in;
use crate::shell::{has_row, lemma_row_in_map, lists_table, map_of, rows_view, Row, Shell, Table};
use crate::text::{
    find_from, first_word, first_word_of, index_from, join_spaced, lemma_index_from,
    lemma_index_from_is, lemma_trimmed_twice, same, slice_text, spaced, texts, to_chars, trim,
    trimmed,
};
use crate::word::{Part, RunKind, Tok};

verus! {

// ---------------------------------------------------------------------
// What a builtin says and asks for
// ---------------------------------------------------------------------

/// The end of a builtin: its status, and what it writes on either stream.
#[derive(Debug)]
pub struct Report {
    pub status: i32,
    pub out: String,
    pub err: String,
}

/// The model of a [`Report`].
#[verifier::ext_equal]
pub struct Said {
    pub status: i32,
    pub out: Seq<char>,
    pub err: Seq<char>,
}

impl View for Report {
    type V = Said;

    open spec fn view(&self) -> Said {
        Said { status: self.status, out: self.out@, err: self.err@ }
    }
}

/// What comes of a builtin.
#[derive(Debug)]
pub enum Step {
    /// It has ended.
    Done(Report),
    /// Change into `path`, then call [`Shell::changed_dir`].
    ChangeDir { path: String, announce: bool },
    /// Find out the current directory, then call [`reported_dir`].
    ReportDir,
    /// Run the lines of the script at `path`.
    Source { path: String },
    /// Create the directory `dir` and write `contents` to `path` in it, then call
    /// [`saved`] or [`not_saved`].
    Save { name: String, dir: String, path: String, contents: String },
}

/// The model of a [`Step`].
#[verifier::ext_equal]
pub enum Move {
    Done(Said),
    ChangeDir { path: Seq<char>, announce: bool },
    ReportDir,
    Source { path: Seq<char> },
    Save { name: Seq<char>, dir: Seq<char>, path: Seq<char>, contents: Seq<char> },
}

impl View for Step {
    type V = Move;

    open spec fn view(&self) -> Move {
        match self {
            Step::Done(report) => Move::Done(report@),
            Step::ChangeDir { path, announce } => Move::ChangeDir {
                path: path@,
                announce: *announce,
            },
            Step::ReportDir => Move::ReportDir,
            Step::Source { path } => Move::Source { path: path@ },
            Step::Save { name, dir, path, contents } => Move::Save {
                name: name@,
                dir: dir@,
                path: path@,
                contents: contents@,
            },
        }
    }
}

/// A builtin that writes `out` and succeeds.
pub open spec fn succeeds(out: Seq<char>) -> Said {
    Said { status: 0, out, err: Seq::empty() }
}

/// A builtin that fails with the line `message` on the error stream.
pub open spec fn fails(message: Seq<char>) -> Said {
    Said { status: 1, out: Seq::empty(), err: message + "\n"@ }
}

fn success(out: String) -> (r: Report)
    ensures
        r@ == succeeds(out@),
{
    let r = Report { status: 0, out, err: String::new() };
    assert(r@ =~= succeeds(out@));
    r
}

fn failure(message: String) -> (r: Report)
    ensures
        r@ == fails(message@),
{
    let mut err: String = message;
    err.append("\n");
    let r = Report { status: 1, out: String::new(), err };
    assert(r@ =~= fails(message@));
    r
}

/// `s` as a line.
fn line(s: &str) -> (r: String)
    ensures
        r@ == s@ + "\n"@,
{
    let mut out: String = s.to_owned();
    out.append("\n");
    out
}

/// `a`, `b` and `c` in a row.
pub fn three(a: &str, b: &str, c: &str) -> (r: String)
    ensures
        r@ == a@ + b@ + c@,
{
    let mut out: String = a.to_owned();
    out.append(b);
    out.append(c);
    out
}

// ---------------------------------------------------------------------
// cd, pwd
// ---------------------------------------------------------------------

/// What `cd` does: with no argument it goes home, and with `-` to the previous
/// directory, which it then announces.
pub open spec fn cd_move(env: Map<Seq<char>, Seq<char>>, args: Seq<Seq<char>>) -> Move {
    let target = if args.len() > 0 {
        args[0]
    } else {
        "~"@
    };
    if target == "-"@ {
        if env.dom().contains("OLDPWD"@) {
            Move::ChangeDir { path: env["OLDPWD"@], announce: true }
        } else {
            Move::Done(fails("lush: cd: OLDPWD not set"@))
        }
    } else {
        Move::ChangeDir { path: tilde_expanded(target, home_in(env)), announce: false }
    }
}

/// The environment after a change of directory from `previous` to `now`, as far
/// as these are known.
pub open spec fn moved(
    env: Map<Seq<char>, Seq<char>>,
    previous: Option<Seq<char>>,
    now: Option<Seq<char>>,
) -> Map<Seq<char>, Seq<char>> {
    let left = match previous {
        Some(dir) => env.insert("OLDPWD"@, dir),
        None => env,
    };
    match now {
        Some(dir) => left.insert("PWD"@, dir),
        None => left,
    }
}

/// The model of the outcome of a change of directory.
pub open spec fn outcome_in(
    outcome: Result<Option<String>, String>,
) -> Result<Option<Seq<char>>, Seq<char>> {
    match outcome {
        Ok(now) => Ok(text_in(now)),
        Err(e) => Err(e@),
    }
}

/// Whether the end of `cd` takes the shell from one state to another and says `said`.
pub open spec fn directory_changed(
    path: Seq<char>,
    announce: bool,
    previous: Option<Seq<char>>,
    outcome: Result<Option<Seq<char>>, Seq<char>>,
    before: State,
    after: State,
    said: Said,
) -> bool {
    match outcome {
        Ok(now) => {
            &&& after == (State { env: moved(before.env, previous, now), ..before })
            &&& said == succeeds(
                if announce && now is Some {
                    now->0 + "\n"@
                } else {
                    Seq::empty()
                },
            )
        },
        Err(e) => after == before && said == fails("lush: cd: "@ + path + ": "@ + e),
    }
}

impl Shell {
    /// The `cd` builtin up to the change itself.
    fn cd(&self, args: &[String]) -> (r: Step)
        ensures
            r@ == cd_move(self.env@, texts(args@)),
    {
        let target: String = if args.len() > 0 {
            args[0].clone()
        } else {
            "~".to_owned()
        };
        if same(&target, "-") {
            match self.env.get("OLDPWD") {
                Some(old) => Step::ChangeDir { path: old, announce: true },
                None => Step::Done(failure("lush: cd: OLDPWD not set".to_owned())),
            }
        } else {
            Step::ChangeDir { path: expand_tilde(&target, &self.home()), announce: false }
        }
    }

    /// The end of `cd`, once the change to `path` was tried. `previous` is the
    /// directory before, `outcome` the directory after or the error. `$OLDPWD`
    /// and `$PWD` change only if the change was made.
    pub fn changed_dir(
        &mut self,
        path: &str,
        announce: bool,
        previous: Option<String>,
        outcome: Result<Option<String>, String>,
    ) -> (r: Report)
        ensures
            final(self).aliases@ == old(self).aliases@,
            final(self).vars@ == old(self).vars@,
            directory_changed(
                path@,
                announce,
                text_in(previous),
                outcome_in(outcome),
                old(self).state(),
                final(self).state(),
                r@,
            ),
    {
        match outcome {
            Ok(now) => {
                if let Some(dir) = previous {
                    self.env.insert("OLDPWD".to_owned(), dir);
                }
                let mut out: String = String::new();
                if let Some(dir) = now {
                    if announce {
                        out = line(&dir);
                    }
                    self.env.insert("PWD".to_owned(), dir);
                }
                success(out)
            },
            Err(e) => {
                let mut message: String = three("lush: cd: ", path, ": ");
                message.append(&e);
                failure(message)
            },
        }
    }

    /// The `pwd` builtin: what `$PWD` expands to, so that the two never
    /// disagree. Only without it is the system asked.
    fn pwd(&self) -> (r: Step)
        ensures
            r@ == (if self.scope().dom().contains("PWD"@) {
                Move::Done(succeeds(self.scope()["PWD"@] + "\n"@))
            } else {
                Move::ReportDir
            }),
    {
        match self.lookup_variable("PWD") {
            Some(dir) => Step::Done(success(line(&dir))),
            None => Step::ReportDir,
        }
    }
}

/// The end of `pwd`, when the system was asked.
pub fn reported_dir(outcome: Result<String, String>) -> (r: Report)
    ensures
        match outcome {
            Ok(dir) => r@ == succeeds(dir@ + "\n"@),
            Err(e) => r@ == fails("lush: pwd: "@ + e@),
        },
{
    match outcome {
        Ok(dir) => success(line(&dir)),
        Err(e) => {
            let mut message: String = "lush: pwd: ".to_owned();
            message.append(&e);
            failure(message)
        },
    }
}

// ---------------------------------------------------------------------
// alias, unalias
// ---------------------------------------------------------------------

/// The line that lists an alias.
pub open spec fn alias_line(row: Row) -> Seq<char> {
    "alias "@ + row.0 + "='"@ + row.1 + "'\n"@
}

/// The lines that list the rows of a table, each written by `write`.
pub open spec fn listing(rows: Seq<Row>, write: spec_fn(Row) -> Seq<char>) -> Seq<char>
    decreases rows.len(),
{
    if rows.len() == 0 {
        Seq::empty()
    } else {
        listing(rows.drop_last(), write) + write(rows.last())
    }
}

/// Whether `text` lists the table in the order of its names.
pub open spec fn lists_as_text(
    text: Seq<char>,
    table: Map<Seq<char>, Seq<char>>,
    write: spec_fn(Row) -> Seq<char>,
) -> bool {
    exists|rows: Seq<Row>| #[trigger] lists_table(rows, table) && text == listing(rows, write)
}

/// The name and value that a definition `name=value` gives, if it has a name.
pub open spec fn definition(full: Seq<char>) -> Option<(Seq<char>, Seq<char>)> {
    let eq = index_from(full, '=', 0);
    if eq < full.len() && trimmed(full.take(eq)).len() > 0 {
        Some((trimmed(full.take(eq)), trimmed(full.skip(eq + 1))))
    } else {
        None
    }
}

fn write_alias(name: &str, value: &str) -> (r: String)
    ensures
        r@ == alias_line((name@, value@)),
{
    let mut out: String = three("alias ", name, "='");
    out.append(value);
    out.append("'\n");
    out
}

/// The parts of `s` before and after its first `=`, if it has one.
fn split_at_equals(s: &str) -> (r: Option<(String, String)>)
    ensures
        r is Some == (index_from(s@, '=', 0) < s@.len()),
        r is Some ==> (r->0).0@ == s@.take(index_from(s@, '=', 0)) && (r->0).1@ == s@.skip(
            index_from(s@, '=', 0) + 1,
        ),
{
    let chars: Vec<char> = to_chars(s);
    let eq: usize = find_from(&chars, '=', 0);
    if eq >= chars.len() {
        return None;
    }
    let name: String = slice_text(&chars, 0, eq);
    let value: String = slice_text(&chars, eq + 1, chars.len());
    assert(name@ =~= s@.take(eq as int));
    assert(value@ =~= s@.skip(eq + 1));
    Some((name, value))
}

impl Shell {
    /// All aliases, in the order of their names.
    fn list_aliases(&self) -> (r: String)
        ensures
            lists_as_text(r@, self.aliases@, |row: Row| alias_line(row)),
    {
        let rows: &Vec<(String, String)> = self.aliases.rows();
        let ghost all = rows_view(rows@);
        let ghost write = |row: Row| alias_line(row);
        let mut out: String = String::new();
        let mut i: usize = 0;
        while i < rows.len()
            invariant
                i <= rows@.len(),
                all == rows_view(rows@),
                write == (|row: Row| alias_line(row)),
                out@ == listing(all.take(i as int), write),
            decreases rows@.len() - i,
        {
            out.append(&write_alias(&rows[i].0, &rows[i].1));
            proof {
                assert(all.take(i + 1).drop_last() =~= all.take(i as int));
                assert(all.take(i + 1).last() == (rows@[i as int].0@, rows@[i as int].1@));
            }
            i = i + 1;
        }
        assert(all.take(i as int) =~= all);
        out
    }

    /// The `alias` builtin: lists the aliases, or defines one. The arguments are
    /// joined first, in case there are spaces around the `=`.
    fn alias(&mut self, args: &[String]) -> (r: Report)
        ensures
            final(self).vars@ == old(self).vars@,
            final(self).env@ == old(self).env@,
            ({
                if args@.len() == 0 {
                    &&& final(self).aliases@ == old(self).aliases@
                    &&& r@ == succeeds(r.out@)
                    &&& lists_as_text(r.out@, old(self).aliases@, |row: Row| alias_line(row))
                } else {
                    match definition(spaced(texts(args@))) {
                        Some((name, value)) => {
                            &&& final(self).aliases@ == old(self).aliases@.insert(name, value)
                            &&& r@ == succeeds(Seq::empty())
                        },
                        None => {
                            &&& final(self).aliases@ == old(self).aliases@
                            &&& r@ == fails(
                                "lush: alias: invalid syntax, expected name=value"@,
                            )
                        },
                    }
                }
            }),
    {
        if args.len() == 0 {
            return success(self.list_aliases());
        }
        let full: String = join_spaced(args);
        if let Some((left, right)) = split_at_equals(&full) {
            let name: String = trim(&left);
            let value: String = trim(&right);
            if !name.as_str().is_empty() {
                self.aliases.insert(name, value);
                return success(String::new());
            }
        }
        failure("lush: alias: invalid syntax, expected name=value".to_owned())
    }

    /// The `unalias` builtin.
    fn unalias(&mut self, args: &[String]) -> (r: Report)
        ensures
            final(self).vars@ == old(self).vars@,
            final(self).env@ == old(self).env@,
            ({
                let names = texts(args@);
                if names.len() == 0 {
                    &&& final(self).aliases@ == old(self).aliases@
                    &&& r@ == fails("lush: unalias: missing name"@)
                } else {
                    &&& final(self).aliases@ == old(self).aliases@.remove(names[0])
                    &&& r@ == if old(self).aliases@.dom().contains(names[0]) {
                        succeeds(Seq::empty())
                    } else {
                        fails("lush: unalias: "@ + names[0] + ": not found"@)
                    }
                }
            }),
    {
        if args.len() == 0 {
            return failure("lush: unalias: missing name".to_owned());
        }
        if self.aliases.remove(&args[0]) {
            success(String::new())
        } else {
            failure(three("lush: unalias: ", &args[0], ": not found"))
        }
    }
}

// ---------------------------------------------------------------------
// funcsave
// ---------------------------------------------------------------------

/// The contents of the function file that an alias is saved to.
pub open spec fn function_file(name: Seq<char>, value: Seq<char>) -> Seq<char> {
    let wraps = match first_word(value) {
        Some(w) => w,
        None => name,
    };
    "function "@ + name + " --wraps="@ + wraps + " --description 'alias "@ + name + "="@ + value
        + "'\n    "@ + value + " $argv\nend\n"@
}

/// The directory of the function files.
pub open spec fn functions_dir(home: Seq<char>) -> Seq<char> {
    home + "/.config/lush/functions"@
}

/// What `funcsave` does.
pub open spec fn funcsave_move(
    aliases: Map<Seq<char>, Seq<char>>,
    env: Map<Seq<char>, Seq<char>>,
    args: Seq<Seq<char>>,
) -> Move {
    if args.len() == 0 {
        Move::Done(fails("lush: funcsave: missing name"@))
    } else if !aliases.dom().contains(args[0]) {
        Move::Done(fails("lush: funcsave: "@ + args[0] + ": no such alias defined"@))
    } else if !env.dom().contains("HOME"@) {
        Move::Done(fails("lush: funcsave: $HOME not set"@))
    } else {
        let dir = functions_dir(env["HOME"@]);
        Move::Save {
            name: args[0],
            dir,
            path: dir + "/"@ + args[0] + ".lush"@,
            contents: function_file(args[0], aliases[args[0]]),
        }
    }
}

/// Writes the function file that an alias is saved to: in the `function`/`end`
/// form, with `$argv` in the body so that arguments pass through.
pub fn write_function_file(name: &str, value: &str) -> (r: String)
    ensures
        r@ == function_file(name@, value@),
{
    let wraps: String = match first_word_of(value) {
        Some(w) => w,
        None => name.to_owned(),
    };
    let mut out: String = three("function ", name, " --wraps=");
    out.append(&wraps);
    out.append(" --description 'alias ");
    out.append(name);
    out.append("=");
    out.append(value);
    out.append("'\n    ");
    out.append(value);
    out.append(" $argv\nend\n");
    out
}

impl Shell {
    /// The directory of the function files, if there is a home directory.
    pub fn functions_dir_path(&self) -> (r: Option<String>)
        ensures
            r is Some == self.env@.dom().contains("HOME"@),
            r is Some ==> r->0@ == functions_dir(self.env@["HOME"@]),
    {
        match self.env.get("HOME") {
            Some(home) => {
                let mut dir: String = home;
                dir.append("/.config/lush/functions");
                Some(dir)
            },
            None => None,
        }
    }

    /// The `funcsave` builtin up to the writing of the file.
    fn funcsave(&self, args: &[String]) -> (r: Step)
        ensures
            r@ == funcsave_move(self.aliases@, self.env@, texts(args@)),
    {
        if args.len() == 0 {
            return Step::Done(failure("lush: funcsave: missing name".to_owned()));
        }
        let name: String = args[0].clone();
        match self.aliases.get(&name) {
            Some(value) => match self.functions_dir_path() {
                Some(dir) => {
                    let mut path: String = three(&dir, "/", &name);
                    path.append(".lush");
                    let contents: String = write_function_file(&name, &value);
                    Step::Save { name, dir, path, contents }
                },
                None => Step::Done(failure("lush: funcsave: $HOME not set".to_owned())),
            },
            None => Step::Done(
                failure(three("lush: funcsave: ", &name, ": no such alias defined")),
            ),
        }
    }
}

/// The end of `funcsave`, when the file was written.
pub fn saved(name: &str, path: &str) -> (r: Report)
    ensures
        r@ == succeeds("Saved '"@ + name@ + "' to "@ + path@ + "\n"@),
{
    let mut out: String = three("Saved '", name, "' to ");
    out.append(path);
    out.append("\n");
    success(out)
}

/// The end of `funcsave`, when `place`, the directory or the file, could not be
/// written.
pub fn not_saved(place: &str, error: &str) -> (r: Report)
    ensures
        r@ == fails("lush: funcsave: "@ + place@ + ": "@ + error@),
{
    let mut message: String = three("lush: funcsave: ", place, ": ");
    message.append(error);
    failure(message)
}

// ---------------------------------------------------------------------
// export, unset
// ---------------------------------------------------------------------

/// The line that lists a shell variable.
pub open spec fn export_line(row: Row) -> Seq<char> {
    "export "@ + row.0 + "="@ + row.1 + "\n"@
}

/// How far `export` has come.
#[verifier::ext_equal]
pub struct Exports {
    pub vars: Map<Seq<char>, Seq<char>>,
    pub env: Map<Seq<char>, Seq<char>>,
    pub status: i32,
    pub err: Seq<char>,
}

/// Whether the system can hold a variable of that name: it is not empty, and has
/// neither a `=` nor a NUL in it.
pub open spec fn can_be_named(name: Seq<char>) -> bool {
    name.len() > 0 && !name.contains('=') && !name.contains('\0')
}

/// `export` after an argument that it cannot follow, for the reason `message`.
pub open spec fn refused(e: Exports, message: Seq<char>) -> Exports {
    Exports { status: 1, err: e.err + (message + "\n"@), ..e }
}

/// What `export` says where the system cannot hold a variable. `arg` is the
/// argument that asks for it.
pub open spec fn refusal(arg: Seq<char>, name: Seq<char>, value: Seq<char>) -> Option<Seq<char>> {
    if !can_be_named(name) {
        Some("lush: export: invalid name in '"@ + arg + "'"@)
    } else if value.contains('\0') {
        Some("lush: export: invalid value in '"@ + arg + "'"@)
    } else {
        None
    }
}

/// `export` after one more argument. `NAME=value` sets a shell variable and puts
/// it into the environment; `NAME` puts an existing one there. Whatever it cannot
/// follow, it reports, and leaves everything as it is.
pub open spec fn exported(e: Exports, arg: Seq<char>) -> Exports {
    let eq = index_from(arg, '=', 0);
    if eq < arg.len() {
        let name = arg.take(eq);
        let value = arg.skip(eq + 1);
        match refusal(arg, name, value) {
            Some(message) => refused(e, message),
            None => Exports {
                vars: e.vars.insert(name, value),
                env: e.env.insert(name, value),
                ..e
            },
        }
    } else if e.vars.dom().contains(arg) {
        match refusal(arg, arg, e.vars[arg]) {
            Some(message) => refused(e, message),
            None => Exports { env: e.env.insert(arg, e.vars[arg]), ..e },
        }
    } else {
        refused(e, "lush: export: "@ + arg + ": not set"@)
    }
}

/// `export` after all arguments.
pub open spec fn exported_all(e: Exports, args: Seq<Seq<char>>) -> Exports
    decreases args.len(),
{
    if args.len() == 0 {
        e
    } else {
        exported(exported_all(e, args.drop_last()), args.last())
    }
}

/// The shell variables that are exported: those whose value is also in the
/// environment.
pub open spec fn mirrored(
    vars: Map<Seq<char>, Seq<char>>,
    env: Map<Seq<char>, Seq<char>>,
) -> Map<Seq<char>, Seq<char>> {
    vars.restrict(Set::new(|n: Seq<char>| env.dom().contains(n) && env[n] == vars[n]))
}

/// `table` without the given names, as far as the system can hold such names.
pub open spec fn without(
    table: Map<Seq<char>, Seq<char>>,
    names: Seq<Seq<char>>,
) -> Map<Seq<char>, Seq<char>>
    decreases names.len(),
{
    if names.len() == 0 {
        table
    } else if can_be_named(names.last()) {
        without(table, names.drop_last()).remove(names.last())
    } else {
        without(table, names.drop_last())
    }
}

/// What `unset` says about the names that the system cannot hold.
pub open spec fn misnamed(names: Seq<Seq<char>>) -> Seq<char>
    decreases names.len(),
{
    if names.len() == 0 {
        Seq::empty()
    } else if can_be_named(names.last()) {
        misnamed(names.drop_last())
    } else {
        misnamed(names.drop_last()) + ("lush: unset: invalid name '"@ + names.last() + "'"@ + "\n"@)
    }
}

/// Whether the system can hold each of the names.
pub open spec fn all_named(names: Seq<Seq<char>>) -> bool {
    forall|k: int| 0 <= k < names.len() ==> can_be_named(#[trigger] names[k])
}

/// What `unset` comes to.
pub open spec fn unset_said(names: Seq<Seq<char>>) -> Said {
    if names.len() == 0 {
        fails("lush: unset: missing name"@)
    } else {
        Said {
            status: if all_named(names) {
                0
            } else {
                1
            },
            out: Seq::empty(),
            err: misnamed(names),
        }
    }
}

/// Whether `c` occurs in `s`.
fn has_char(s: &str, c: char) -> (r: bool)
    ensures
        r == s@.contains(c),
{
    let chars: Vec<char> = to_chars(s);
    let p: usize = find_from(&chars, c, 0);
    proof {
        lemma_index_from(s@, c, 0);
        if p < chars@.len() {
            assert(s@[p as int] == c);
        }
    }
    p < chars.len()
}

fn is_nameable(name: &str) -> (r: bool)
    ensures
        r == can_be_named(name@),
{
    !name.is_empty() && !has_char(name, '=') && !has_char(name, '\0')
}

/// What `export` says where the system cannot hold a variable.
fn refusal_of(arg: &str, name: &str, value: &str) -> (r: Option<String>)
    ensures
        text_in(r) == refusal(arg@, name@, value@),
{
    if !is_nameable(name) {
        Some(three("lush: export: invalid name in '", arg, "'"))
    } else if has_char(value, '\0') {
        Some(three("lush: export: invalid value in '", arg, "'"))
    } else {
        None
    }
}

fn write_export(name: &str, value: &str) -> (r: String)
    ensures
        r@ == export_line((name@, value@)),
{
    let mut out: String = three("export ", name, "=");
    out.append(value);
    out.append("\n");
    out
}

impl Shell {
    /// The shell variables that are exported.
    fn exported_vars(&self) -> (r: Table)
        ensures
            r@ == mirrored(self.vars@, self.env@),
    {
        let rows: &Vec<(String, String)> = self.vars.rows();
        let ghost all = rows_view(rows@);
        let ghost goal = mirrored(self.vars@, self.env@);
        let mut found: Table = Table::new();
        let mut i: usize = 0;
        while i < rows.len()
            invariant
                i <= rows@.len(),
                all == rows_view(rows@),
                lists_table(all, self.vars@),
                goal == mirrored(self.vars@, self.env@),
                forall|n: Seq<char>| #[trigger]
                    found@.dom().contains(n) <==> goal.dom().contains(n) && has_row(
                        all.take(i as int),
                        n,
                    ),
                forall|n: Seq<char>| #[trigger]
                    found@.dom().contains(n) ==> found@[n] == goal[n],
            decreases rows@.len() - i,
        {
            let ghost before = found@;
            let ghost name = all[i as int].0;
            let ghost less = all.take(i as int);
            let ghost more = all.take(i + 1);
            proof {
                lemma_row_in_map(all, i as int);
                assert(more[i as int].0 == name);
            }
            let mirrors: bool = match self.env.get(&rows[i].0) {
                Some(value) => same(&value, &rows[i].1),
                None => false,
            };
            if mirrors {
                found.insert(rows[i].0.clone(), rows[i].1.clone());
            }
            proof {
                assert(mirrors == goal.dom().contains(name));
                assert forall|n: Seq<char>| has_row(more, n) <==> has_row(less, n) || n == name by {
                    if has_row(more, n) {
                        let k = choose|k: int| 0 <= k < more.len() && (#[trigger] more[k]).0 == n;
                        if k < i {
                            assert(less[k].0 == n);
                        }
                    }
                    if has_row(less, n) {
                        let k = choose|k: int| 0 <= k < less.len() && (#[trigger] less[k]).0 == n;
                        assert(more[k].0 == n);
                    }
                }
                assert forall|n: Seq<char>| #[trigger]
                    found@.dom().contains(n) <==> goal.dom().contains(n) && has_row(more, n) by {
                    assert(before.dom().contains(n) <==> goal.dom().contains(n) && has_row(less, n));
                }
            }
            i = i + 1;
        }
        proof {
            assert(all.take(i as int) =~= all);
            assert forall|n: Seq<char>| found@.dom().contains(n) <==> #[trigger]
                goal.dom().contains(n) by {
                if goal.dom().contains(n) {
                    assert(map_of(all).dom().contains(n));
                    assert(has_row(all, n));
                }
            }
            assert(found@ =~= goal);
        }
        found
    }

    /// The exported shell variables, in the order of their names.
    fn list_exports(&self) -> (r: String)
        ensures
            lists_as_text(r@, mirrored(self.vars@, self.env@), |row: Row| export_line(row)),
    {
        let table: Table = self.exported_vars();
        let rows: &Vec<(String, String)> = table.rows();
        let ghost all = rows_view(rows@);
        let ghost write = |row: Row| export_line(row);
        let mut out: String = String::new();
        let mut i: usize = 0;
        while i < rows.len()
            invariant
                i <= rows@.len(),
                all == rows_view(rows@),
                write == (|row: Row| export_line(row)),
                out@ == listing(all.take(i as int), write),
            decreases rows@.len() - i,
        {
            out.append(&write_export(&rows[i].0, &rows[i].1));
            proof {
                assert(all.take(i + 1).drop_last() =~= all.take(i as int));
                assert(all.take(i + 1).last() == (rows@[i as int].0@, rows@[i as int].1@));
            }
            i = i + 1;
        }
        assert(all.take(i as int) =~= all);
        out
    }

    /// The `export` builtin.
    fn export(&mut self, args: &[String]) -> (r: Report)
        ensures
            final(self).aliases@ == old(self).aliases@,
            ({
                if args@.len() == 0 {
                    &&& final(self).vars@ == old(self).vars@
                    &&& final(self).env@ == old(self).env@
                    &&& r@ == succeeds(r.out@)
                    &&& lists_as_text(
                        r.out@,
                        mirrored(old(self).vars@, old(self).env@),
                        |row: Row| export_line(row),
                    )
                } else {
                    let start = Exports {
                        vars: old(self).vars@,
                        env: old(self).env@,
                        status: 0,
                        err: Seq::empty(),
                    };
                    let end = exported_all(start, texts(args@));
                    &&& final(self).vars@ == end.vars
                    &&& final(self).env@ == end.env
                    &&& r@ == (Said { status: end.status, out: Seq::empty(), err: end.err })
                }
            }),
    {
        if args.len() == 0 {
            return success(self.list_exports());
        }
        let ghost start = Exports {
            vars: self.vars@,
            env: self.env@,
            status: 0,
            err: Seq::empty(),
        };
        let ghost all = texts(args@);
        let mut status: i32 = 0;
        let mut err: String = String::new();
        let mut i: usize = 0;
        assert(all.take(0) =~= Seq::empty());
        while i < args.len()
            invariant
                i <= args@.len(),
                all == texts(args@),
                self.aliases@ == old(self).aliases@,
                (Exports { vars: self.vars@, env: self.env@, status, err: err@ })
                    == exported_all(start, all.take(i as int)),
            decreases args@.len() - i,
        {
            proof {
                assert(all.take(i + 1).drop_last() =~= all.take(i as int));
                assert(all.take(i + 1).last() == args@[i as int]@);
                lemma_index_from(args@[i as int]@, '=', 0);
            }
            let complaint: Option<String> = match split_at_equals(&args[i]) {
                Some((name, value)) => {
                    let r: Option<String> = refusal_of(&args[i], &name, &value);
                    if r.is_none() {
                        self.vars.insert(name.clone(), value.clone());
                        self.env.insert(name, value);
                    }
                    r
                },
                None => match self.vars.get(&args[i]) {
                    Some(value) => {
                        let r: Option<String> = refusal_of(&args[i], &args[i], &value);
                        if r.is_none() {
                            self.env.insert(args[i].clone(), value);
                        }
                        r
                    },
                    None => Some(three("lush: export: ", &args[i], ": not set")),
                },
            };
            if let Some(message) = complaint {
                err.append(&line(&message));
                status = 1;
            }
            i = i + 1;
        }
        assert(all.take(i as int) =~= all);
        let r = Report { status, out: String::new(), err };
        assert(r@.out =~= Seq::empty());
        r
    }

    /// The `unset` builtin: takes variables away from the shell and from the
    /// environment. A name that the system cannot hold is reported.
    fn unset(&mut self, args: &[String]) -> (r: Report)
        ensures
            final(self).aliases@ == old(self).aliases@,
            final(self).vars@ == without(old(self).vars@, texts(args@)),
            final(self).env@ == without(old(self).env@, texts(args@)),
            r@ == unset_said(texts(args@)),
    {
        if args.len() == 0 {
            return failure("lush: unset: missing name".to_owned());
        }
        let ghost all = texts(args@);
        let mut status: i32 = 0;
        let mut err: String = String::new();
        let mut i: usize = 0;
        assert(all.take(0) =~= Seq::empty());
        while i < args.len()
            invariant
                i <= args@.len(),
                all == texts(args@),
                self.aliases@ == old(self).aliases@,
                self.vars@ == without(old(self).vars@, all.take(i as int)),
                self.env@ == without(old(self).env@, all.take(i as int)),
                err@ == misnamed(all.take(i as int)),
                status == 0 <==> all_named(all.take(i as int)),
                status == 0 || status == 1,
            decreases args@.len() - i,
        {
            let ghost less = all.take(i as int);
            let ghost more = all.take(i + 1);
            proof {
                assert(more.drop_last() =~= less);
                assert(more.last() == args@[i as int]@);
                assert(more[i as int] == args@[i as int]@);
                assert(all_named(more) <==> all_named(less) && can_be_named(more[i as int])) by {
                    if all_named(more) {
                        assert forall|k: int| 0 <= k < less.len() implies can_be_named(
                            #[trigger] less[k],
                        ) by {
                            assert(less[k] == more[k]);
                        }
                    }
                    if all_named(less) && can_be_named(more[i as int]) {
                        assert forall|k: int| 0 <= k < more.len() implies can_be_named(
                            #[trigger] more[k],
                        ) by {
                            if k < i {
                                assert(more[k] == less[k]);
                            }
                        }
                    }
                }
            }
            if is_nameable(&args[i]) {
                self.vars.remove(&args[i]);
                self.env.remove(&args[i]);
            } else {
                err.append(&line(&three("lush: unset: invalid name '", &args[i], "'")));
                status = 1;
            }
            i = i + 1;
        }
        assert(all.take(i as int) =~= all);
        let r = Report { status, out: String::new(), err };
        assert(r@ =~= unset_said(all));
        r
    }
}

// ---------------------------------------------------------------------
// All of them
// ---------------------------------------------------------------------

/// What a builtin does to the aliases, the shell variables and the environment.
#[verifier::ext_equal]
pub struct State {
    pub aliases: Map<Seq<char>, Seq<char>>,
    pub vars: Map<Seq<char>, Seq<char>>,
    pub env: Map<Seq<char>, Seq<char>>,
}

impl Shell {
    /// The state, as a model.
    pub open spec fn state(&self) -> State {
        State { aliases: self.aliases@, vars: self.vars@, env: self.env@ }
    }
}

/// Whether a builtin can take the shell from one state to another with the given
/// outcome.
pub open spec fn builtin_does(
    name: Seq<char>,
    args: Seq<Seq<char>>,
    before: State,
    after: State,
    step: Move,
) -> bool {
    if name == "cd"@ {
        after == before && step == cd_move(before.env, args)
    } else if name == "pwd"@ {
        let scope = before.env.union_prefer_right(before.vars);
        after == before && step == if scope.dom().contains("PWD"@) {
            Move::Done(succeeds(scope["PWD"@] + "\n"@))
        } else {
            Move::ReportDir
        }
    } else if name == "alias"@ {
        if args.len() == 0 {
            &&& after == before
            &&& step is Done
            &&& step->Done_0 == succeeds(step->Done_0.out)
            &&& lists_as_text(step->Done_0.out, before.aliases, |row: Row| alias_line(row))
        } else {
            match definition(spaced(args)) {
                Some((n, value)) => {
                    &&& after == (State { aliases: before.aliases.insert(n, value), ..before })
                    &&& step == Move::Done(succeeds(Seq::empty()))
                },
                None => {
                    &&& after == before
                    &&& step == Move::Done(
                        fails("lush: alias: invalid syntax, expected name=value"@),
                    )
                },
            }
        }
    } else if name == "unalias"@ {
        if args.len() == 0 {
            after == before && step == Move::Done(fails("lush: unalias: missing name"@))
        } else {
            &&& after == (State { aliases: before.aliases.remove(args[0]), ..before })
            &&& step == Move::Done(
                if before.aliases.dom().contains(args[0]) {
                    succeeds(Seq::empty())
                } else {
                    fails("lush: unalias: "@ + args[0] + ": not found"@)
                },
            )
        }
    } else if name == "source"@ || name == "."@ {
        after == before && step == if args.len() > 0 {
            Move::Source { path: tilde_expanded(args[0], home_in(before.env)) }
        } else {
            Move::Done(fails("lush: "@ + name + ": missing filename"@))
        }
    } else if name == "funcsave"@ {
        after == before && step == funcsave_move(before.aliases, before.env, args)
    } else if name == "export"@ {
        if args.len() == 0 {
            &&& after == before
            &&& step is Done
            &&& step->Done_0 == succeeds(step->Done_0.out)
            &&& lists_as_text(
                step->Done_0.out,
                mirrored(before.vars, before.env),
                |row: Row| export_line(row),
            )
        } else {
            let start = Exports {
                vars: before.vars,
                env: before.env,
                status: 0,
                err: Seq::empty(),
            };
            let end = exported_all(start, args);
            &&& after == (State { vars: end.vars, env: end.env, ..before })
            &&& step == Move::Done(
                Said { status: end.status, out: Seq::empty(), err: end.err },
            )
        }
    } else {
        &&& after == (State {
            vars: without(before.vars, args),
            env: without(before.env, args),
            ..before
        })
        &&& step == Move::Done(unset_said(args))
    }
}

impl Shell {
    /// Runs any builtin but `exit`, as far as it concerns the state of the shell.
    pub fn run_builtin(&mut self, name: &str, args: &[String]) -> (r: Step)
        requires
            builtin_name(name@),
            name@ != "exit"@,
        ensures
            builtin_does(name@, texts(args@), old(self).state(), final(self).state(), r@),
    {
        if same(name, "cd") {
            self.cd(args)
        } else if same(name, "pwd") {
            self.pwd()
        } else if same(name, "alias") {
            Step::Done(self.alias(args))
        } else if same(name, "unalias") {
            Step::Done(self.unalias(args))
        } else if same(name, "source") || same(name, ".") {
            if args.len() > 0 {
                Step::Source { path: expand_tilde(&args[0], &self.home()) }
            } else {
                Step::Done(failure(three("lush: ", name, ": missing filename")))
            }
        } else if same(name, "funcsave") {
            self.funcsave(args)
        } else if same(name, "export") {
            Step::Done(self.export(args))
        } else {
            Step::Done(self.unset(args))
        }
    }
}

// ---------------------------------------------------------------------
// Laws
// ---------------------------------------------------------------------

/// What `export NAME=value` sets is what `$NAME` reads and what children
/// inherit.
pub proof fn law_export_sets_both(
    name: Seq<char>,
    value: Seq<char>,
    vars: Map<Seq<char>, Seq<char>>,
    env: Map<Seq<char>, Seq<char>>,
)
    requires
        can_be_named(name),
        !value.contains('\0'),
    ensures
        ({
            let start = Exports { vars, env, status: 0, err: Seq::empty() };
            let end = exported_all(start, seq![name + seq!['='] + value]);
            &&& end == (Exports {
                vars: vars.insert(name, value),
                env: env.insert(name, value),
                ..start
            })
            &&& end.env.union_prefer_right(end.vars)[name] == value
        }),
{
    let start = Exports { vars, env, status: 0, err: Seq::empty() };
    let arg = name + seq!['='] + value;
    let n = name.len() as int;
    assert forall|k: int| 0 <= k < n implies arg[k] != '=' by {
        assert(name.contains(name[k]));
    }
    lemma_index_from_is(arg, '=', 0, n);
    assert(arg.take(n) =~= name);
    assert(arg.skip(n + 1) =~= value);
    assert(seq![arg].drop_last() =~= Seq::empty());
    assert(exported_all(start, seq![arg].drop_last()) == start);
    assert(exported_all(start, seq![arg]) == exported(start, arg));
}

/// `export` never loses a variable.
pub proof fn law_export_keeps_variables(e: Exports, args: Seq<Seq<char>>, name: Seq<char>)
    ensures
        e.vars.dom().contains(name) ==> exported_all(e, args).vars.dom().contains(name),
        e.env.dom().contains(name) ==> exported_all(e, args).env.dom().contains(name),
    decreases args.len(),
{
    if args.len() > 0 {
        law_export_keeps_variables(e, args.drop_last(), name);
    }
}

/// After `unset`, none of the names that the system can hold is left, and nothing
/// else is gone.
pub proof fn law_unset_removes_exactly(
    table: Map<Seq<char>, Seq<char>>,
    names: Seq<Seq<char>>,
    name: Seq<char>,
)
    ensures
        names.contains(name) && can_be_named(name) ==> !without(table, names).dom().contains(name),
        !names.contains(name) || !can_be_named(name) ==> without(table, names).dom().contains(name)
            == table.dom().contains(name) && (table.dom().contains(name) ==> without(table, names)[name]
            == table[name]),
    decreases names.len(),
{
    if names.len() > 0 {
        let less = names.drop_last();
        law_unset_removes_exactly(table, less, name);
        if names.contains(name) && name != names.last() {
            let k = choose|k: int| 0 <= k < names.len() && names[k] == name;
            assert(less[k] == name);
        }
        if less.contains(name) {
            let k = choose|k: int| 0 <= k < less.len() && less[k] == name;
            assert(names[k] == name);
        }
        if name == names.last() {
            assert(names[names.len() - 1] == name);
        }
    }
}

/// After a change of directory from `a` to `b`, `cd -` goes back to `a` and
/// says so.
pub proof fn law_cd_dash_goes_back(
    env: Map<Seq<char>, Seq<char>>,
    a: Seq<char>,
    b: Seq<char>,
)
    ensures
        cd_move(moved(env, Some(a), Some(b)), seq!["-"@]) == (Move::ChangeDir {
            path: a,
            announce: true,
        }),
        moved(env, Some(a), Some(b))["PWD"@] == b,
{
    reveal_strlit("OLDPWD");
    reveal_strlit("PWD");
    assert("OLDPWD"@.len() != "PWD"@.len());
}

/// `pwd` prints what `$PWD` expands to.
pub proof fn law_pwd_agrees_with_variable(before: State, after: State, step: Move)
    requires
        builtin_does("pwd"@, Seq::empty(), before, after, step),
        before.env.union_prefer_right(before.vars).dom().contains("PWD"@),
    ensures
        step == Move::Done(
            succeeds(
                expansion(
                    before.env.union_prefer_right(before.vars),
                    seq![Part { kind: RunKind::Unquoted, text: seq!['$'] + "PWD"@ }],
                ) + "\n"@,
            ),
        ),
{
    let scope = before.env.union_prefer_right(before.vars);
    reveal_strlit("pwd");
    reveal_strlit("cd");
    reveal_strlit("PWD");
    assert("pwd"@.len() != "cd"@.len());
    law_reference_expands(scope, "PWD"@, RunKind::Unquoted);
}

/// An assignment shadows an inherited variable of the same name.
pub proof fn law_assignment_shadows_environment(
    vars: Map<Seq<char>, Seq<char>>,
    env: Map<Seq<char>, Seq<char>>,
    name: Seq<char>,
    value: Seq<char>,
)
    ensures
        env.union_prefer_right(vars.insert(name, value)).dom().contains(name),
        env.union_prefer_right(vars.insert(name, value))[name] == value,
{
}

/// The name and the value of an alias that is defined have no white space at
/// their ends.
pub proof fn law_definitions_are_trimmed(full: Seq<char>)
    requires
        definition(full) is Some,
    ensures
        trimmed((definition(full)->0).0) == (definition(full)->0).0,
        trimmed((definition(full)->0).1) == (definition(full)->0).1,
{
    let eq = index_from(full, '=', 0);
    lemma_trimmed_twice(full.take(eq));
    lemma_trimmed_twice(full.skip(eq + 1));
}

/// A variable that was exported is listed; one that was only assigned is not,
/// unless the environment happens to hold the same value.
pub proof fn law_listing_shows_exports(
    vars: Map<Seq<char>, Seq<char>>,
    env: Map<Seq<char>, Seq<char>>,
    name: Seq<char>,
    value: Seq<char>,
)
    ensures
        mirrored(vars.insert(name, value), env.insert(name, value)).dom().contains(name),
        !env.dom().contains(name) ==> !mirrored(vars.insert(name, value), env).dom().contains(name),
{
}

/// A builtin that succeeds ends with status 0 and reports no error; one that fails
/// ends with status 1, writes nothing, and reports one line.
pub proof fn law_success_and_failure(text: Seq<char>)
    ensures
        succeeds(text).status == 0 && succeeds(text).out == text && succeeds(text).err.len() == 0,
        fails(text).status == 1 && fails(text).out.len() == 0 && fails(text).err == text + seq![
            '\n',
        ],
{
    reveal_strlit("\n");
    assert("\n"@ =~= seq!['\n']);
}

proof fn lemma_names_differ()
    ensures
        "cd"@.len() == 2,
        "pwd"@.len() == 3,
        "alias"@.len() == 5 && "alias"@[0] == 'a',
        "unalias"@.len() == 7,
        "source"@.len() == 6 && "source"@[0] == 's',
        "."@.len() == 1,
        "funcsave"@.len() == 8,
        "export"@.len() == 6 && "export"@[0] == 'e',
        "unset"@.len() == 5 && "unset"@[0] == 'u',
{
    reveal_strlit("cd");
    reveal_strlit("pwd");
    reveal_strlit("alias");
    reveal_strlit("unalias");
    reveal_strlit("source");
    reveal_strlit(".");
    reveal_strlit("funcsave");
    reveal_strlit("export");
    reveal_strlit("unset");
}

/// Only `alias` and `unalias` change the aliases, and only `export` and `unset` the
/// variables and the environment. None of them changes anything if it asks the
/// caller to go on.
pub proof fn law_builtins_keep_the_rest(
    name: Seq<char>,
    args: Seq<Seq<char>>,
    before: State,
    after: State,
    step: Move,
)
    requires
        builtin_names().contains(name),
        builtin_does(name, args, before, after, step),
    ensures
        name != "alias"@ && name != "unalias"@ ==> after.aliases == before.aliases,
        name != "export"@ && name != "unset"@ && name != "exit"@ ==> after.vars == before.vars
            && after.env == before.env,
        !(step is Done) ==> after == before,
{
    law_these_are_the_builtins(name);
    lemma_names_differ();
}

/// `alias name=value` defines the alias, with the white space around its name and
/// its value taken off, and says nothing. It changes no other alias. The arguments
/// count as one text with spaces between them.
pub proof fn law_alias_defines(
    args: Seq<Seq<char>>,
    name: Seq<char>,
    value: Seq<char>,
    before: State,
    after: State,
    step: Move,
)
    requires
        args.len() > 0,
        spaced(args) == name + seq!['='] + value,
        !name.contains('='),
        builtin_does("alias"@, args, before, after, step),
    ensures
        trimmed(name).len() > 0 ==> after == (State {
            aliases: before.aliases.insert(trimmed(name), trimmed(value)),
            ..before
        }) && step == Move::Done(Said { status: 0, out: Seq::empty(), err: Seq::empty() }),
        trimmed(name).len() == 0 ==> after == before && step == Move::Done(
            fails("lush: alias: invalid syntax, expected name=value"@),
        ),
{
    lemma_names_differ();
    reveal_strlit("\n");
    let full = spaced(args);
    let n = name.len() as int;
    assert forall|k: int| 0 <= k < n implies full[k] != '=' by {
        assert(name.contains(name[k]));
    }
    lemma_index_from_is(full, '=', 0, n);
    assert(full.take(n) =~= name);
    assert(full.skip(n + 1) =~= value);
}

/// `alias` with arguments that hold no `=` defines nothing and fails.
pub proof fn law_alias_needs_an_equals_sign(
    args: Seq<Seq<char>>,
    before: State,
    after: State,
    step: Move,
)
    requires
        args.len() > 0,
        !spaced(args).contains('='),
        builtin_does("alias"@, args, before, after, step),
    ensures
        after == before,
        step == Move::Done(fails("lush: alias: invalid syntax, expected name=value"@)),
{
    lemma_names_differ();
    reveal_strlit("\n");
    let full = spaced(args);
    lemma_index_from(full, '=', 0);
    let eq = index_from(full, '=', 0);
    if eq < full.len() {
        assert(full.contains(full[eq]));
    }
}

/// `alias` alone lists all aliases in the order of their names, one line each, and
/// changes nothing.
pub proof fn law_alias_lists(before: State, after: State, step: Move)
    requires
        builtin_does("alias"@, Seq::empty(), before, after, step),
    ensures
        after == before,
        step is Done && step->Done_0.status == 0 && step->Done_0.err.len() == 0,
        exists|rows: Seq<Row>| #[trigger]
            lists_table(rows, before.aliases) && step->Done_0.out == listing(
                rows,
                |row: Row| alias_line(row),
            ),
{
    lemma_names_differ();
}

/// `export` alone lists the variables whose value the environment has too, in the
/// order of their names, one line each, and changes nothing.
pub proof fn law_export_lists(before: State, after: State, step: Move, name: Seq<char>)
    requires
        builtin_does("export"@, Seq::empty(), before, after, step),
    ensures
        after == before,
        step is Done && step->Done_0.status == 0 && step->Done_0.err.len() == 0,
        exists|rows: Seq<Row>| #[trigger]
            lists_table(rows, mirrored(before.vars, before.env)) && step->Done_0.out == listing(
                rows,
                |row: Row| export_line(row),
            ),
        mirrored(before.vars, before.env).dom().contains(name) <==> before.vars.dom().contains(name)
            && before.env.dom().contains(name) && before.env[name] == before.vars[name],
        mirrored(before.vars, before.env).dom().contains(name) ==> mirrored(
            before.vars,
            before.env,
        )[name] == before.vars[name],
{
    lemma_names_differ();
}

/// A listing is its lines, one behind the other.
pub proof fn law_listing_goes_row_by_row(
    a: Seq<Row>,
    b: Seq<Row>,
    row: Row,
    write: spec_fn(Row) -> Seq<char>,
)
    ensures
        listing(Seq::empty(), write) == Seq::<char>::empty(),
        listing(seq![row], write) == write(row),
        listing(a + b, write) == listing(a, write) + listing(b, write),
    decreases b.len(),
{
    let one = seq![row];
    assert(one.drop_last() =~= Seq::empty());
    assert(listing(one.drop_last(), write) + write(row) =~= write(row));
    if b.len() == 0 {
        assert(a + b =~= a);
        assert(listing(a, write) + listing(b, write) =~= listing(a, write));
    } else {
        assert((a + b).drop_last() =~= a + b.drop_last());
        law_listing_goes_row_by_row(a, b.drop_last(), row, write);
        assert(listing(a + b, write) =~= listing(a, write) + listing(b, write));
    }
}

/// `unalias name` takes that alias away and no other. It fails if there is none.
pub proof fn law_unalias_removes(
    name: Seq<char>,
    more: Seq<Seq<char>>,
    before: State,
    after: State,
    step: Move,
)
    requires
        builtin_does("unalias"@, seq![name] + more, before, after, step),
    ensures
        after == (State { aliases: before.aliases.remove(name), ..before }),
        step is Done,
        before.aliases.dom().contains(name) ==> step->Done_0 == (Said {
            status: 0,
            out: Seq::empty(),
            err: Seq::empty(),
        }),
        !before.aliases.dom().contains(name) ==> step->Done_0 == fails(
            "lush: unalias: "@ + name + ": not found"@,
        ),
{
    lemma_names_differ();
    reveal_strlit("\n");
    let args = seq![name] + more;
    assert(args[0] == name);
}

/// `source path` and `. path` run the script at that path, with a `~` expanded.
pub proof fn law_source_runs_the_script(
    name: Seq<char>,
    path: Seq<char>,
    more: Seq<Seq<char>>,
    before: State,
    after: State,
    step: Move,
)
    requires
        name == "source"@ || name == "."@,
        builtin_does(name, seq![path] + more, before, after, step),
    ensures
        after == before,
        step == (Move::Source { path: tilde_expanded(path, home_in(before.env)) }),
{
    lemma_names_differ();
    let args = seq![path] + more;
    assert(args[0] == path);
}

/// `cd` goes home, `cd path` to that path with a `~` expanded, and `cd -` to where
/// `OLDPWD` says, which it announces; without `OLDPWD` it fails.
pub proof fn law_cd_goes_where_it_is_told(
    path: Seq<char>,
    more: Seq<Seq<char>>,
    before: State,
    after: State,
    step: Move,
)
    ensures
        builtin_does("cd"@, Seq::empty(), before, after, step) ==> after == before && step == (
        Move::ChangeDir { path: home_in(before.env), announce: false }),
        builtin_does("cd"@, seq![path] + more, before, after, step) && path != seq!['-'] ==> after
            == before && step == (Move::ChangeDir {
            path: tilde_expanded(path, home_in(before.env)),
            announce: false,
        }),
        builtin_does("cd"@, seq![seq!['-']] + more, before, after, step)
            && before.env.dom().contains("OLDPWD"@) ==> after == before && step == (
        Move::ChangeDir { path: before.env["OLDPWD"@], announce: true }),
        builtin_does("cd"@, seq![seq!['-']] + more, before, after, step)
            && !before.env.dom().contains("OLDPWD"@) ==> after == before && step == Move::Done(
            fails("lush: cd: OLDPWD not set"@),
        ),
{
    reveal_strlit("~");
    reveal_strlit("-");
    reveal_strlit("\n");
    assert("~"@ =~= seq!['~']);
    assert("-"@ =~= seq!['-']);
    assert("~"@[0] != "-"@[0]);
    let args = seq![path] + more;
    assert(args[0] == path);
    let back = seq![seq!['-']] + more;
    assert(back[0] == seq!['-']);
    law_tilde_stands_for_home(Seq::empty(), home_in(before.env));
}

/// A change of directory sets `PWD` and `OLDPWD`, as far as the directories are
/// known, and no other variable.
pub proof fn law_change_of_directory_is_noted(
    env: Map<Seq<char>, Seq<char>>,
    previous: Option<Seq<char>>,
    now: Option<Seq<char>>,
    name: Seq<char>,
)
    ensures
        ({
            let after = moved(env, previous, now);
            &&& previous is Some ==> after.dom().contains("OLDPWD"@) && after["OLDPWD"@]
                == previous->0
            &&& now is Some ==> after.dom().contains("PWD"@) && after["PWD"@] == now->0
            &&& (name != "OLDPWD"@ || previous is None) && (name != "PWD"@ || now is None) ==> (
            after.dom().contains(name) <==> env.dom().contains(name)) && (env.dom().contains(name)
                ==> after[name] == env[name])
        }),
{
    reveal_strlit("OLDPWD");
    reveal_strlit("PWD");
    assert("OLDPWD"@.len() != "PWD"@.len());
}

/// Without a variable `PWD`, `pwd` asks the system; with one it does not.
pub proof fn law_pwd_asks_only_without_variable(
    args: Seq<Seq<char>>,
    before: State,
    after: State,
    step: Move,
)
    requires
        builtin_does("pwd"@, args, before, after, step),
    ensures
        after == before,
        step is ReportDir <==> !before.vars.dom().contains("PWD"@) && !before.env.dom().contains(
            "PWD"@,
        ),
        before.vars.dom().contains("PWD"@) ==> step == Move::Done(
            Said { status: 0, out: before.vars["PWD"@] + seq!['\n'], err: Seq::empty() },
        ),
        !before.vars.dom().contains("PWD"@) && before.env.dom().contains("PWD"@) ==> step
            == Move::Done(
            Said { status: 0, out: before.env["PWD"@] + seq!['\n'], err: Seq::empty() },
        ),
{
    lemma_names_differ();
    reveal_strlit("\n");
    assert("\n"@ =~= seq!['\n']);
}

/// `funcsave name` saves an alias to the file of its name among the function files
/// of the home directory, and changes nothing itself. Without such an alias, or
/// without a home directory, it fails.
pub proof fn law_funcsave_saves_the_alias(
    name: Seq<char>,
    more: Seq<Seq<char>>,
    before: State,
    after: State,
    step: Move,
)
    requires
        builtin_does("funcsave"@, seq![name] + more, before, after, step),
    ensures
        after == before,
        before.aliases.dom().contains(name) && before.env.dom().contains("HOME"@) ==> {
            &&& step is Save
            &&& step->Save_name == name
            &&& step->Save_dir == before.env["HOME"@] + "/.config/lush/functions"@
            &&& step->Save_path == step->Save_dir + seq!['/'] + name + ".lush"@
            &&& step->Save_contents == function_file(name, before.aliases[name])
        },
        !before.aliases.dom().contains(name) ==> step == Move::Done(
            fails("lush: funcsave: "@ + name + ": no such alias defined"@),
        ),
        before.aliases.dom().contains(name) && !before.env.dom().contains("HOME"@) ==> step
            == Move::Done(fails("lush: funcsave: $HOME not set"@)),
{
    lemma_names_differ();
    reveal_strlit("\n");
    reveal_strlit("/");
    assert("/"@ =~= seq!['/']);
    let args = seq![name] + more;
    assert(args[0] == name);
}

/// `unalias`, `source`, `.`, `funcsave` and `unset` fail without an argument, and
/// change nothing.
pub proof fn law_missing_arguments_are_reported(
    name: Seq<char>,
    before: State,
    after: State,
    step: Move,
)
    requires
        name == "unalias"@ || name == "source"@ || name == "."@ || name == "funcsave"@ || name
            == "unset"@,
        builtin_does(name, Seq::empty(), before, after, step),
    ensures
        after == before,
        step == Move::Done(
            fails(
                "lush: "@ + name + if name == "source"@ || name == "."@ {
                    ": missing filename"@
                } else {
                    ": missing name"@
                },
            ),
        ),
{
    lemma_names_differ();
    reveal_strlit("lush: ");
    reveal_strlit("unalias");
    reveal_strlit("funcsave");
    reveal_strlit("unset");
    reveal_strlit(": missing name");
    reveal_strlit("lush: unalias: missing name");
    reveal_strlit("lush: funcsave: missing name");
    reveal_strlit("lush: unset: missing name");
    assert("lush: "@ + "unalias"@ + ": missing name"@ =~= "lush: unalias: missing name"@);
    assert("lush: "@ + "funcsave"@ + ": missing name"@ =~= "lush: funcsave: missing name"@);
    assert("lush: "@ + "unset"@ + ": missing name"@ =~= "lush: unset: missing name"@);
    assert(without(before.vars, Seq::empty()) == before.vars);
    assert(without(before.env, Seq::empty()) == before.env);
}

/// `export` follows its arguments one after the other.
pub proof fn law_export_goes_argument_by_argument(
    e: Exports,
    a: Seq<Seq<char>>,
    b: Seq<Seq<char>>,
)
    ensures
        exported_all(e, Seq::empty()) == e,
        exported_all(e, a + b) == exported_all(exported_all(e, a), b),
    decreases b.len(),
{
    if b.len() == 0 {
        assert(a + b =~= a);
    } else {
        assert((a + b).drop_last() =~= a + b.drop_last());
        law_export_goes_argument_by_argument(e, a, b.drop_last());
    }
}

/// One argument of `export`. `NAME=value` sets the variable and the environment,
/// `NAME` puts a variable that is set into the environment. Whatever cannot be
/// followed changes neither, adds a line to the errors, and makes the status 1.
pub proof fn law_export_of_one_argument(
    e: Exports,
    name: Seq<char>,
    value: Seq<char>,
    arg: Seq<char>,
)
    ensures
        ({
            let r = exported_all(e, seq![name + seq!['='] + value]);
            let allowed = name.len() > 0 && !name.contains('\0') && !value.contains('\0');
            &&& !name.contains('=') && allowed ==> r == (Exports {
                vars: e.vars.insert(name, value),
                env: e.env.insert(name, value),
                status: e.status,
                err: e.err,
            })
            &&& !name.contains('=') && !allowed ==> export_refused(
                e,
                r,
                if name.len() == 0 || name.contains('\0') {
                    "lush: export: invalid name in '"@ + (name + seq!['='] + value) + "'"@
                } else {
                    "lush: export: invalid value in '"@ + (name + seq!['='] + value) + "'"@
                },
            )
        }),
        ({
            let r = exported_all(e, seq![arg]);
            let allowed = e.vars.dom().contains(arg) && arg.len() > 0 && !arg.contains('\0')
                && !e.vars[arg].contains('\0');
            &&& !arg.contains('=') && allowed ==> r == (Exports {
                vars: e.vars,
                env: e.env.insert(arg, e.vars[arg]),
                status: e.status,
                err: e.err,
            })
            &&& !arg.contains('=') && !allowed ==> export_refused(
                e,
                r,
                if !e.vars.dom().contains(arg) {
                    "lush: export: "@ + arg + ": not set"@
                } else if arg.len() == 0 || arg.contains('\0') {
                    "lush: export: invalid name in '"@ + arg + "'"@
                } else {
                    "lush: export: invalid value in '"@ + arg + "'"@
                },
            )
        }),
{
    reveal_strlit("\n");
    let full = name + seq!['='] + value;
    let n = name.len() as int;
    assert(seq![full].drop_last() =~= Seq::empty());
    assert(exported_all(e, seq![full].drop_last()) == e);
    assert(exported_all(e, seq![full]) == exported(e, full));
    if !name.contains('=') {
        assert forall|k: int| 0 <= k < n implies full[k] != '=' by {
            assert(name.contains(name[k]));
        }
        lemma_index_from_is(full, '=', 0, n);
        assert(full.take(n) =~= name);
        assert(full.skip(n + 1) =~= value);
        lemma_refused(e, full, name, value);
    }
    assert(seq![arg].drop_last() =~= Seq::empty());
    assert(exported_all(e, seq![arg].drop_last()) == e);
    assert(exported_all(e, seq![arg]) == exported(e, arg));
    if !arg.contains('=') {
        lemma_index_from(arg, '=', 0);
        let eq = index_from(arg, '=', 0);
        if eq < arg.len() {
            assert(arg.contains(arg[eq]));
        }
        if e.vars.dom().contains(arg) {
            lemma_refused(e, arg, arg, e.vars[arg]);
        } else {
            lemma_one_more_line(e, "lush: export: "@ + arg + ": not set"@);
        }
    }
}

/// Whether `export` went from `e` to `r` with one more error, the line `message`, and
/// nothing else.
pub open spec fn export_refused(e: Exports, r: Exports, message: Seq<char>) -> bool {
    &&& r.vars == e.vars
    &&& r.env == e.env
    &&& r.status == 1
    &&& r.err == e.err + message + seq!['\n']
}

proof fn lemma_one_more_line(e: Exports, message: Seq<char>)
    ensures
        export_refused(e, refused(e, message), message),
{
    reveal_strlit("\n");
    assert("\n"@ =~= seq!['\n']);
    assert(e.err + (message + "\n"@) =~= e.err + message + seq!['\n']);
}

proof fn lemma_refused(e: Exports, arg: Seq<char>, name: Seq<char>, value: Seq<char>)
    ensures
        refusal(arg, name, value) matches Some(message) ==> export_refused(
            e,
            refused(e, message),
            message,
        ),
{
    if let Some(message) = refusal(arg, name, value) {
        lemma_one_more_line(e, message);
    }
}

/// `export` with arguments comes to what following them comes to: the status is 0
/// unless one of them was refused, and what was refused is reported.
pub proof fn law_export_reports(
    args: Seq<Seq<char>>,
    before: State,
    after: State,
    step: Move,
)
    requires
        args.len() > 0,
        builtin_does("export"@, args, before, after, step),
    ensures
        ({
            let start = Exports {
                vars: before.vars,
                env: before.env,
                status: 0,
                err: Seq::empty(),
            };
            let end = exported_all(start, args);
            &&& after == (State { aliases: before.aliases, vars: end.vars, env: end.env })
            &&& step == Move::Done(Said { status: end.status, out: Seq::empty(), err: end.err })
        }),
{
    lemma_names_differ();
}

/// `unset` takes exactly its names away from the variables and from the
/// environment. A name that is empty, or that holds a `=` or a NUL, is reported, and
/// then the status is 1.
pub proof fn law_unset_takes_away(
    args: Seq<Seq<char>>,
    before: State,
    after: State,
    step: Move,
    name: Seq<char>,
)
    requires
        args.len() > 0,
        builtin_does("unset"@, args, before, after, step),
    ensures
        ({
            let fit = name.len() > 0 && !name.contains('=') && !name.contains('\0');
            &&& after.aliases == before.aliases
            &&& args.contains(name) && fit ==> !after.vars.dom().contains(name)
                && !after.env.dom().contains(name)
            &&& !args.contains(name) || !fit ==> {
                &&& after.vars.dom().contains(name) <==> before.vars.dom().contains(name)
                &&& after.env.dom().contains(name) <==> before.env.dom().contains(name)
                &&& before.vars.dom().contains(name) ==> after.vars[name] == before.vars[name]
                &&& before.env.dom().contains(name) ==> after.env[name] == before.env[name]
            }
            &&& step is Done
            &&& step->Done_0.out.len() == 0
            &&& args.contains(name) && !fit ==> step->Done_0.status == 1
            &&& step->Done_0.status == 0 || step->Done_0.status == 1
            &&& step->Done_0.status == 0 <==> step->Done_0.err.len() == 0
            &&& step->Done_0.status == 0 <==> forall|k: int|
                0 <= k < args.len() ==> (#[trigger] args[k]).len() > 0 && !args[k].contains('=')
                    && !args[k].contains('\0')
        }),
{
    lemma_names_differ();
    law_unset_removes_exactly(before.vars, args, name);
    law_unset_removes_exactly(before.env, args, name);
    lemma_misnamed(args);
    if args.contains(name) {
        let k = choose|k: int| 0 <= k < args.len() && args[k] == name;
        assert(all_named(args) ==> can_be_named(args[k]));
    }
    if forall|k: int|
        0 <= k < args.len() ==> (#[trigger] args[k]).len() > 0 && !args[k].contains('=')
            && !args[k].contains('\0') {
        assert(all_named(args));
    }
}

proof fn lemma_misnamed(names: Seq<Seq<char>>)
    ensures
        misnamed(names).len() == 0 <==> all_named(names),
    decreases names.len(),
{
    reveal_strlit("\n");
    if names.len() > 0 {
        let less = names.drop_last();
        let n = names.len() - 1;
        lemma_misnamed(less);
        assert(names[n] == names.last());
        if all_named(names) {
            assert forall|k: int| 0 <= k < less.len() implies can_be_named(#[trigger] less[k]) by {
                assert(less[k] == names[k]);
            }
        }
        if all_named(less) && can_be_named(names.last()) {
            assert forall|k: int| 0 <= k < names.len() implies can_be_named(
                #[trigger] names[k],
            ) by {
                if k < n {
                    assert(names[k] == less[k]);
                }
            }
        }
    }
}

/// Whether a text is written with ordinary characters only.
pub open spec fn all_ordinary(s: Seq<char>) -> bool {
    forall|k: int| 0 <= k < s.len() ==> ordinary(#[trigger] s[k])
}

/// The line that lists an alias is the command that defines it: its name in ordinary
/// characters, and its value between single quotes.
pub proof fn law_alias_line_reads_back(name: Seq<char>, value: Seq<char>)
    requires
        all_ordinary(name),
        !value.contains('\''),
    ensures
        lexed(alias_line((name, value))) == seq![
            Tok::Word(seq![Part { kind: RunKind::Unquoted, text: "alias"@ }]),
            Tok::Word(
                seq![
                    Part { kind: RunKind::Unquoted, text: name + seq!['='] },
                    Part { kind: RunKind::Single, text: value },
                ],
            ),
            Tok::Semicolon,
            Tok::Eof,
        ],
{
    reveal_strlit("alias ");
    reveal_strlit("alias");
    reveal_strlit("='");
    reveal_strlit("'\n");
    let command = "alias"@;
    let left = Part { kind: RunKind::Unquoted, text: name + seq!['='] };
    let right = Part { kind: RunKind::Single, text: value };
    let word = seq![left, right];
    assert forall|k: int| 0 <= k < left.text.len() implies ordinary(#[trigger] left.text[k]) by {
        if k < name.len() {
            assert(left.text[k] == name[k]);
        }
    }
    assert forall|k: int| 0 <= k < word.len() implies can_be_written(#[trigger] word[k]) by {}
    assert(stay_apart(word[0], word[1]));
    law_written_words_read_back(word);
    assert(word.skip(1) =~= seq![right]);
    assert(seq![right].skip(1) =~= Seq::empty());
    assert(word_text(seq![right]) == run_text(right) + word_text(seq![right].skip(1)));
    assert(word_text(seq![right]) =~= run_text(right));
    let written = word_text(word);
    assert(written =~= left.text + (seq!['\''] + value + seq!['\'']));
    lemma_line_reads(command, written, word);
    assert(alias_line((name, value)) =~= command + seq![' '] + written + seq!['\n'] + Seq::empty());
}

/// A command word, and one word behind it in the same line.
proof fn lemma_line_reads(command: Seq<char>, written: Seq<char>, word: Seq<Part>)
    requires
        command.len() > 0,
        all_ordinary(command),
        word_can_be_written(word),
        written == word_text(word),
    ensures
        lexed(command + seq![' '] + written + seq!['\n'] + Seq::empty()) == seq![
            Tok::Word(seq![Part { kind: RunKind::Unquoted, text: command }]),
            Tok::Word(word),
            Tok::Semicolon,
            Tok::Eof,
        ],
{
    let one = seq![Part { kind: RunKind::Unquoted, text: command }];
    assert(one.skip(1) =~= Seq::empty());
    assert(word_text(one) =~= command) by {
        assert(word_text(one) == run_text(one[0]) + word_text(one.skip(1)));
    }
    assert(can_be_written(one[0]));
    law_written_words_read_back(one);
    law_written_words_read_back(word);
    lemma_written_is_closed(one);
    lemma_written_is_closed(word);
    law_blank_separates(command, ' ', written);
    assert(quotes_closed(seq![' '], 1));
    assert(quotes_closed(seq![' '], 0));
    lemma_closed_join(command, seq![' ']);
    lemma_closed_join(command + seq![' '], written);
    let both = command + seq![' '] + written;
    law_statements_lex_apart(both, '\n', Seq::empty());
    law_space_and_tab_separate(command, written);
    let none = Seq::<char>::empty();
    assert(lexed(none) == seq![Tok::Eof]);
    assert(lexed(both) =~= seq![Tok::Word(one), Tok::Word(word), Tok::Eof]);
    assert(lexed(both + seq!['\n'] + none) =~= seq![
        Tok::Word(one),
        Tok::Word(word),
        Tok::Semicolon,
        Tok::Eof,
    ]);
}

/// The line that lists an exported variable is the command that exports it, where
/// its name and its value have ordinary characters only.
pub proof fn law_export_line_reads_back(name: Seq<char>, value: Seq<char>)
    requires
        all_ordinary(name),
        all_ordinary(value),
    ensures
        lexed(export_line((name, value))) == seq![
            Tok::Word(seq![Part { kind: RunKind::Unquoted, text: "export"@ }]),
            Tok::Word(seq![Part { kind: RunKind::Unquoted, text: name + seq!['='] + value }]),
            Tok::Semicolon,
            Tok::Eof,
        ],
{
    reveal_strlit("export ");
    reveal_strlit("export");
    reveal_strlit("=");
    reveal_strlit("\n");
    let command = "export"@;
    let part = Part { kind: RunKind::Unquoted, text: name + seq!['='] + value };
    let word = seq![part];
    assert forall|k: int| 0 <= k < part.text.len() implies ordinary(#[trigger] part.text[k]) by {
        if k < name.len() {
            assert(part.text[k] == name[k]);
        } else if k > name.len() {
            assert(part.text[k] == value[k - name.len() - 1]);
        }
    }
    assert(can_be_written(word[0]));
    assert(word.skip(1) =~= Seq::empty());
    assert(word_text(word) == run_text(part) + word_text(word.skip(1)));
    assert(word_text(word) =~= part.text);
    lemma_line_reads(command, part.text, word);
    assert(export_line((name, value)) =~= command + seq![' '] + part.text + seq!['\n']
        + Seq::empty());
}

/// A saved alias is a function of its name. The header also says what the alias
/// wraps, the first word of its value, or its own name if the value has no word, and
/// describes it; the body is the value, with `$argv` behind it.
pub proof fn law_saved_file_says_what_it_is(name: Seq<char>, value: Seq<char>, first: Seq<char>)
    requires
        first_word(value) == Some(first) || (first_word(value) is None && first == name),
    ensures
        function_file(name, value) == "function "@ + name + " --wraps="@ + first
            + " --description 'alias "@ + name + "="@ + value + "'\n"@ + "    "@ + value
            + " $argv\n"@ + "end\n"@,
{
    reveal_strlit("'\n    ");
    reveal_strlit("'\n");
    reveal_strlit("    ");
    reveal_strlit(" $argv\nend\n");
    reveal_strlit(" $argv\n");
    reveal_strlit("end\n");
    assert("'\n    "@ =~= "'\n"@ + "    "@);
    assert(" $argv\nend\n"@ =~= " $argv\n"@ + "end\n"@);
    assert(function_file(name, value) =~= "function "@ + name + " --wraps="@ + first
        + " --description 'alias "@ + name + "="@ + value + "'\n"@ + "    "@ + value
        + " $argv\n"@ + "end\n"@);
}

/// An alias is listed as the word `alias`, its name, `=`, and its value between single
/// quotes; an exported variable as the word `export`, its name, `=`, and its value.
pub proof fn law_listed_lines(name: Seq<char>, value: Seq<char>)
    ensures
        alias_line((name, value)) == "alias "@ + name + "='"@ + value + "'"@ + "\n"@,
        export_line((name, value)) == "export "@ + name + "="@ + value + "\n"@,
{
    reveal_strlit("'\n");
    reveal_strlit("'");
    reveal_strlit("\n");
    assert("'\n"@ =~= "'"@ + "\n"@);
    assert(alias_line((name, value)) =~= "alias "@ + name + "='"@ + value + "'"@ + "\n"@);
}

/// A change of directory that was made sets `OLDPWD` to where the shell was and `PWD`
/// to where it is, and nothing else; if it is to be announced, it says where that is.
/// One that failed changes nothing, and says of which path and why.
pub proof fn law_directory_changes_only_if_made(
    path: Seq<char>,
    announce: bool,
    previous: Seq<char>,
    now: Seq<char>,
    e: Seq<char>,
    before: State,
    after: State,
    said: Said,
)
    ensures
        directory_changed(path, announce, Some(previous), Ok(Some(now)), before, after, said) ==> {
            &&& after.aliases == before.aliases
            &&& after.vars == before.vars
            &&& after.env == before.env.insert("OLDPWD"@, previous).insert("PWD"@, now)
            &&& said.status == 0
            &&& said.err.len() == 0
            &&& said.out == (if announce {
                now + seq!['\n']
            } else {
                Seq::empty()
            })
        },
        directory_changed(path, announce, Some(previous), Err(e), before, after, said) ==> {
            &&& after == before
            &&& said.status == 1
            &&& said.out.len() == 0
            &&& said.err == "lush: cd: "@ + path + ": "@ + e + seq!['\n']
        },
{
    reveal_strlit("\n");
    assert("\n"@ =~= seq!['\n']);
}

/// `unset` reports each name that it cannot follow in a line of its own, in order.
pub proof fn law_unset_reports_name_by_name(a: Seq<Seq<char>>, b: Seq<Seq<char>>, name: Seq<char>)
    ensures
        misnamed(a + b) == misnamed(a) + misnamed(b),
        name.len() == 0 || name.contains('=') || name.contains('\0') ==> misnamed(seq![name])
            == "lush: unset: invalid name '"@ + name + "'"@ + "\n"@,
        a.len() > 0 ==> unset_said(a).err == misnamed(a),
    decreases b.len(),
{
    let one = seq![name];
    assert(one.drop_last() =~= Seq::empty());
    assert(misnamed(one.drop_last()) =~= Seq::empty());
    if name.len() == 0 || name.contains('=') || name.contains('\0') {
        assert(misnamed(one) =~= "lush: unset: invalid name '"@ + name + "'"@ + "\n"@);
    }
    if b.len() == 0 {
        assert(a + b =~= a);
        assert(misnamed(a) + misnamed(b) =~= misnamed(a));
    } else {
        assert((a + b).drop_last() =~= a + b.drop_last());
        law_unset_reports_name_by_name(a, b.drop_last(), name);
        assert(misnamed(a + b) =~= misnamed(a) + misnamed(b));
    }
}

} // verus!
